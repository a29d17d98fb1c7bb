use vstd::prelude::*;

use crate::ast::{Lit, Term};
use crate::grammar::{
    apply_from, application_at, assignment_at, body_at, decimal,
    escape_at, expr_at, fragment_at, group_at, identifier_at, integer_at, line_ends,
    literal_at, program_of, statements_from, string_at, terminal_at, unicode_at, INT_MAX, simple_escape, code_of, hexadecimal, char_of,
};
use crate::render::{escaped, quoted};
use crate::text::{in_class, is_digit, is_hex, is_scalar, lemma_span, span, CharClass};

verus! {

/// A run that is in class `k` up to `e`, and not at `e`, spans exactly to `e`.
pub proof fn lemma_span_exact(s: Seq<char>, j: int, e: int, k: CharClass)
    requires
        0 <= j <= e <= s.len(),
        forall|x: int| j <= x < e ==> in_class(k, #[trigger] s[x]),
        e == s.len() || !in_class(k, s[e]),
    ensures
        span(s, j, k) == e,
    decreases e - j,
{
    if j < e {
        lemma_span_exact(s, j + 1, e, k);
    }
}

/// A string of decimal digits reads as its value when that value fits an
/// `i32`, taking every digit; a larger value is no integer literal.
pub proof fn integer_reads_its_digits(s: Seq<char>)
    requires
        s.len() > 0,
        forall|x: int| 0 <= x < s.len() ==> is_digit(#[trigger] s[x]),
    ensures
        decimal(s) <= INT_MAX ==> integer_at(s, 0) == Some((decimal(s), s.len() as int)),
        decimal(s) > INT_MAX ==> integer_at(s, 0) is None,
{
    lemma_span_exact(s, 0, s.len() as int, CharClass::Digit);
    assert(s.subrange(0, s.len() as int) =~= s);
}

/// An identifier is the longest prefix of letters, digits and `_`, taken
/// as it stands, provided that it does not start with a digit.
pub proof fn identifier_takes_longest_prefix(s: Seq<char>, e: int)
    requires
        0 < e <= s.len(),
        !is_digit(s[0]),
        forall|x: int| 0 <= x < e ==> in_class(CharClass::NameChar, #[trigger] s[x]),
        e == s.len() || !in_class(CharClass::NameChar, s[e]),
    ensures
        identifier_at(s, 0) == Some((s.subrange(0, e), e)),
{
    lemma_span_exact(s, 0, e, CharClass::NameChar);
}

/// The number of leading characters of `t` that need no escape.
pub open spec fn plain_prefix(t: Seq<char>) -> nat
    decreases t.len(),
{
    if t.len() > 0 && in_class(CharClass::Plain, t[0]) {
        1 + plain_prefix(t.drop_first())
    } else {
        0
    }
}

proof fn lemma_plain_prefix(t: Seq<char>)
    ensures
        plain_prefix(t) <= t.len(),
        forall|x: int| 0 <= x < plain_prefix(t) ==> in_class(CharClass::Plain, #[trigger] t[x]),
        plain_prefix(t) < t.len() ==> !in_class(CharClass::Plain, t[plain_prefix(t) as int]),
    decreases t.len(),
{
    if t.len() > 0 && in_class(CharClass::Plain, t[0]) {
        let u = t.drop_first();
        lemma_plain_prefix(u);
        assert forall|x: int| 0 <= x < plain_prefix(t) implies in_class(
            CharClass::Plain,
            #[trigger] t[x],
        ) by {
            if x > 0 {
                assert(t[x] == u[x - 1]);
            }
        }
        if plain_prefix(t) < t.len() {
            assert(t[plain_prefix(t) as int] == u[plain_prefix(u) as int]);
        }
    }
}

proof fn lemma_escaped_plain(t: Seq<char>, n: int)
    requires
        0 <= n <= t.len(),
        forall|x: int| 0 <= x < n ==> in_class(CharClass::Plain, #[trigger] t[x]),
    ensures
        escaped(t) == t.subrange(0, n) + escaped(t.subrange(n, t.len() as int)),
    decreases n,
{
    if n == 0 {
        assert(t.subrange(0, t.len() as int) =~= t);
        assert(t.subrange(0, 0) + escaped(t) =~= escaped(t));
    } else {
        let u = t.drop_first();
        assert forall|x: int| 0 <= x < n - 1 implies in_class(CharClass::Plain, #[trigger] u[x]) by {
            assert(u[x] == t[x + 1]);
        }
        lemma_escaped_plain(u, n - 1);
        assert(u.subrange(n - 1, u.len() as int) =~= t.subrange(n, t.len() as int));
        assert(seq![t[0]] + u.subrange(0, n - 1) =~= t.subrange(0, n));
        assert(escaped(t) == seq![t[0]] + escaped(u));
    }
}

/// The body of a literal written by `escaped`, followed by a quote, decodes
/// back to the text and stops at the quote.
proof fn lemma_body_escaped(s: Seq<char>, j: int, t: Seq<char>)
    requires
        0 <= j,
        j + escaped(t).len() + 1 <= s.len(),
        s.subrange(j, j + escaped(t).len() + 1) == escaped(t) + seq!['"'],
    ensures
        body_at(s, j) == (t, j + escaped(t).len()),
    decreases t.len(),
{
    let w = escaped(t) + seq!['"'];
    assert forall|x: int| 0 <= x < w.len() implies #[trigger] s[j + x] == w[x] by {
        assert(s.subrange(j, j + escaped(t).len() + 1)[x] == s[j + x]);
    }
    if t.len() == 0 {
        assert(s[j] == w[0]);
        assert(span(s, j, CharClass::Plain) == j);
        assert(fragment_at(s, j) is None);
        assert(t =~= Seq::<char>::empty());
    } else if t[0] == '"' || t[0] == '\\' {
        let u = t.drop_first();
        assert(escaped(t) == seq!['\\', t[0]] + escaped(u));
        assert(s[j] == w[0]);
        assert(s[j + 1] == w[1]);
        assert(span(s, j, CharClass::Plain) == j);
        assert(unicode_at(s, j + 1) is None);
        assert(escape_at(s, j + 1) == Some((t[0], j + 2)));
        assert(fragment_at(s, j) == Some((seq![t[0]], j + 2)));
        assert(s.subrange(j + 2, j + 2 + escaped(u).len() + 1) =~= escaped(u) + seq!['"']) by {
            assert forall|x: int| 0 <= x < escaped(u).len() + 1 implies s.subrange(
                j + 2,
                j + 2 + escaped(u).len() + 1,
            )[x] == (escaped(u) + seq!['"'])[x] by {
                assert(s[j + 2 + x] == w[x + 2]);
            }
        }
        lemma_body_escaped(s, j + 2, u);
        assert(seq![t[0]] + u =~= t);
    } else {
        lemma_plain_prefix(t);
        let n = plain_prefix(t) as int;
        assert(n >= 1);
        let u = t.subrange(n, t.len() as int);
        lemma_escaped_plain(t, n);
        let p = t.subrange(0, n);
        assert(escaped(t) == p + escaped(u));
        assert forall|x: int| j <= x < j + n implies in_class(CharClass::Plain, #[trigger] s[x]) by {
            assert(s[j + (x - j)] == w[x - j]);
            assert(w[x - j] == t[x - j]);
        }
        assert(s[j + n] == w[n]);
        if n < t.len() {
            assert(u[0] == t[n]);
            assert(escaped(u) == crate::render::escape_one(u[0]) + escaped(u.drop_first()));
            assert(w[n] == '\\');
        } else {
            assert(u.len() == 0);
            assert(w[n] == '"');
        }
        lemma_span_exact(s, j, j + n, CharClass::Plain);
        assert(s.subrange(j, j + n) =~= p) by {
            assert forall|x: int| 0 <= x < n implies s.subrange(j, j + n)[x] == p[x] by {
                assert(s[j + x] == w[x]);
            }
        }
        assert(fragment_at(s, j) == Some((p, j + n)));
        assert(s.subrange(j + n, j + n + escaped(u).len() + 1) =~= escaped(u) + seq!['"']) by {
            assert forall|x: int| 0 <= x < escaped(u).len() + 1 implies s.subrange(
                j + n,
                j + n + escaped(u).len() + 1,
            )[x] == (escaped(u) + seq!['"'])[x] by {
                assert(s[j + n + x] == w[x + n]);
            }
        }
        lemma_body_escaped(s, j + n, u);
        assert(p + u =~= t);
    }
}

/// A text written as a string literal by `quote` reads back as the same
/// text, the whole literal taken.
pub proof fn quoted_text_reads_back(t: Seq<char>)
    ensures
        string_at(quoted(t), 0) == Some((t, quoted(t).len() as int)),
{
    let q = quoted(t);
    assert(q.subrange(1, 1 + escaped(t).len() as int + 1) =~= escaped(t) + seq!['"']);
    lemma_body_escaped(q, 1, t);
    assert(q[0] == '"');
    assert(q[1 + escaped(t).len() as int] == '"');
}

/// Re-parsing a decoded string literal, written back by `quote`, as a whole
/// program gives the same tree: a block of that one literal.
pub proof fn rendered_literal_reparses_alike(t: Seq<char>)
    ensures
        program_of(quoted(t)) == Some(Term::Block(seq![Term::Literal(Lit::Text(t))])),
{
    let q = quoted(t);
    let n = q.len() as int;
    quoted_text_reads_back(t);
    assert(q[0] == '"');
    assert(span(q, 0, CharClass::Blank) == 0);
    assert(span(q, 0, CharClass::Digit) == 0);
    assert(span(q, 0, CharClass::NameChar) == 0);
    assert(integer_at(q, 0) is None);
    assert(identifier_at(q, 0) is None);
    let lit = Term::Literal(Lit::Text(t));
    assert(literal_at(q, 0) == Some((Lit::Text(t), n)));
    assert(terminal_at(q, 0) == Some((lit, n)));
    assert(group_at(q, 0) == Some((lit, n)));
    assert(span(q, n, CharClass::Blank) == n);
    assert(apply_from(q, lit, n) == (lit, n));
    assert(application_at(q, 0) == Some((lit, n)));
    assert(assignment_at(q, 0) == Some((lit, n)));
    assert(expr_at(q, 0) == Some((lit, n)));
    assert(line_ends(q, n) == n);
    assert(statements_from(q, n) == (Seq::<Term>::empty(), n));
    assert(seq![lit] + Seq::<Term>::empty() =~= seq![lit]);
}

/// Whatever a string literal decodes to, written back by `quote`, decodes
/// to the same text.
pub proof fn decoded_literal_round_trips(s: Seq<char>, i: int)
    requires
        string_at(s, i) is Some,
    ensures
        string_at(quoted(string_at(s, i).unwrap().0), 0).unwrap().0 == string_at(s, i).unwrap().0,
{
    quoted_text_reads_back(string_at(s, i).unwrap().0);
}

/// The left fold of terms into applications: `f a b c` is `((f a) b) c`.
pub open spec fn left_fold(ts: Seq<Term>) -> Term
    recommends
        ts.len() > 0,
    decreases ts.len(),
{
    if ts.len() <= 1 {
        ts[0]
    } else {
        Term::Application(Box::new(left_fold(ts.drop_last())), Box::new(ts.last()))
    }
}

/// Whether groups `ts[x]` stand from `b[x]` to `e[x]`, each after the first
/// separated from the one before by a non-empty run of blanks, and no
/// further group follows the last one after blanks.
pub open spec fn juxtaposed(s: Seq<char>, b: Seq<int>, e: Seq<int>, ts: Seq<Term>) -> bool {
    &&& ts.len() > 0
    &&& b.len() == ts.len()
    &&& e.len() == ts.len()
    &&& forall|x: int| 0 <= x < ts.len() ==> 0 <= #[trigger] b[x] < e[x] <= s.len()
    &&& forall|x: int| 0 <= x < ts.len() ==> #[trigger] group_at(s, b[x]) == Some((ts[x], e[x]))
    &&& forall|x: int|
        1 <= x < ts.len() ==> #[trigger] b[x] == span(s, e[x - 1], CharClass::Blank) && b[x]
            > e[x - 1]
    &&& ({
        let last = e[ts.len() - 1];
        let k2 = span(s, last, CharClass::Blank);
        k2 == last || group_at(s, k2) is None
    })
}

proof fn lemma_fold_from(s: Seq<char>, b: Seq<int>, e: Seq<int>, ts: Seq<Term>, m: int)
    requires
        juxtaposed(s, b, e, ts),
        0 <= m < ts.len(),
    ensures
        apply_from(s, left_fold(ts.subrange(0, m + 1)), e[m]) == (
            left_fold(ts),
            e[ts.len() - 1],
        ),
    decreases ts.len() - m,
{
    let n = ts.len() - 1;
    let acc = left_fold(ts.subrange(0, m + 1));
    let k = e[m];
    assert(forall|x: int| 0 <= x < ts.len() ==> 0 <= #[trigger] b[x] < e[x] <= s.len());
    assert(0 <= b[m] < e[m] <= s.len());
    lemma_span(s, k, CharClass::Blank);
    if m == n {
        assert(ts.subrange(0, m + 1) =~= ts);
    } else {
        assert(b[m + 1] == span(s, e[m], CharClass::Blank) && b[m + 1] > e[m]);
        assert(0 <= b[m + 1] < e[m + 1] <= s.len());
        assert(group_at(s, b[m + 1]) == Some((ts[m + 1], e[m + 1])));
        let next = ts.subrange(0, m + 2);
        assert(next.drop_last() =~= ts.subrange(0, m + 1));
        assert(next.last() == ts[m + 1]);
        assert(left_fold(next) == Term::Application(Box::new(acc), Box::new(ts[m + 1])));
        lemma_fold_from(s, b, e, ts, m + 1);
    }
}

/// Juxtaposed groups parse as one application, folded to the left, that
/// ends where the last group ends.
pub proof fn application_folds_left(s: Seq<char>, b: Seq<int>, e: Seq<int>, ts: Seq<Term>)
    requires
        juxtaposed(s, b, e, ts),
    ensures
        application_at(s, b[0]) == Some((left_fold(ts), e[ts.len() - 1])),
{
    assert(0 <= b[0] < e[0] <= s.len());
    assert(group_at(s, b[0]) == Some((ts[0], e[0])));
    assert(left_fold(ts.subrange(0, 1)) == ts[0]);
    lemma_fold_from(s, b, e, ts, 0);
}

/// Whether `f` is one way to write `c` inside a string literal: `c` itself
/// where it needs no escape, a backslash and a letter that stands for `c`, or
/// `\u{H..H}` with one to six hex digits giving the code of `c`.
#[verifier::opaque]
pub open spec fn writes_char(f: Seq<char>, c: char) -> bool {
    ||| (f == seq![c] && in_class(CharClass::Plain, c))
    ||| (f.len() == 2 && f[0] == '\\' && simple_escape(f[1]) == Some(c))
    ||| (5 <= f.len() <= 10 && f[0] == '\\' && f[1] == 'u' && f[2] == '{' && f.last() == '}'
        && (forall|x: int| 3 <= x < f.len() - 1 ==> is_hex(#[trigger] f[x])) && hexadecimal(
        f.subrange(3, f.len() - 1),
    ) == code_of(c))
}

/// The pieces of `fs`, one after another.
pub open spec fn joined(fs: Seq<Seq<char>>) -> Seq<char>
    decreases fs.len(),
{
    if fs.len() == 0 {
        Seq::empty()
    } else {
        fs[0] + joined(fs.drop_first())
    }
}

/// Whether `fs` writes `t`, one piece for each character.
pub open spec fn writes_text(fs: Seq<Seq<char>>, t: Seq<char>) -> bool {
    fs.len() == t.len() && forall|x: int| 0 <= x < t.len() ==> writes_char(#[trigger] fs[x], t[x])
}

proof fn lemma_joined_concat(a: Seq<Seq<char>>, b: Seq<Seq<char>>)
    ensures
        joined(a + b) == joined(a) + joined(b),
    decreases a.len(),
{
    if a.len() == 0 {
        assert(a + b =~= b);
        assert(joined(a) + joined(b) =~= joined(b));
    } else {
        assert((a + b).drop_first() =~= a.drop_first() + b);
        assert((a + b)[0] == a[0]);
        lemma_joined_concat(a.drop_first(), b);
        assert(joined(a + b) =~= joined(a) + joined(b));
    }
}

/// The number of leading pieces that are a single plain character.
pub open spec fn raw_prefix(fs: Seq<Seq<char>>) -> nat
    decreases fs.len(),
{
    if fs.len() > 0 && fs[0].len() == 1 && in_class(CharClass::Plain, fs[0][0]) {
        1 + raw_prefix(fs.drop_first())
    } else {
        0
    }
}

proof fn lemma_raw_prefix(fs: Seq<Seq<char>>, t: Seq<char>)
    requires
        writes_text(fs, t),
    ensures
        raw_prefix(fs) <= fs.len(),
        forall|x: int| 0 <= x < raw_prefix(fs) ==> in_class(CharClass::Plain, #[trigger] t[x]),
        joined(fs.subrange(0, raw_prefix(fs) as int)) == t.subrange(0, raw_prefix(fs) as int),
        raw_prefix(fs) < fs.len() ==> fs[raw_prefix(fs) as int][0] == '\\',
        raw_prefix(fs) < fs.len() ==> fs[raw_prefix(fs) as int].len() >= 2,
    decreases fs.len(),
{
    reveal(writes_char);
    if fs.len() > 0 {
        assert(writes_char(fs[0], t[0]));
        if fs[0].len() == 1 && in_class(CharClass::Plain, fs[0][0]) {
            let gs = fs.drop_first();
            let u = t.drop_first();
            assert forall|x: int| 0 <= x < u.len() implies writes_char(#[trigger] gs[x], u[x]) by {
                assert(gs[x] == fs[x + 1] && u[x] == t[x + 1]);
                assert(writes_char(fs[x + 1], t[x + 1]));
            }
            lemma_raw_prefix(gs, u);
            let r = raw_prefix(fs) as int;
            assert(fs[0] == seq![t[0]]);
            assert(in_class(CharClass::Plain, t[0]));
            assert forall|x: int| 0 <= x < r implies in_class(CharClass::Plain, #[trigger] t[x]) by {
                if x > 0 {
                    assert(t[x] == u[x - 1]);
                }
            }
            assert(fs.subrange(0, r).drop_first() =~= gs.subrange(0, r - 1));
            assert(fs[0] == seq![t[0]]);
            assert(seq![t[0]] + u.subrange(0, r - 1) =~= t.subrange(0, r));
            if r < fs.len() {
                assert(fs[r] == gs[r - 1]);
            }
        } else {
            assert(joined(fs.subrange(0, 0)) =~= Seq::<char>::empty());
            assert(t.subrange(0, 0) =~= Seq::<char>::empty());
        }
    } else {
        assert(joined(fs.subrange(0, 0)) =~= Seq::<char>::empty());
        assert(t.subrange(0, 0) =~= Seq::<char>::empty());
    }
}

proof fn lemma_escape_piece(s: Seq<char>, j: int, f: Seq<char>, c: char)
    requires
        writes_char(f, c),
        f[0] == '\\',
        0 <= j,
        j + f.len() <= s.len(),
        forall|x: int| 0 <= x < f.len() ==> #[trigger] s[j + x] == f[x],
    ensures
        fragment_at(s, j) == Some((seq![c], j + f.len())),
{
    reveal(writes_char);
    let len = f.len() as int;
    assert(s[j + 0] == f[0]);
    assert(span(s, j, CharClass::Plain) == j);
    if len == 2 && simple_escape(f[1]) == Some(c) {
        assert(s[j + 1] == f[1]);
        assert(unicode_at(s, j + 1) is None);
        assert(escape_at(s, j + 1) == Some((c, j + 2)));
    } else {
        assert(5 <= len <= 10 && f[1] == 'u' && f[2] == '{' && f.last() == '}');
        let d = len - 4;
        assert(s[j + 1] == f[1]);
        assert(s[j + 2] == f[2]);
        assert(s[j + (len - 1)] == f[len - 1]);
        assert forall|x: int| j + 3 <= x < j + 3 + d implies in_class(
            CharClass::Hex,
            #[trigger] s[x],
        ) by {
            assert(s[j + (x - j)] == f[x - j]);
            assert(is_hex(f[x - j]));
        }
        lemma_span_exact(s, j + 3, j + 3 + d, CharClass::Hex);
        let hs = s.subrange(j + 3, j + 3 + d);
        let hf = f.subrange(3, len - 1);
        assert(hs =~= hf) by {
            assert forall|x: int| 0 <= x < d implies #[trigger] hs[x] == hf[x] by {
                assert(s[j + (3 + x)] == f[3 + x]);
            }
        }
        let v = code_of(c);
        assert(v < 0x110000 && is_scalar(v as u32));
        let c2 = char_of(v);
        assert(code_of(c2) == v);
        assert(unicode_at(s, j + 1) == Some((c, j + len)));
    }
    assert(escape_at(s, j + 1) == Some((c, j + len)));
}

proof fn lemma_body_written(s: Seq<char>, j: int, fs: Seq<Seq<char>>, t: Seq<char>)
    requires
        writes_text(fs, t),
        0 <= j,
        j + joined(fs).len() + 1 <= s.len(),
        s.subrange(j, j + joined(fs).len() + 1) == joined(fs) + seq!['"'],
    ensures
        body_at(s, j) == (t, j + joined(fs).len()),
    decreases fs.len(),
{
    let w = joined(fs) + seq!['"'];
    assert forall|x: int| 0 <= x < w.len() implies #[trigger] s[j + x] == w[x] by {
        assert(s.subrange(j, j + joined(fs).len() + 1)[x] == s[j + x]);
    }
    lemma_raw_prefix(fs, t);
    let r = raw_prefix(fs) as int;
    if fs.len() == 0 {
        assert(s[j] == w[0]);
        assert(span(s, j, CharClass::Plain) == j);
        assert(fragment_at(s, j) is None);
        assert(t =~= Seq::<char>::empty());
    } else if r > 0 {
        let head = fs.subrange(0, r);
        let rest = fs.subrange(r, fs.len() as int);
        let u = t.subrange(r, t.len() as int);
        assert(head + rest =~= fs);
        lemma_joined_concat(head, rest);
        let p = t.subrange(0, r);
        assert(joined(fs) == p + joined(rest));
        assert forall|x: int| j <= x < j + r implies in_class(CharClass::Plain, #[trigger] s[x]) by {
            assert(s[j + (x - j)] == w[x - j]);
            assert(w[x - j] == p[x - j]);
        }
        assert(s[j + r] == w[r]);
        if r < fs.len() {
            assert(rest[0] == fs[r]);
            assert(joined(rest) == rest[0] + joined(rest.drop_first()));
            assert(w[r] == joined(rest)[0]);
            assert(w[r] == '\\');
        } else {
            assert(rest.len() == 0);
            assert(joined(rest) == Seq::<char>::empty());
            assert(w[r] == '"');
        }
        lemma_span_exact(s, j, j + r, CharClass::Plain);
        assert(s.subrange(j, j + r) =~= p) by {
            assert forall|x: int| 0 <= x < r implies s.subrange(j, j + r)[x] == p[x] by {
                assert(s[j + x] == w[x]);
            }
        }
        assert(fragment_at(s, j) == Some((p, j + r)));
        assert forall|x: int| 0 <= x < u.len() implies writes_char(#[trigger] rest[x], u[x]) by {
            assert(rest[x] == fs[x + r] && u[x] == t[x + r]);
            assert(writes_char(fs[x + r], t[x + r]));
        }
        let m = joined(rest).len();
        assert(s.subrange(j + r, j + r + m + 1) =~= joined(rest) + seq!['"']) by {
            assert forall|x: int| 0 <= x < m + 1 implies s.subrange(j + r, j + r + m + 1)[x] == (
            joined(rest) + seq!['"'])[x] by {
                assert(s[j + r + x] == w[x + r]);
            }
        }
        lemma_body_written(s, j + r, rest, u);
        assert(p + u =~= t);
    } else {
        let f = fs[0];
        let c = t[0];
        let len = f.len() as int;
        let gs = fs.drop_first();
        let u = t.drop_first();
        assert(writes_char(f, c));
        assert(joined(fs) == f + joined(gs));
        assert forall|x: int| 0 <= x < len implies #[trigger] s[j + x] == f[x] by {
            assert(s[j + x] == w[x]);
            assert(w[x] == joined(fs)[x]);
        }
        assert(f[0] == '\\');
        lemma_escape_piece(s, j, f, c);
        assert forall|x: int| 0 <= x < u.len() implies writes_char(#[trigger] gs[x], u[x]) by {
            assert(gs[x] == fs[x + 1] && u[x] == t[x + 1]);
            assert(writes_char(fs[x + 1], t[x + 1]));
        }
        let m = joined(gs).len();
        assert(s.subrange(j + len, j + len + m + 1) =~= joined(gs) + seq!['"']) by {
            assert forall|x: int| 0 <= x < m + 1 implies s.subrange(j + len, j + len + m + 1)[x]
                == (joined(gs) + seq!['"'])[x] by {
                assert(s[j + len + x] == w[x + len]);
            }
        }
        lemma_body_written(s, j + len, gs, u);
        assert(seq![c] + u =~= t);
    }
}

/// A literal that writes each character of `t` in any of the ways the
/// grammar reads (itself, a one-letter escape, or a code point escape)
/// decodes to `t`, the whole literal taken.
pub proof fn written_text_reads_back(fs: Seq<Seq<char>>, t: Seq<char>)
    requires
        writes_text(fs, t),
    ensures
        string_at(seq!['"'] + joined(fs) + seq!['"'], 0) == Some((
            t,
            joined(fs).len() + 2int,
        )),
{
    let q = seq!['"'] + joined(fs) + seq!['"'];
    let m = joined(fs).len() as int;
    assert(q.subrange(1, 1 + m + 1) =~= joined(fs) + seq!['"']);
    lemma_body_written(q, 1, fs, t);
    assert(q[0] == '"');
    assert(q[1 + m] == '"');
}

} // verus!
