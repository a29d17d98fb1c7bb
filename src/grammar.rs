use vstd::prelude::*;

use crate::ast::{Expr, Lit, LiteralValue, Term};
use crate::text::{
    append_range, char_at, chars_of, class_has, from_code, has_char, in_class, is_digit, is_hex,
    is_scalar, lemma_span, push_char, scan, span, text_of, CharClass,
};

verus! {

// ---------------------------------------------------------------------------
// The grammar, as functions from a text and a position to what is recognised
// there and the position after it.
// ---------------------------------------------------------------------------

/// The largest value of an integer literal.
pub const INT_MAX: i32 = 2147483647;

pub open spec fn digit_value(c: char) -> int {
    c as int - '0' as int
}

/// The value of a run of decimal digits.
pub open spec fn decimal(t: Seq<char>) -> int
    decreases t.len(),
{
    if t.len() == 0 {
        0
    } else {
        decimal(t.drop_last()) * 10 + digit_value(t.last())
    }
}

pub open spec fn hex_digit_value(c: char) -> int {
    if is_digit(c) {
        c as int - '0' as int
    } else if 'a' <= c && c <= 'f' {
        c as int - 'a' as int + 10
    } else {
        c as int - 'A' as int + 10
    }
}

/// The value of a run of hexadecimal digits.
pub open spec fn hexadecimal(t: Seq<char>) -> int
    decreases t.len(),
{
    if t.len() == 0 {
        0
    } else {
        hexadecimal(t.drop_last()) * 16 + hex_digit_value(t.last())
    }
}

/// Whether `w` stands in `s` from position `i` on.
pub open spec fn word_at(s: Seq<char>, i: int, w: Seq<char>) -> bool {
    0 <= i && i + w.len() <= s.len() && s.subrange(i, i + w.len()) == w
}

/// `true` or `false`.
pub open spec fn boolean_at(s: Seq<char>, i: int) -> Option<(bool, int)> {
    if word_at(s, i, seq!['t', 'r', 'u', 'e']) {
        Some((true, i + 4))
    } else if word_at(s, i, seq!['f', 'a', 'l', 's', 'e']) {
        Some((false, i + 5))
    } else {
        None
    }
}

/// One or more decimal digits whose value fits a 32-bit signed integer.
pub open spec fn integer_at(s: Seq<char>, i: int) -> Option<(int, int)> {
    let e = span(s, i, CharClass::Digit);
    if 0 <= i < e && decimal(s.subrange(i, e)) <= INT_MAX {
        Some((decimal(s.subrange(i, e)), e))
    } else {
        None
    }
}

/// The longest run of letters, digits and `_` from `i`, not starting with a digit.
pub open spec fn identifier_at(s: Seq<char>, i: int) -> Option<(Seq<char>, int)> {
    let e = span(s, i, CharClass::NameChar);
    if 0 <= i < e && !is_digit(s[i]) {
        Some((s.subrange(i, e), e))
    } else {
        None
    }
}

/// The number of hex digits that a code point escape takes from `j`: at most six.
pub open spec fn hex_run(s: Seq<char>, j: int) -> int {
    let n = span(s, j, CharClass::Hex) - j;
    if n > 6 {
        6
    } else {
        n
    }
}

/// The code of `c`.
pub open spec fn code_of(c: char) -> int {
    c as int
}

/// The character whose code is `v`.
pub open spec fn char_of(v: int) -> char {
    choose|c: char| #[trigger] code_of(c) == v
}

/// `u{H..H}` from `j`, with one to six hex digits naming a scalar value.
pub open spec fn unicode_at(s: Seq<char>, j: int) -> Option<(char, int)> {
    let n = hex_run(s, j + 2);
    let v = hexadecimal(s.subrange(j + 2, j + 2 + n));
    if char_at(s, j, 'u') && char_at(s, j + 1, '{') && n >= 1 && char_at(s, j + 2 + n, '}')
        && v < 0x110000 && is_scalar(v as u32) {
        Some((char_of(v), j + 3 + n))
    } else {
        None
    }
}

/// `u{H..H}` from `j`, well formed, but naming no Unicode scalar value.
pub open spec fn bad_code_point_at(s: Seq<char>, j: int) -> bool {
    let n = hex_run(s, j + 2);
    let v = hexadecimal(s.subrange(j + 2, j + 2 + n));
    char_at(s, j, 'u') && char_at(s, j + 1, '{') && n >= 1 && char_at(s, j + 2 + n, '}') && !(v
        < 0x110000 && is_scalar(v as u32))
}

/// The character that a one-letter escape stands for.
pub open spec fn simple_escape(c: char) -> Option<char> {
    if c == 'n' {
        Some('\n')
    } else if c == 'r' {
        Some('\r')
    } else if c == 't' {
        Some('\t')
    } else if c == 'b' {
        Some('\u{08}')
    } else if c == 'f' {
        Some('\u{0C}')
    } else if c == '\\' {
        Some('\\')
    } else if c == '/' {
        Some('/')
    } else if c == '"' {
        Some('"')
    } else {
        None
    }
}

/// What follows a backslash at `j`: a code point escape or a one-letter escape.
pub open spec fn escape_at(s: Seq<char>, j: int) -> Option<(char, int)> {
    if unicode_at(s, j) is Some {
        unicode_at(s, j)
    } else if 0 <= j < s.len() && simple_escape(s[j]) is Some {
        Some((simple_escape(s[j])->0, j + 1))
    } else {
        None
    }
}

/// One piece of a string body: a plain run, an escape, or a backslash
/// followed by whitespace, which stands for nothing.
pub open spec fn fragment_at(s: Seq<char>, j: int) -> Option<(Seq<char>, int)> {
    let e = span(s, j, CharClass::Plain);
    if 0 <= j < e {
        Some((s.subrange(j, e), e))
    } else if char_at(s, j, '\\') {
        if escape_at(s, j + 1) is Some {
            Some((seq![escape_at(s, j + 1).unwrap().0], escape_at(s, j + 1).unwrap().1))
        } else if span(s, j + 1, CharClass::Whitespace) > j + 1 {
            Some((Seq::empty(), span(s, j + 1, CharClass::Whitespace)))
        } else {
            None
        }
    } else {
        None
    }
}

/// The decoded text of the fragments from `j` on, and where they stop.
pub open spec fn body_at(s: Seq<char>, j: int) -> (Seq<char>, int)
    decreases s.len() - j,
{
    match fragment_at(s, j) {
        Some((p, k)) => if j < k <= s.len() {
            (p + body_at(s, k).0, body_at(s, k).1)
        } else {
            (Seq::empty(), j)
        },
        None => (Seq::empty(), j),
    }
}

/// A string literal between double quotes, decoded.
pub open spec fn string_at(s: Seq<char>, i: int) -> Option<(Seq<char>, int)> {
    if char_at(s, i, '"') && char_at(s, body_at(s, i + 1).1, '"') {
        Some((body_at(s, i + 1).0, body_at(s, i + 1).1 + 1))
    } else {
        None
    }
}

/// An integer, a string or a boolean, tried in that order.
pub open spec fn literal_at(s: Seq<char>, i: int) -> Option<(Lit, int)> {
    if integer_at(s, i) is Some {
        Some((Lit::Integer(integer_at(s, i).unwrap().0), integer_at(s, i).unwrap().1))
    } else if string_at(s, i) is Some {
        Some((Lit::Text(string_at(s, i).unwrap().0), string_at(s, i).unwrap().1))
    } else if boolean_at(s, i) is Some {
        Some((Lit::Boolean(boolean_at(s, i).unwrap().0), boolean_at(s, i).unwrap().1))
    } else {
        None
    }
}

/// A literal or else a name.
pub open spec fn terminal_at(s: Seq<char>, i: int) -> Option<(Term, int)> {
    if literal_at(s, i) is Some {
        Some((Term::Literal(literal_at(s, i).unwrap().0), literal_at(s, i).unwrap().1))
    } else if identifier_at(s, i) is Some {
        Some((Term::Identifier(identifier_at(s, i).unwrap().0), identifier_at(s, i).unwrap().1))
    } else {
        None
    }
}

/// Whether `a <= b` are positions of `s`, the end included.
pub open spec fn within(s: Seq<char>, a: int, b: int) -> bool {
    0 <= a <= b <= s.len()
}

/// An expression between parentheses, or else a terminal.
pub open spec fn group_at(s: Seq<char>, i: int) -> Option<(Term, int)>
    decreases s.len() - i, 1int,
{
    if char_at(s, i, '(') && expr_at(s, i + 1) is Some && char_at(
        s,
        expr_at(s, i + 1).unwrap().1,
        ')',
    ) {
        Some((expr_at(s, i + 1).unwrap().0, expr_at(s, i + 1).unwrap().1 + 1))
    } else {
        terminal_at(s, i)
    }
}

/// Applies `acc`, which ends at `k`, to each further group that blanks
/// separate from it, left to right.
pub open spec fn apply_from(s: Seq<char>, acc: Term, k: int) -> (Term, int)
    decreases s.len() - k, 0int,
{
    let k2 = span(s, k, CharClass::Blank);
    if within(s, k, k2) && k < k2 && group_at(s, k2) is Some {
        let (a, m) = group_at(s, k2)->0;
        if within(s, k2, m) && k2 < m {
            apply_from(s, Term::Application(Box::new(acc), Box::new(a)), m)
        } else {
            (acc, k)
        }
    } else {
        (acc, k)
    }
}

/// A group applied to the groups that follow it, or the group alone.
pub open spec fn application_at(s: Seq<char>, i: int) -> Option<(Term, int)>
    decreases s.len() - i, 2int,
{
    match group_at(s, i) {
        Some((h, k)) => if within(s, i, k) && i < k {
            Some(apply_from(s, h, k))
        } else {
            None
        },
        None => None,
    }
}

/// `name = application` with blanks on both sides of `=`, or else an application.
pub open spec fn assignment_at(s: Seq<char>, i: int) -> Option<(Term, int)>
    decreases s.len() - i, 3int,
{
    if identifier_at(s, i) is Some {
        let (name, k) = identifier_at(s, i)->0;
        let k2 = span(s, k, CharClass::Blank);
        let k3 = span(s, k2 + 1, CharClass::Blank);
        if k < k2 && char_at(s, k2, '=') && k2 + 1 < k3 && within(s, i, k3) && application_at(
            s,
            k3,
        ) is Some {
            let (v, m) = application_at(s, k3)->0;
            Some((Term::Assignment(name, Box::new(v)), m))
        } else {
            application_at(s, i)
        }
    } else {
        application_at(s, i)
    }
}

/// An assignment or application with blanks trimmed on both sides.
pub open spec fn expr_at(s: Seq<char>, i: int) -> Option<(Term, int)>
    decreases s.len() - i, 4int,
{
    let k = span(s, i, CharClass::Blank);
    if within(s, i, k) && assignment_at(s, k) is Some {
        let (t, m) = assignment_at(s, k)->0;
        Some((t, span(s, m, CharClass::Blank)))
    } else {
        None
    }
}

/// The end of the run of line endings (`\n` or `\r\n`) from `k`.
pub open spec fn line_ends(s: Seq<char>, k: int) -> int
    decreases s.len() - k,
{
    if char_at(s, k, '\n') {
        line_ends(s, k + 1)
    } else if char_at(s, k, '\r') && char_at(s, k + 1, '\n') {
        line_ends(s, k + 2)
    } else {
        k
    }
}

/// The statements after a statement that ends at `k`, each one after a run
/// of line endings, and where the last of them ends.
pub open spec fn statements_from(s: Seq<char>, k: int) -> (Seq<Term>, int)
    decreases s.len() - k,
{
    let k2 = line_ends(s, k);
    if k < k2 && expr_at(s, k2) is Some {
        let (t, m) = expr_at(s, k2)->0;
        if within(s, k, m) && k2 < m {
            (seq![t] + statements_from(s, m).0, statements_from(s, m).1)
        } else {
            (Seq::empty(), k)
        }
    } else {
        (Seq::empty(), k)
    }
}

/// A whole program: statements separated by line endings, optionally
/// followed by line endings, up to the end of the text.
pub open spec fn program_of(s: Seq<char>) -> Option<Term> {
    if expr_at(s, 0) is Some {
        let (t, k) = expr_at(s, 0)->0;
        let (ts, e) = statements_from(s, k);
        if line_ends(s, e) == s.len() {
            Some(Term::Block(seq![t] + ts))
        } else {
            None
        }
    } else {
        None
    }
}

} // verus!

verus! {

// ---------------------------------------------------------------------------
// Errors
// ---------------------------------------------------------------------------

/// The named rules of the grammar, as they show in an error's context.
#[derive(Clone, Copy, PartialEq, Eq, Structural, Debug)]
pub enum Rule {
    Terminals,
    ParenthesizedExpr,
    FunctionApplication,
    AssignmentExpr,
    Expr,
    EndOfStatement,
    Program,
}

impl Rule {
    /// The rule's name for people.
    pub fn name(&self) -> (r: &'static str)
        ensures
            r@ == match *self {
                Rule::Terminals => "terminals"@,
                Rule::ParenthesizedExpr => "parenthesized expr"@,
                Rule::FunctionApplication => "function application"@,
                Rule::AssignmentExpr => "assignment expr"@,
                Rule::Expr => "expr"@,
                Rule::EndOfStatement => "end of statement"@,
                Rule::Program => "program"@,
            },
    {
        match self {
            Rule::Terminals => "terminals",
            Rule::ParenthesizedExpr => "parenthesized expr",
            Rule::FunctionApplication => "function application",
            Rule::AssignmentExpr => "assignment expr",
            Rule::Expr => "expr",
            Rule::EndOfStatement => "end of statement",
            Rule::Program => "program",
        }
    }
}

/// What was wanted where a parse failed.
#[derive(Clone, Copy, PartialEq, Eq, Structural, Debug)]
pub enum ErrorKind {
    /// This character.
    Expected(char),
    /// One or more decimal digits.
    Digits,
    /// A name.
    Name,
    /// `true` or `false`.
    Boolean,
    /// An escape after a backslash.
    Escape,
    /// One or more blanks.
    Blank,
    /// A line ending, or the end of the text.
    End,
    /// A run of digits too large for a 32-bit signed integer.
    MalformedInteger,
    /// A code point escape that names no Unicode scalar value.
    InvalidCodePoint,
}

/// A failed parse: the innermost failure, and the rules that were being
/// parsed around it, innermost first, each with the position it started at.
/// Positions count characters from the start of the text.
#[derive(Debug)]
pub struct ParseError {
    pub position: usize,
    pub kind: ErrorKind,
    pub context: Vec<(Rule, usize)>,
}

pub fn fail(position: usize, kind: ErrorKind) -> (r: ParseError)
    ensures
        r.position == position,
        r.kind == kind,
        r.context@.len() == 0,
{
    ParseError { position, kind, context: Vec::new() }
}

/// `e` with one more enclosing rule.
pub fn within_rule(e: ParseError, rule: Rule, at: usize) -> (r: ParseError)
    ensures
        r.position == e.position,
        r.kind == e.kind,
        r.context@ == e.context@.push((rule, at)),
{
    let mut e = e;
    e.context.push((rule, at));
    e
}

/// Whether an executable result agrees with what the grammar gives.
pub open spec fn agrees<T, V>(r: Result<(T, usize), ParseError>, m: Option<(V, int)>, f: spec_fn(T) -> V) -> bool {
    match r {
        Ok((v, k)) => m == Some((f(v), k as int)),
        Err(_) => m is None,
    }
}

/// Whether a successful result ends after `i` and within `s`.
pub open spec fn advances<T>(r: Result<(T, usize), ParseError>, i: int, n: int) -> bool {
    match r {
        Ok((_, k)) => i < k <= n,
        Err(_) => true,
    }
}

// ---------------------------------------------------------------------------
// Literals and names
// ---------------------------------------------------------------------------

pub fn boolean_from(s: &Vec<char>, i: usize) -> (r: Result<(bool, usize), ParseError>)
    requires
        i <= s.len(),
    ensures
        agrees(r, boolean_at(s@, i as int), |b: bool| b),
        advances(r, i as int, s.len() as int),
{
    if s.len() >= 4 && i <= s.len() - 4 && s[i] == 't' && s[i + 1] == 'r' && s[i + 2] == 'u' && s[i + 3] == 'e' {
        assert(s@.subrange(i as int, i + 4) =~= seq!['t', 'r', 'u', 'e']);
        return Ok((true, i + 4));
    }
    if s.len() >= 5 && i <= s.len() - 5 && s[i] == 'f' && s[i + 1] == 'a' && s[i + 2] == 'l' && s[i + 3] == 's'
        && s[i + 4] == 'e' {
        assert(s@.subrange(i as int, i + 5) =~= seq!['f', 'a', 'l', 's', 'e']);
        return Ok((false, i + 5));
    }
    proof {
        if word_at(s@, i as int, seq!['t', 'r', 'u', 'e']) {
            assert(s@.subrange(i as int, i + 4)[0] == 't');
            assert(s@.subrange(i as int, i + 4)[1] == 'r');
            assert(s@.subrange(i as int, i + 4)[2] == 'u');
            assert(s@.subrange(i as int, i + 4)[3] == 'e');
        }
        if word_at(s@, i as int, seq!['f', 'a', 'l', 's', 'e']) {
            assert(s@.subrange(i as int, i + 5)[0] == 'f');
            assert(s@.subrange(i as int, i + 5)[1] == 'a');
            assert(s@.subrange(i as int, i + 5)[2] == 'l');
            assert(s@.subrange(i as int, i + 5)[3] == 's');
            assert(s@.subrange(i as int, i + 5)[4] == 'e');
        }
    }
    Err(fail(i, ErrorKind::Boolean))
}

/// A run of digits has a value no smaller than that of any of its prefixes.
pub proof fn lemma_decimal_prefix(t: Seq<char>, n: int)
    requires
        0 <= n <= t.len(),
        forall|j: int| 0 <= j < t.len() ==> is_digit(#[trigger] t[j]),
    ensures
        0 <= decimal(t.subrange(0, n)) <= decimal(t),
    decreases t.len(),
{
    if n < t.len() {
        let u = t.drop_last();
        assert(forall|j: int| 0 <= j < u.len() ==> u[j] == t[j]);
        lemma_decimal_prefix(u, n);
        assert(u.subrange(0, n) =~= t.subrange(0, n));
    } else {
        assert(t.subrange(0, n) =~= t);
        if t.len() > 0 {
            let u = t.drop_last();
            assert(forall|j: int| 0 <= j < u.len() ==> u[j] == t[j]);
            lemma_decimal_prefix(u, u.len() as int);
            assert(u.subrange(0, u.len() as int) =~= u);
        }
    }
}

pub fn integer_from(s: &Vec<char>, i: usize) -> (r: Result<(i32, usize), ParseError>)
    requires
        i <= s.len(),
    ensures
        agrees(r, integer_at(s@, i as int), |v: i32| v as int),
        advances(r, i as int, s.len() as int),
        r is Err && span(s@, i as int, CharClass::Digit) > i ==> r->Err_0.kind
            == ErrorKind::MalformedInteger,
        r is Err && span(s@, i as int, CharClass::Digit) == i ==> r->Err_0.kind
            == ErrorKind::Digits,
{
    let e = scan(s, i, CharClass::Digit);
    proof { lemma_span(s@, i as int, CharClass::Digit); }
    if e == i {
        return Err(fail(i, ErrorKind::Digits));
    }
    let ghost t = s@.subrange(i as int, e as int);
    let mut v: u64 = 0;
    let mut j: usize = i;
    while j < e
        invariant
            i <= j <= e <= s.len(),
            i < e,
            e == span(s@, i as int, CharClass::Digit),
            t == s@.subrange(i as int, e as int),
            forall|x: int| i <= x < e ==> is_digit(#[trigger] s@[x]),
            v == decimal(s@.subrange(i as int, j as int)),
            v <= INT_MAX,
        decreases e - j,
    {
        let c = s[j];
        let d: u64 = (c as u32 - '0' as u32) as u64;
        let w = v * 10 + d;
        proof {
            let u = s@.subrange(i as int, j + 1);
            assert(u.drop_last() =~= s@.subrange(i as int, j as int));
            assert(u.last() == c);
        }
        if w > INT_MAX as u64 {
            proof {
                assert forall|x: int| 0 <= x < t.len() implies is_digit(#[trigger] t[x]) by {
                    assert(t[x] == s@[i + x]);
                }
                lemma_decimal_prefix(t, j + 1 - i);
                assert(t.subrange(0, j + 1 - i) =~= s@.subrange(i as int, j + 1));
            }
            return Err(fail(i, ErrorKind::MalformedInteger));
        }
        v = w;
        j = j + 1;
    }
    Ok((v as i32, e))
}

pub fn identifier_from(s: &Vec<char>, i: usize) -> (r: Result<(String, usize), ParseError>)
    requires
        i <= s.len(),
    ensures
        agrees(r, identifier_at(s@, i as int), |t: String| t@),
        advances(r, i as int, s.len() as int),
{
    if i < s.len() && class_has(CharClass::Digit, s[i]) {
        return Err(fail(i, ErrorKind::Name));
    }
    let e = scan(s, i, CharClass::NameChar);
    if e == i {
        return Err(fail(i, ErrorKind::Name));
    }
    Ok((text_of(s, i, e), e))
}

} // verus!

verus! {

// ---------------------------------------------------------------------------
// String literals
// ---------------------------------------------------------------------------

pub open spec fn pow16(n: nat) -> int
    decreases n,
{
    if n == 0 {
        1
    } else {
        16 * pow16((n - 1) as nat)
    }
}

proof fn lemma_pow16_small(n: nat)
    requires
        n <= 5,
    ensures
        1 <= pow16(n) <= 1048576,
{
    reveal_with_fuel(pow16, 6);
}

fn hex_digit(c: char) -> (r: u32)
    requires
        is_hex(c),
    ensures
        r == hex_digit_value(c),
        r < 16,
{
    if '0' <= c && c <= '9' {
        c as u32 - '0' as u32
    } else if 'a' <= c && c <= 'f' {
        c as u32 - 'a' as u32 + 10
    } else {
        c as u32 - 'A' as u32 + 10
    }
}

/// `u{H..H}` from `j`.
fn unicode_from(s: &Vec<char>, j: usize) -> (r: Result<(char, usize), ParseError>)
    requires
        j <= s.len(),
    ensures
        agrees(r, unicode_at(s@, j as int), |c: char| c),
        advances(r, j as int, s.len() as int),
        bad_code_point_at(s@, j as int) ==> r is Err && r->Err_0.kind == ErrorKind::InvalidCodePoint,
{
    if !(has_char(s, j, 'u') && has_char(s, j + 1, '{')) {
        return Err(fail(j, ErrorKind::Escape));
    }
    let h = j + 2;
    let run = scan(s, h, CharClass::Hex);
    proof { lemma_span(s@, h as int, CharClass::Hex); }
    let n: usize = if run - h > 6 { 6 } else { run - h };
    if n == 0 || !has_char(s, h + n, '}') {
        return Err(fail(j, ErrorKind::Escape));
    }
    let mut v: u32 = 0;
    let mut t: usize = h;
    while t < h + n
        invariant
            h <= t <= h + n <= run <= s.len(),
            n <= 6,
            forall|x: int| h <= x < run ==> in_class(CharClass::Hex, #[trigger] s@[x]),
            v == hexadecimal(s@.subrange(h as int, t as int)),
            v < pow16((t - h) as nat),
        decreases h + n - t,
    {
        let d = hex_digit(s[t]);
        proof {
            lemma_pow16_small((t - h) as nat);
            let u = s@.subrange(h as int, t + 1);
            assert(u.drop_last() =~= s@.subrange(h as int, t as int));
            let p = pow16((t - h) as nat);
            assert(v * 16 + d < 16 * p) by (nonlinear_arith)
                requires
                    v < p,
                    d < 16,
            ;
            assert(pow16((t + 1 - h) as nat) == 16 * p);
        }
        v = v * 16 + d;
        t = t + 1;
    }
    if v >= 0x110000 {
        return Err(fail(j, ErrorKind::InvalidCodePoint));
    }
    match from_code(v) {
        Some(c) => {
            proof {
                assert(code_of(c) == v as int);
                let w = char_of(v as int);
                assert(code_of(w) == v as int);
            }
            Ok((c, h + n + 1))
        },
        None => Err(fail(j, ErrorKind::InvalidCodePoint)),
    }
}

fn simple_escape_of(c: char) -> (r: Option<char>)
    ensures
        r == simple_escape(c),
{
    if c == 'n' {
        Some('\n')
    } else if c == 'r' {
        Some('\r')
    } else if c == 't' {
        Some('\t')
    } else if c == 'b' {
        Some('\u{08}')
    } else if c == 'f' {
        Some('\u{0C}')
    } else if c == '\\' {
        Some('\\')
    } else if c == '/' {
        Some('/')
    } else if c == '"' {
        Some('"')
    } else {
        None
    }
}

/// What follows a backslash at `j`.
fn escape_from(s: &Vec<char>, j: usize) -> (r: Result<(char, usize), ParseError>)
    requires
        j <= s.len(),
    ensures
        agrees(r, escape_at(s@, j as int), |c: char| c),
        advances(r, j as int, s.len() as int),
        bad_code_point_at(s@, j as int) ==> r is Err && r->Err_0.kind == ErrorKind::InvalidCodePoint,
{
    let u = unicode_from(s, j);
    if u.is_ok() {
        return u;
    }
    if j < s.len() {
        match simple_escape_of(s[j]) {
            Some(c) => {
                return Ok((c, j + 1));
            },
            None => {},
        }
    }
    u
}

/// Whether the string body from `i` stops at a code point escape that names
/// no scalar value.
pub open spec fn bad_escape_ends(s: Seq<char>, i: int) -> bool {
    char_at(s, i, '"') && char_at(s, body_at(s, i + 1).1, '\\') && bad_code_point_at(
        s,
        body_at(s, i + 1).1 + 1,
    )
}

/// Decodes the string literal that starts at `i`.
pub fn string_from(s: &Vec<char>, i: usize) -> (r: Result<(String, usize), ParseError>)
    requires
        i <= s.len(),
    ensures
        agrees(r, string_at(s@, i as int), |t: String| t@),
        advances(r, i as int, s.len() as int),
        bad_escape_ends(s@, i as int) ==> r is Err && r->Err_0.kind == ErrorKind::InvalidCodePoint,
{
    if !has_char(s, i, '"') {
        return Err(fail(i, ErrorKind::Expected('"')));
    }
    let mut acc = String::new();
    let mut j: usize = i + 1;
    let mut stop: Option<ParseError> = None;
    while j < s.len()
        invariant
            i + 1 <= j <= s.len(),
            body_at(s@, i + 1) == (acc@ + body_at(s@, j as int).0, body_at(s@, j as int).1),
        ensures
            i + 1 <= j <= s.len(),
            body_at(s@, i + 1) == (acc@ + body_at(s@, j as int).0, body_at(s@, j as int).1),
            body_at(s@, j as int) == (Seq::<char>::empty(), j as int),
            char_at(s@, j as int, '\\') && bad_code_point_at(s@, j + 1) ==> stop is Some
                && stop->0.kind == ErrorKind::InvalidCodePoint,
        decreases s.len() - j,
    {
        let e = scan(s, j, CharClass::Plain);
        if e > j {
            let ghost before = acc@;
            append_range(&mut acc, s, j, e);
            proof {
                assert(fragment_at(s@, j as int) == Some((s@.subrange(j as int, e as int), e as int)));
                assert(acc@ + body_at(s@, e as int).0 =~= before + (s@.subrange(j as int, e as int) + body_at(s@, e as int).0));
            }
            j = e;
        } else if s[j] == '\\' {
            match escape_from(s, j + 1) {
                Ok((c, k)) => {
                    let ghost before = acc@;
                    push_char(&mut acc, c);
                    proof {
                        assert(acc@ + body_at(s@, k as int).0 =~= before + (seq![c] + body_at(s@, k as int).0));
                    }
                    j = k;
                },
                Err(err) => {
                    let w = scan(s, j + 1, CharClass::Whitespace);
                    if w > j + 1 {
                        proof {
                            assert(acc@ + body_at(s@, w as int).0 =~= acc@ + (Seq::<char>::empty() + body_at(s@, w as int).0));
                        }
                        j = w;
                    } else {
                        proof {
                            assert(acc@ =~= acc@ + Seq::<char>::empty());
                        }
                        stop = Some(err);
                        break;
                    }
                },
            }
        } else {
            proof {
                assert(acc@ =~= acc@ + Seq::<char>::empty());
            }
            break;
        }
    }
    assert(acc@ =~= acc@ + Seq::<char>::empty());
    if has_char(s, j, '"') {
        Ok((acc, j + 1))
    } else {
        match stop {
            Some(err) => Err(err),
            None => Err(fail(j, ErrorKind::Expected('"'))),
        }
    }
}

} // verus!

verus! {

// ---------------------------------------------------------------------------
// Expressions
// ---------------------------------------------------------------------------

fn literal_from(s: &Vec<char>, i: usize) -> (r: Result<(LiteralValue, usize), ParseError>)
    requires
        i <= s.len(),
    ensures
        agrees(r, literal_at(s@, i as int), |l: LiteralValue| l@),
        advances(r, i as int, s.len() as int),
{
    match integer_from(s, i) {
        Ok((v, k)) => {
            return Ok((LiteralValue::Integer(v), k));
        },
        Err(_) => {},
    }
    match string_from(s, i) {
        Ok((t, k)) => {
            return Ok((LiteralValue::String(t), k));
        },
        Err(_) => {},
    }
    match boolean_from(s, i) {
        Ok((b, k)) => Ok((LiteralValue::Boolean(b), k)),
        Err(e) => Err(e),
    }
}

fn terminal_from(s: &Vec<char>, i: usize) -> (r: Result<(Expr, usize), ParseError>)
    requires
        i <= s.len(),
    ensures
        agrees(r, terminal_at(s@, i as int), |e: Expr| e@),
        advances(r, i as int, s.len() as int),
        r is Err ==> r->Err_0.context@.len() > 0 && r->Err_0.context@.last() == (
            Rule::Terminals,
            i,
        ),
{
    match literal_from(s, i) {
        Ok((l, k)) => {
            return Ok((Expr::Literal(l), k));
        },
        Err(_) => {},
    }
    match identifier_from(s, i) {
        Ok((n, k)) => Ok((Expr::Identifier(n), k)),
        Err(e) => Err(within_rule(e, Rule::Terminals, i)),
    }
}

fn group_from(s: &Vec<char>, i: usize) -> (r: Result<(Expr, usize), ParseError>)
    requires
        i <= s.len(),
    ensures
        agrees(r, group_at(s@, i as int), |e: Expr| e@),
        advances(r, i as int, s.len() as int),
        r is Err ==> r->Err_0.context@.len() > 0 && r->Err_0.context@.last() == (
            Rule::ParenthesizedExpr,
            i,
        ),
    decreases s.len() - i, 1int,
{
    if has_char(s, i, '(') {
        match expr_from(s, i + 1) {
            Ok((e, k)) => {
                if has_char(s, k, ')') {
                    return Ok((e, k + 1));
                }
            },
            Err(_) => {},
        }
    }
    match terminal_from(s, i) {
        Ok(found) => Ok(found),
        Err(e) => Err(within_rule(e, Rule::ParenthesizedExpr, i)),
    }
}

fn application_from(s: &Vec<char>, i: usize) -> (r: Result<(Expr, usize), ParseError>)
    requires
        i <= s.len(),
    ensures
        agrees(r, application_at(s@, i as int), |e: Expr| e@),
        advances(r, i as int, s.len() as int),
    decreases s.len() - i, 2int,
{
    let (head, k0) = match group_from(s, i) {
        Ok(found) => found,
        Err(e) => {
            return Err(e);
        },
    };
    let ghost h = head@;
    let mut acc = head;
    let mut k = k0;
    loop
        invariant
            i < k0 <= k <= s.len(),
            apply_from(s@, h, k0 as int) == apply_from(s@, acc@, k as int),
        ensures
            i < k <= s.len(),
            apply_from(s@, h, k0 as int) == (acc@, k as int),
        decreases s.len() - k,
    {
        let k2 = scan(s, k, CharClass::Blank);
        if k2 == k {
            break;
        }
        match group_from(s, k2) {
            Ok((a, m)) => {
                let ghost before = acc@;
                acc = Expr::FunctionApplication(Box::new(acc), Box::new(a));
                assert(acc@ == Term::Application(Box::new(before), Box::new(a@)));
                k = m;
            },
            Err(_) => {
                break;
            },
        }
    }
    Ok((acc, k))
}

fn assignment_from(s: &Vec<char>, i: usize) -> (r: Result<(Expr, usize), ParseError>)
    requires
        i <= s.len(),
    ensures
        agrees(r, assignment_at(s@, i as int), |e: Expr| e@),
        advances(r, i as int, s.len() as int),
    decreases s.len() - i, 3int,
{
    match identifier_from(s, i) {
        Ok((name, k)) => {
            let k2 = scan(s, k, CharClass::Blank);
            if k2 > k && has_char(s, k2, '=') {
                let k3 = scan(s, k2 + 1, CharClass::Blank);
                if k3 > k2 + 1 {
                    match application_from(s, k3) {
                        Ok((v, m)) => {
                            return Ok((Expr::AssignmentExpr(name, Box::new(v)), m));
                        },
                        Err(_) => {},
                    }
                }
            }
        },
        Err(_) => {},
    }
    application_from(s, i)
}

/// An expression from `i`, blanks around it included.
pub fn expr_from(s: &Vec<char>, i: usize) -> (r: Result<(Expr, usize), ParseError>)
    requires
        i <= s.len(),
    ensures
        agrees(r, expr_at(s@, i as int), |e: Expr| e@),
        advances(r, i as int, s.len() as int),
        r is Err ==> r->Err_0.context@.len() > 0 && r->Err_0.context@.last() == (Rule::Expr, i),
    decreases s.len() - i, 4int,
{
    let k = scan(s, i, CharClass::Blank);
    match assignment_from(s, k) {
        Ok((t, m)) => {
            let e = scan(s, m, CharClass::Blank);
            Ok((t, e))
        },
        Err(e) => Err(within_rule(e, Rule::Expr, i)),
    }
}

} // verus!

verus! {

// ---------------------------------------------------------------------------
// Programs
// ---------------------------------------------------------------------------

proof fn lemma_terms_push(es: Seq<Expr>, e: Expr)
    ensures
        crate::ast::terms_of(es.push(e)) == crate::ast::terms_of(es).push(e@),
    decreases es.len(),
{
    let p = es.push(e);
    assert(p[0] == if es.len() == 0 { e } else { es[0] });
    if es.len() == 0 {
        assert(p.subrange(1, 1) =~= Seq::<Expr>::empty());
        assert(crate::ast::terms_of(p.subrange(1, 1)) == Seq::<Term>::empty());
        assert(crate::ast::terms_of(p) =~= seq![e@]);
        assert(crate::ast::terms_of(es) == Seq::<Term>::empty());
        assert(crate::ast::terms_of(es).push(e@) =~= seq![e@]);
    } else {
        let rest = es.subrange(1, es.len() as int);
        assert(p.subrange(1, es.len() as int + 1) =~= rest.push(e));
        lemma_terms_push(rest, e);
        assert(crate::ast::terms_of(p) == seq![es[0]@] + crate::ast::terms_of(rest.push(e)));
        assert(crate::ast::terms_of(es) == seq![es[0]@] + crate::ast::terms_of(rest));
        assert(crate::ast::terms_of(p) =~= crate::ast::terms_of(es).push(e@));
    }
}

/// Skips the run of line endings from `k`.
fn skip_line_ends(s: &Vec<char>, k: usize) -> (r: usize)
    requires
        k <= s.len(),
    ensures
        r == line_ends(s@, k as int),
        k <= r <= s.len(),
{
    let mut j: usize = k;
    loop
        invariant
            k <= j <= s.len(),
            line_ends(s@, k as int) == line_ends(s@, j as int),
        ensures
            k <= j <= s.len(),
            line_ends(s@, k as int) == j,
        decreases s.len() - j,
    {
        if has_char(s, j, '\n') {
            j = j + 1;
        } else if has_char(s, j, '\r') && has_char(s, j + 1, '\n') {
            j = j + 2;
        } else {
            break;
        }
    }
    j
}

/// Where the statements of a program end, when its first statement parses.
pub open spec fn statements_end(s: Seq<char>) -> int {
    statements_from(s, expr_at(s, 0).unwrap().1).1
}

/// Whether every statement parses and stray text follows on the last line.
pub open spec fn stray_after_statements(s: Seq<char>) -> bool {
    expr_at(s, 0) is Some && line_ends(s, statements_end(s)) == statements_end(s)
        && statements_end(s) < s.len()
}

/// Parses a whole program into a block of its statements.
pub fn program_from(s: &Vec<char>) -> (r: Result<Expr, ParseError>)
    ensures
        match r {
            Ok(e) => program_of(s@) == Some(e@),
            Err(_) => program_of(s@) is None,
        },
        r is Err ==> r->Err_0.context@.len() > 0 && r->Err_0.context@.last() == (Rule::Program, 0usize),
        stray_after_statements(s@) ==> r is Err && r->Err_0.kind == ErrorKind::End
            && r->Err_0.position == statements_end(s@),
{
    let (first, k0) = match expr_from(s, 0) {
        Ok(found) => found,
        Err(e) => {
            return Err(within_rule(e, Rule::Program, 0));
        },
    };
    let ghost t0 = first@;
    let mut items: Vec<Expr> = Vec::new();
    items.push(first);
    proof {
        lemma_terms_push(Seq::<Expr>::empty(), first);
        assert(Seq::<Expr>::empty().push(first) =~= items@);
    }
    let ghost mut done: Seq<Term> = Seq::empty();
    let mut k = k0;
    let mut stop: Option<ParseError> = None;
    loop
        invariant_except_break
            stop is None,
        invariant
            0 < k0 <= k <= s.len(),
            crate::ast::terms_of(items@) == seq![t0] + done,
            statements_from(s@, k0 as int) == (
                done + statements_from(s@, k as int).0,
                statements_from(s@, k as int).1,
            ),
        ensures
            k <= s.len(),
            crate::ast::terms_of(items@) == seq![t0] + done,
            statements_from(s@, k0 as int) == (done, k as int),
            line_ends(s@, k as int) == k ==> stop is None,
        decreases s.len() - k,
    {
        let k2 = skip_line_ends(s, k);
        if k2 == k {
            assert(done + Seq::<Term>::empty() =~= done);
            break;
        }
        match expr_from(s, k2) {
            Ok((t, m)) => {
                proof {
                    lemma_terms_push(items@, t);
                    assert(seq![t0] + done.push(t@) =~= (seq![t0] + done).push(t@));
                    assert(done + (seq![t@] + statements_from(s@, m as int).0) =~= done.push(t@)
                        + statements_from(s@, m as int).0);
                    done = done.push(t@);
                }
                items.push(t);
                k = m;
            },
            Err(e) => {
                assert(done + Seq::<Term>::empty() =~= done);
                stop = Some(within_rule(e, Rule::EndOfStatement, k));
                break;
            },
        }
    }
    let end = skip_line_ends(s, k);
    if end == s.len() {
        let r = Expr::Block(items);
        assert(r@ == Term::Block(seq![t0] + done));
        Ok(r)
    } else {
        let e = match stop {
            Some(e) => e,
            None => fail(end, ErrorKind::End),
        };
        Err(within_rule(e, Rule::Program, 0))
    }
}

// ---------------------------------------------------------------------------
// Entry points on text
// ---------------------------------------------------------------------------

/// Parses a whole program. On success the result is the block of its
/// statements and the number of characters consumed, which is all of them.
pub fn program(input: &str) -> (r: Result<(usize, Expr), ParseError>)
    ensures
        match r {
            Ok((n, e)) => program_of(input@) == Some(e@) && n == input@.len(),
            Err(_) => program_of(input@) is None,
        },
        r is Err ==> r->Err_0.context@.len() > 0 && r->Err_0.context@.last() == (Rule::Program, 0usize),
        stray_after_statements(input@) ==> r is Err && r->Err_0.kind == ErrorKind::End
            && r->Err_0.position == statements_end(input@),
{
    let s = chars_of(input);
    match program_from(&s) {
        Ok(e) => Ok((s.len(), e)),
        Err(e) => Err(e),
    }
}

/// Parses a whole program into the block of its statements. Parentheses
/// nest by recursion, so the depth of nesting is bounded by the stack.
pub fn parse(input: &str) -> (r: Result<Expr, ParseError>)
    ensures
        match r {
            Ok(e) => program_of(input@) == Some(e@),
            Err(_) => program_of(input@) is None,
        },
        r is Err ==> r->Err_0.context@.len() > 0 && r->Err_0.context@.last() == (Rule::Program, 0usize),
        stray_after_statements(input@) ==> r is Err && r->Err_0.kind == ErrorKind::End
            && r->Err_0.position == statements_end(input@),
{
    let s = chars_of(input);
    program_from(&s)
}

/// Parses one expression at the start of `input`, blanks around it included;
/// the number is how many characters it took.
pub fn expr(input: &str) -> (r: Result<(usize, Expr), ParseError>)
    ensures
        match r {
            Ok((n, e)) => expr_at(input@, 0) == Some((e@, n as int)),
            Err(_) => expr_at(input@, 0) is None,
        },
{
    let s = chars_of(input);
    match expr_from(&s, 0) {
        Ok((e, n)) => Ok((n, e)),
        Err(e) => Err(e),
    }
}

/// `true` or `false` at the start of `input`.
pub fn boolean(input: &str) -> (r: Result<(usize, bool), ParseError>)
    ensures
        match r {
            Ok((n, b)) => boolean_at(input@, 0) == Some((b, n as int)),
            Err(_) => boolean_at(input@, 0) is None,
        },
{
    let s = chars_of(input);
    match boolean_from(&s, 0) {
        Ok((b, n)) => Ok((n, b)),
        Err(e) => Err(e),
    }
}

/// The decimal integer at the start of `input`. A run of digits whose value
/// does not fit an `i32` is a malformed literal.
pub fn integer(input: &str) -> (r: Result<(usize, i32), ParseError>)
    ensures
        match r {
            Ok((n, v)) => integer_at(input@, 0) == Some((v as int, n as int)),
            Err(_) => integer_at(input@, 0) is None,
        },
        r is Err ==> r->Err_0.kind == (if span(input@, 0, CharClass::Digit) > 0 {
            ErrorKind::MalformedInteger
        } else {
            ErrorKind::Digits
        }),
{
    let s = chars_of(input);
    proof { lemma_span(s@, 0, CharClass::Digit); }
    match integer_from(&s, 0) {
        Ok((v, n)) => Ok((n, v)),
        Err(e) => Err(e),
    }
}

/// The name at the start of `input`.
pub fn identifier(input: &str) -> (r: Result<(usize, String), ParseError>)
    ensures
        match r {
            Ok((n, t)) => identifier_at(input@, 0) == Some((t@, n as int)),
            Err(_) => identifier_at(input@, 0) is None,
        },
{
    let s = chars_of(input);
    match identifier_from(&s, 0) {
        Ok((t, n)) => Ok((n, t)),
        Err(e) => Err(e),
    }
}

/// The string literal at the start of `input`, with its escapes decoded.
pub fn string(input: &str) -> (r: Result<(usize, String), ParseError>)
    ensures
        match r {
            Ok((n, t)) => string_at(input@, 0) == Some((t@, n as int)),
            Err(_) => string_at(input@, 0) is None,
        },
        bad_escape_ends(input@, 0) ==> r is Err && r->Err_0.kind == ErrorKind::InvalidCodePoint,
{
    let s = chars_of(input);
    match string_from(&s, 0) {
        Ok((t, n)) => Ok((n, t)),
        Err(e) => Err(e),
    }
}

} // verus!
