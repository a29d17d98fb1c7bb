use vstd::prelude::*;

use crate::text::{chars_of, push_char};

verus! {

/// How one character is written inside a string literal: `"` and `\` take a
/// backslash before them, every other character stands for itself.
pub open spec fn escape_one(c: char) -> Seq<char> {
    if c == '"' || c == '\\' {
        seq!['\\', c]
    } else {
        seq![c]
    }
}

/// The body of a string literal that decodes to `t`.
pub open spec fn escaped(t: Seq<char>) -> Seq<char>
    decreases t.len(),
{
    if t.len() == 0 {
        Seq::empty()
    } else {
        escape_one(t[0]) + escaped(t.drop_first())
    }
}

/// A string literal, quotes included, that decodes to `t`.
pub open spec fn quoted(t: Seq<char>) -> Seq<char> {
    seq!['"'] + escaped(t) + seq!['"']
}

pub proof fn lemma_escaped_concat(a: Seq<char>, b: Seq<char>)
    ensures
        escaped(a + b) == escaped(a) + escaped(b),
    decreases a.len(),
{
    if a.len() == 0 {
        assert(a + b =~= b);
        assert(escaped(a) + escaped(b) =~= escaped(b));
    } else {
        assert((a + b).drop_first() =~= a.drop_first() + b);
        assert((a + b)[0] == a[0]);
        lemma_escaped_concat(a.drop_first(), b);
        assert(escaped(a + b) =~= escaped(a) + escaped(b));
    }
}

proof fn lemma_escaped_one(c: char)
    ensures
        escaped(seq![c]) == escape_one(c),
{
    let one = seq![c];
    assert(one[0] == c);
    assert(one.drop_first() =~= Seq::<char>::empty());
    assert(escaped(Seq::<char>::empty()) == Seq::<char>::empty());
    assert(escaped(one) == escape_one(c) + escaped(one.drop_first()));
    assert(escaped(one) =~= escape_one(c));
}

/// Writes `t` as a string literal that the grammar reads back as `t`.
pub fn quote(t: &str) -> (r: String)
    ensures
        r@ == quoted(t@),
{
    let cs = chars_of(t);
    let mut r = String::new();
    push_char(&mut r, '"');
    let mut i: usize = 0;
    while i < cs.len()
        invariant
            i <= cs.len(),
            cs@ == t@,
            r@ == seq!['"'] + escaped(cs@.subrange(0, i as int)),
        decreases cs.len() - i,
    {
        let c = cs[i];
        let ghost before = cs@.subrange(0, i as int);
        if c == '"' || c == '\\' {
            push_char(&mut r, '\\');
        }
        push_char(&mut r, c);
        proof {
            assert(cs@.subrange(0, i + 1) =~= before + seq![c]);
            lemma_escaped_concat(before, seq![c]);
            lemma_escaped_one(c);
            assert(r@ =~= seq!['"'] + escaped(cs@.subrange(0, i + 1)));
        }
        i = i + 1;
    }
    push_char(&mut r, '"');
    assert(cs@.subrange(0, cs@.len() as int) =~= t@);
    r
}

} // verus!
