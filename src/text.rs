//! Character-level helpers shared by the line splitter and the field parser.
use vstd::prelude::*;

verus! {

/// Relies on `String::push`: the character is appended to the end.
pub assume_specification[ String::push ](s: &mut String, ch: char)
    ensures
        final(s)@ == old(s)@.push(ch),
;

/// The number of `"` characters in `s`.
pub open spec fn quote_count(s: Seq<char>) -> nat
    decreases s.len(),
{
    if s.len() == 0 {
        0
    } else {
        quote_count(s.drop_last()) + if s.last() == '"' { 1nat } else { 0nat }
    }
}

/// Quote counts add up over concatenation.
pub proof fn lemma_quote_count_concat(a: Seq<char>, b: Seq<char>)
    ensures
        quote_count(a + b) == quote_count(a) + quote_count(b),
    decreases b.len(),
{
    if b.len() == 0 {
        assert(a + b =~= a);
    } else {
        lemma_quote_count_concat(a, b.drop_last());
        assert((a + b).drop_last() =~= a + b.drop_last());
    }
}

/// The characters of `s`, in order.
pub fn chars_of(s: &str) -> (r: Vec<char>)
    ensures
        r@ == s@,
{
    let mut r: Vec<char> = Vec::new();
    for c in it: s.chars()
        invariant
            r@ == it.seq().take(it.index() as int),
    {
        r.push(c);
    }
    r
}

/// A string holding exactly the characters of `cs`.
pub fn string_from(cs: &Vec<char>) -> (r: String)
    ensures
        r@ == cs@,
{
    let mut r = String::new();
    for i in 0..cs.len()
        invariant
            r@ == cs@.take(i as int),
    {
        r.push(cs[i]);
        assert(cs@.take(i + 1) =~= cs@.take(i as int).push(cs@[i as int]));
    }
    assert(cs@.take(cs.len() as int) =~= cs@);
    r
}

} // verus!
