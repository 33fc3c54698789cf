//! The line splitter: raw text to logical lines, each with an even number of
//! `"` characters.
use vstd::prelude::*;

use crate::text::{quote_count, lemma_quote_count_concat, chars_of, string_from};

verus! {

/// A carriage return or a line feed.
pub open spec fn is_line_break(c: char) -> bool {
    c == '\n' || c == '\r'
}

/// The physical lines of `s`: the runs of characters between line breaks.
/// Every `\r` and every `\n` ends a line, so a `\r\n` pair encloses an empty
/// line; empty lines never survive `kept_lines`, which makes the surviving
/// lines those of splitting at `\n`, `\r\n` or `\r` alike.
pub open spec fn physical_lines(s: Seq<char>) -> Seq<Seq<char>>
    decreases s.len(),
{
    if s.len() == 0 {
        seq![Seq::empty()]
    } else {
        let prev = physical_lines(s.drop_last());
        if is_line_break(s.last()) {
            prev.push(Seq::empty())
        } else {
            prev.update(prev.len() - 1, prev.last().push(s.last()))
        }
    }
}

/// A line survives unless it is empty or starts with `#`.
pub open spec fn is_kept(l: Seq<char>) -> bool {
    l.len() > 0 && l[0] != '#'
}

/// The lines of `ls` that survive, in order.
pub open spec fn kept_lines(ls: Seq<Seq<char>>) -> Seq<Seq<char>>
    decreases ls.len(),
{
    if ls.len() == 0 {
        ls
    } else {
        let prev = kept_lines(ls.drop_last());
        if is_kept(ls.last()) {
            prev.push(ls.last())
        } else {
            prev
        }
    }
}

/// The surviving physical lines of a text.
pub open spec fn surviving_lines(text: Seq<char>) -> Seq<Seq<char>> {
    kept_lines(physical_lines(text))
}

/// Joins `ls` into logical lines. `pending` is a logical line begun on an
/// earlier physical line whose quote count is still odd: the next line is
/// joined to it with a `\n`, and at the end of input a `"` closes it.
pub open spec fn join_lines(ls: Seq<Seq<char>>, pending: Option<Seq<char>>) -> Seq<Seq<char>>
    decreases ls.len(),
{
    if ls.len() == 0 {
        match pending {
            Some(acc) => seq![acc.push('"')],
            None => Seq::empty(),
        }
    } else {
        let acc = match pending {
            Some(p) => p.push('\n') + ls[0],
            None => ls[0],
        };
        if quote_count(acc) % 2 == 0 {
            seq![acc] + join_lines(ls.drop_first(), None)
        } else {
            join_lines(ls.drop_first(), Some(acc))
        }
    }
}

/// The logical lines of a text, in source order.
pub open spec fn logical_lines(text: Seq<char>) -> Seq<Seq<char>> {
    join_lines(surviving_lines(text), None)
}

/// The views of a sequence of character vectors.
pub open spec fn char_lines(v: Seq<Vec<char>>) -> Seq<Seq<char>> {
    v.map_values(|l: Vec<char>| l@)
}

/// The views of a sequence of strings.
pub open spec fn string_lines(v: Seq<String>) -> Seq<Seq<char>> {
    v.map_values(|l: String| l@)
}

pub proof fn lemma_physical_lines_nonempty(s: Seq<char>)
    ensures
        physical_lines(s).len() >= 1,
    decreases s.len(),
{
    if s.len() > 0 {
        lemma_physical_lines_nonempty(s.drop_last());
    }
}

/// The surviving physical lines of `text`.
fn split_physical(text: &Vec<char>) -> (r: Vec<Vec<char>>)
    ensures
        char_lines(r@) == surviving_lines(text@),
{
    let mut r: Vec<Vec<char>> = Vec::new();
    let mut cur: Vec<char> = Vec::new();
    let n = text.len();
    let mut i: usize = 0;
    proof {
        assert(text@.take(0) =~= Seq::<char>::empty());
    }
    while i < n
        invariant
            n == text.len(),
            0 <= i <= n,
            physical_lines(text@.take(i as int)).len() >= 1,
            cur@ == physical_lines(text@.take(i as int)).last(),
            char_lines(r@) == kept_lines(physical_lines(text@.take(i as int)).drop_last()),
        decreases n - i,
    {
        let c = text[i];
        proof {
            let s = text@.take(i + 1);
            assert(s.drop_last() =~= text@.take(i as int));
            lemma_physical_lines_nonempty(text@.take(i as int));
        }
        if c == '\n' || c == '\r' {
            let ghost prev = physical_lines(text@.take(i as int));
            let ghost old_r = r@;
            if cur.len() > 0 && cur[0] != '#' {
                r.push(cur);
                proof {
                    assert(char_lines(r@) =~= char_lines(old_r).push(prev.last()));
                }
            }
            cur = Vec::new();
            proof {
                assert(prev.push(Seq::empty()).drop_last() =~= prev);
                assert(prev =~= prev.drop_last().push(prev.last()));
            }
        } else {
            let ghost prev = physical_lines(text@.take(i as int));
            cur.push(c);
            proof {
                assert(prev.update(prev.len() - 1, prev.last().push(c)).drop_last()
                    =~= prev.drop_last());
            }
        }
        i = i + 1;
    }
    proof {
        assert(text@.take(n as int) =~= text@);
        let ls = physical_lines(text@);
        assert(ls =~= ls.drop_last().push(ls.last()));
    }
    if cur.len() > 0 && cur[0] != '#' {
        let ghost old_r = r@;
        r.push(cur);
        proof {
            assert(char_lines(r@) =~= char_lines(old_r).push(physical_lines(text@).last()));
        }
    }
    r
}

/// Whether `cs` holds an odd number of `"` characters.
fn quote_parity(cs: &Vec<char>) -> (r: bool)
    ensures
        r == (quote_count(cs@) % 2 == 1),
{
    let mut odd = false;
    for i in 0..cs.len()
        invariant
            odd == (quote_count(cs@.take(i as int)) % 2 == 1),
    {
        proof {
            assert(cs@.take(i + 1).drop_last() =~= cs@.take(i as int));
        }
        if cs[i] == '"' {
            odd = !odd;
        }
    }
    proof {
        assert(cs@.take(cs.len() as int) =~= cs@);
    }
    odd
}

/// Appends the characters of `src` to `dst`.
fn append_chars(dst: &mut Vec<char>, src: &Vec<char>)
    ensures
        final(dst)@ == old(dst)@ + src@,
{
    for i in 0..src.len()
        invariant
            dst@ == old(dst)@ + src@.take(i as int),
    {
        dst.push(src[i]);
        proof {
            assert(old(dst)@ + src@.take(i + 1) =~= (old(dst)@ + src@.take(i as int)).push(
                src@[i as int],
            ));
        }
    }
    proof {
        assert(src@.take(src.len() as int) =~= src@);
    }
}

/// Joins physical lines into logical lines, as `join_lines` describes.
fn join_physical(ls: &Vec<Vec<char>>) -> (r: Vec<Vec<char>>)
    ensures
        char_lines(r@) == join_lines(char_lines(ls@), None),
{
    let ghost all = char_lines(ls@);
    let mut r: Vec<Vec<char>> = Vec::new();
    let mut acc: Vec<char> = Vec::new();
    let mut pending = false;
    let n = ls.len();
    let mut i: usize = 0;
    proof {
        assert(all.skip(0) =~= all);
    }
    while i < n
        invariant
            n == ls.len(),
            0 <= i <= n,
            all == char_lines(ls@),
            pending ==> quote_count(acc@) % 2 == 1,
            char_lines(r@) + join_lines(all.skip(i as int), if pending {
                Some(acc@)
            } else {
                None
            }) == join_lines(all, None),
        decreases n - i,
    {
        let ghost before = join_lines(all.skip(i as int), if pending {
            Some(acc@)
        } else {
            None
        });
        let ghost old_acc = acc@;
        let line_odd = quote_parity(&ls[i]);
        let odd;
        if pending {
            acc.push('\n');
            append_chars(&mut acc, &ls[i]);
            proof {
                assert(old_acc.push('\n').drop_last() =~= old_acc);
                lemma_quote_count_concat(old_acc.push('\n'), ls[i as int]@);
            }
            odd = !line_odd;
        } else {
            acc = ls[i].clone();
            odd = line_odd;
        }
        proof {
            assert(all.skip(i as int).drop_first() =~= all.skip(i + 1));
            assert(all.skip(i as int)[0] == ls[i as int]@);
        }
        if odd {
            pending = true;
        } else {
            let ghost old_r = r@;
            r.push(acc);
            acc = Vec::new();
            pending = false;
            proof {
                assert(char_lines(r@) =~= char_lines(old_r) + seq![r@.last()@]);
            }
        }
        i = i + 1;
    }
    if pending {
        let ghost old_r = r@;
        acc.push('"');
        r.push(acc);
        proof {
            assert(char_lines(r@) =~= char_lines(old_r) + seq![r@.last()@]);
        }
    }
    proof {
        assert(char_lines(r@) =~= join_lines(all, None));
    }
    r
}

/// The logical lines of `text` as vectors of characters.
pub fn logical_line_chars(text: &str) -> (r: Vec<Vec<char>>)
    ensures
        char_lines(r@) == logical_lines(text@),
{
    let cs = chars_of(text);
    let physical = split_physical(&cs);
    join_physical(&physical)
}

/// Splits `data` into logical lines: surviving physical lines joined while
/// their quote count is odd, each one a record.
pub fn split_csv(data: &str) -> (r: Vec<String>)
    ensures
        string_lines(r@) == logical_lines(data@),
{
    let ls = logical_line_chars(data);
    let mut r: Vec<String> = Vec::new();
    for i in 0..ls.len()
        invariant
            string_lines(r@) == char_lines(ls@).take(i as int),
    {
        let ghost old_r = r@;
        let s = string_from(&ls[i]);
        r.push(s);
        proof {
            assert(string_lines(r@) =~= string_lines(old_r).push(ls[i as int]@));
            assert(char_lines(ls@).take(i + 1) =~= char_lines(ls@).take(i as int).push(
                ls[i as int]@,
            ));
        }
    }
    proof {
        assert(char_lines(ls@).take(ls.len() as int) =~= char_lines(ls@));
    }
    r
}

} // verus!
