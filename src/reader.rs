//! Whole-text parsing: logical lines to rows, and the laws that relate
//! different inputs.
use vstd::prelude::*;

use crate::fields::{fields, fields_of_chars};
use crate::lines::{
    is_kept,
    is_line_break,
    join_lines,
    kept_lines,
    lemma_physical_lines_nonempty,
    logical_line_chars,
    logical_lines,
    physical_lines,
    string_lines,
};
use crate::text::quote_count;

verus! {

/// The rows of a text: the fields of each logical line, in source order.
pub open spec fn rows(text: Seq<char>) -> Seq<Seq<Seq<char>>> {
    logical_lines(text).map_values(|l: Seq<char>| fields(l))
}

/// The views of a sequence of rows.
pub open spec fn table_view(v: Seq<Vec<String>>) -> Seq<Seq<Seq<char>>> {
    v.map_values(|r: Vec<String>| string_lines(r@))
}

/// Parses `data` into its rows, one per logical line, in source order.
pub fn parse(data: &str) -> (r: Vec<Vec<String>>)
    ensures
        table_view(r@) == rows(data@),
{
    let ls = logical_line_chars(data);
    let mut r: Vec<Vec<String>> = Vec::new();
    for i in 0..ls.len()
        invariant
            table_view(r@) == rows(data@).take(i as int),
            ls@.map_values(|l: Vec<char>| l@) == logical_lines(data@),
    {
        let ghost old_r = r@;
        let row = fields_of_chars(&ls[i]);
        r.push(row);
        proof {
            assert(table_view(r@) =~= table_view(old_r).push(fields(ls[i as int]@)));
            assert(rows(data@).take(i + 1) =~= rows(data@).take(i as int).push(
                fields(ls[i as int]@),
            ));
        }
    }
    proof {
        assert(rows(data@).take(ls.len() as int) =~= rows(data@));
    }
    r
}

/// Parses text that has been read from somewhere: the rows of the text, or
/// the read's own error unchanged, in which case no row is produced.
pub fn open<E>(read: Result<String, E>) -> (r: Result<Vec<Vec<String>>, E>)
    ensures
        match read {
            Ok(text) => r matches Ok(v) && table_view(v@) == rows(text@),
            Err(e) => r == Err::<Vec<Vec<String>>, E>(e),
        },
{
    match read {
        Ok(text) => Ok(parse(text.as_str())),
        Err(e) => Err(e),
    }
}

/// Every logical line that `join_lines` produces has an even quote count,
/// given that a pending line has an odd one.
proof fn lemma_join_balanced(ls: Seq<Seq<char>>, pending: Option<Seq<char>>)
    requires
        pending matches Some(p) ==> quote_count(p) % 2 == 1,
    ensures
        forall|j: int|
            0 <= j < join_lines(ls, pending).len() ==> quote_count(
                #[trigger] join_lines(ls, pending)[j],
            ) % 2 == 0,
    decreases ls.len(),
{
    if ls.len() == 0 {
        if let Some(acc) = pending {
            assert(acc.push('"').drop_last() =~= acc);
            assert(quote_count(acc.push('"')) == quote_count(acc) + 1);
            assert(join_lines(ls, pending) == seq![acc.push('"')]);
        }
    } else {
        let acc = match pending {
            Some(p) => p.push('\n') + ls[0],
            None => ls[0],
        };
        let rest = join_lines(ls.drop_first(), None);
        lemma_join_balanced(ls.drop_first(), None);
        if quote_count(acc) % 2 != 0 {
            lemma_join_balanced(ls.drop_first(), Some(acc));
            assert(join_lines(ls, pending) == join_lines(ls.drop_first(), Some(acc)));
        } else {
            let r = join_lines(ls, pending);
            assert(r == seq![acc] + rest);
            assert forall|j: int| 0 <= j < r.len() implies quote_count(#[trigger] r[j]) % 2
                == 0 by {
                if j > 0 {
                    assert(r[j] == rest[j - 1]);
                }
            }
        }
    }
}

/// Every logical line of a text holds an even number of `"` characters.
pub proof fn lemma_logical_lines_balanced(text: Seq<char>)
    ensures
        forall|j: int|
            0 <= j < logical_lines(text).len() ==> quote_count(
                #[trigger] logical_lines(text)[j],
            ) % 2 == 0,
{
    lemma_join_balanced(kept_lines(physical_lines(text)), None);
}

/// A text has exactly one row for each of its logical lines.
pub proof fn lemma_row_count(text: Seq<char>)
    ensures
        rows(text).len() == logical_lines(text).len(),
        forall|j: int|
            0 <= j < rows(text).len() ==> #[trigger] rows(text)[j] == fields(logical_lines(text)[j]),
{
}

/// `s` with every `\n` replaced by `\r\n`.
pub open spec fn lf_to_crlf(s: Seq<char>) -> Seq<char>
    decreases s.len(),
{
    if s.len() == 0 {
        s
    } else if s.last() == '\n' {
        lf_to_crlf(s.drop_last()) + seq!['\r', '\n']
    } else {
        lf_to_crlf(s.drop_last()).push(s.last())
    }
}

/// Unfolds `kept_lines` at its last line.
proof fn lemma_kept_last(ls: Seq<Seq<char>>)
    requires
        ls.len() >= 1,
    ensures
        kept_lines(ls) == if is_kept(ls.last()) {
            kept_lines(ls.drop_last()).push(ls.last())
        } else {
            kept_lines(ls.drop_last())
        },
{
}

proof fn lemma_crlf_lines(s: Seq<char>)
    ensures
        physical_lines(lf_to_crlf(s)).len() >= 1,
        physical_lines(lf_to_crlf(s)).last() == physical_lines(s).last(),
        kept_lines(physical_lines(lf_to_crlf(s)).drop_last()) == kept_lines(
            physical_lines(s).drop_last(),
        ),
    decreases s.len(),
{
    lemma_physical_lines_nonempty(lf_to_crlf(s));
    lemma_physical_lines_nonempty(s);
    if s.len() > 0 {
        let s0 = s.drop_last();
        let c = s.last();
        let t0 = lf_to_crlf(s0);
        lemma_crlf_lines(s0);
        lemma_physical_lines_nonempty(s0);
        lemma_physical_lines_nonempty(t0);
        let p0 = physical_lines(s0);
        let q0 = physical_lines(t0);
        lemma_kept_last(p0);
        lemma_kept_last(q0);
        if c == '\n' {
            let t = t0 + seq!['\r', '\n'];
            assert(t.drop_last() =~= t0.push('\r'));
            assert(t0.push('\r').drop_last() =~= t0);
            assert(t0.push('\r').last() == '\r');
            assert(t.last() == '\n');
            assert(physical_lines(t0.push('\r')) == q0.push(Seq::empty()));
            assert(physical_lines(t) == q0.push(Seq::empty()).push(Seq::empty()));
            assert(q0.push(Seq::empty()).push(Seq::empty()).drop_last() =~= q0.push(
                Seq::empty(),
            ));
            assert(q0.push(Seq::<char>::empty()).drop_last() =~= q0);
            assert(p0.push(Seq::<char>::empty()).drop_last() =~= p0);
            lemma_kept_last(q0.push(Seq::empty()));
        } else {
            let t = t0.push(c);
            assert(t.drop_last() =~= t0);
            if is_line_break(c) {
                assert(q0.push(Seq::<char>::empty()).drop_last() =~= q0);
                assert(p0.push(Seq::<char>::empty()).drop_last() =~= p0);
            } else {
                assert(q0.update(q0.len() - 1, q0.last().push(c)).drop_last() =~= q0.drop_last());
                assert(p0.update(p0.len() - 1, p0.last().push(c)).drop_last() =~= p0.drop_last());
            }
        }
    }
}

/// Writing every line feed as a carriage return and line feed leaves the
/// rows unchanged.
pub proof fn lemma_crlf_invariance(text: Seq<char>)
    ensures
        rows(lf_to_crlf(text)) == rows(text),
{
    lemma_crlf_lines(text);
    lemma_physical_lines_nonempty(text);
    lemma_kept_last(physical_lines(text));
    lemma_kept_last(physical_lines(lf_to_crlf(text)));
}

/// Appending a line feed to a text leaves its rows unchanged.
pub proof fn lemma_trailing_newline(text: Seq<char>)
    ensures
        rows(text.push('\n')) == rows(text),
{
    assert(text.push('\n').drop_last() =~= text);
    let p = physical_lines(text);
    assert(p.push(Seq::<char>::empty()).drop_last() =~= p);
}

proof fn lemma_breaks_only_lines(s: Seq<char>)
    requires
        forall|i: int| 0 <= i < s.len() ==> is_line_break(#[trigger] s[i]),
    ensures
        forall|j: int|
            0 <= j < physical_lines(s).len() ==> (#[trigger] physical_lines(s)[j]).len() == 0,
    decreases s.len(),
{
    if s.len() > 0 {
        assert(is_line_break(s[s.len() - 1]));
        lemma_breaks_only_lines(s.drop_last());
        let p0 = physical_lines(s.drop_last());
        assert(physical_lines(s) == p0.push(Seq::empty()));
        assert forall|j: int| 0 <= j < physical_lines(s).len() implies (
        #[trigger] physical_lines(s)[j]).len() == 0 by {
            if j < p0.len() {
                assert(physical_lines(s)[j] == p0[j]);
            }
        }
    }
}

proof fn lemma_none_kept(ls: Seq<Seq<char>>)
    requires
        forall|j: int| 0 <= j < ls.len() ==> (#[trigger] ls[j]).len() == 0,
    ensures
        kept_lines(ls).len() == 0,
    decreases ls.len(),
{
    if ls.len() > 0 {
        lemma_none_kept(ls.drop_last());
    }
}

/// A text made of line breaks alone has no rows.
pub proof fn lemma_blank_text_has_no_rows(text: Seq<char>)
    requires
        forall|i: int| 0 <= i < text.len() ==> is_line_break(#[trigger] text[i]),
    ensures
        rows(text).len() == 0,
{
    lemma_breaks_only_lines(text);
    lemma_none_kept(physical_lines(text));
}

} // verus!
