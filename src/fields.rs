//! The field parser: one logical line to the fields of its row.
use vstd::prelude::*;

use crate::lines::string_lines;
use crate::text::chars_of;

verus! {

/// The scan of `s` from position `i`, in state `quoted`, with `buf` the field
/// read so far and `row` the fields already complete. A `"` inside quotes
/// followed by another `"` is one literal `"`; any other `"` enters or leaves
/// quotes and is dropped; a `,` outside quotes ends a field; every other
/// character is kept. At the end, `buf` is the last field.
pub open spec fn scan_fields(
    s: Seq<char>,
    i: int,
    quoted: bool,
    buf: Seq<char>,
    row: Seq<Seq<char>>,
) -> Seq<Seq<char>>
    decreases s.len() - i,
{
    if i >= s.len() {
        row.push(buf)
    } else if s[i] == '"' {
        if quoted && i + 1 < s.len() && s[i + 1] == '"' {
            scan_fields(s, i + 2, quoted, buf.push('"'), row)
        } else {
            scan_fields(s, i + 1, !quoted, buf, row)
        }
    } else if s[i] == ',' && !quoted {
        scan_fields(s, i + 1, quoted, Seq::empty(), row.push(buf))
    } else {
        scan_fields(s, i + 1, quoted, buf.push(s[i]), row)
    }
}

/// The fields of a logical line.
pub open spec fn fields(line: Seq<char>) -> Seq<Seq<char>> {
    scan_fields(line, 0, false, Seq::empty(), Seq::empty())
}

proof fn lemma_scan_grows(s: Seq<char>, i: int, quoted: bool, buf: Seq<char>, row: Seq<Seq<char>>)
    ensures
        scan_fields(s, i, quoted, buf, row).len() >= row.len() + 1,
    decreases s.len() - i,
{
    if i < s.len() {
        if s[i] == '"' {
            if quoted && i + 1 < s.len() && s[i + 1] == '"' {
                lemma_scan_grows(s, i + 2, quoted, buf.push('"'), row);
            } else {
                lemma_scan_grows(s, i + 1, !quoted, buf, row);
            }
        } else if s[i] == ',' && !quoted {
            lemma_scan_grows(s, i + 1, quoted, Seq::empty(), row.push(buf));
        } else {
            lemma_scan_grows(s, i + 1, quoted, buf.push(s[i]), row);
        }
    }
}

/// Every line, the empty one included, has at least one field.
pub proof fn lemma_fields_nonempty(line: Seq<char>)
    ensures
        fields(line).len() >= 1,
{
    lemma_scan_grows(line, 0, false, Seq::empty(), Seq::empty());
}

/// The fields of the line held in `cs`.
pub fn fields_of_chars(cs: &Vec<char>) -> (r: Vec<String>)
    ensures
        string_lines(r@) == fields(cs@),
{
    let n = cs.len();
    let mut row: Vec<String> = Vec::new();
    let mut buf = String::new();
    let mut quoted = false;
    let mut i: usize = 0;
    proof {
        assert(string_lines(row@) =~= Seq::<Seq<char>>::empty());
    }
    while i < n
        invariant
            n == cs.len(),
            0 <= i <= n,
            scan_fields(cs@, i as int, quoted, buf@, string_lines(row@)) == fields(cs@),
        decreases n - i,
    {
        let c = cs[i];
        if c == '"' {
            if quoted && i + 1 < n && cs[i + 1] == '"' {
                buf.push('"');
                i = i + 2;
            } else {
                quoted = !quoted;
                i = i + 1;
            }
        } else if c == ',' && !quoted {
            let ghost old_row = row@;
            let ghost old_buf = buf@;
            row.push(buf);
            buf = String::new();
            proof {
                assert(string_lines(row@) =~= string_lines(old_row).push(old_buf));
            }
            i = i + 1;
        } else {
            buf.push(c);
            i = i + 1;
        }
    }
    let ghost old_row = row@;
    let ghost old_buf = buf@;
    row.push(buf);
    proof {
        assert(string_lines(row@) =~= string_lines(old_row).push(old_buf));
    }
    row
}

/// Splits one logical line into its fields: quotes removed, doubled quotes
/// inside quotes collapsed to one, commas inside quotes kept.
pub fn parse_line(line: &str) -> (r: Vec<String>)
    ensures
        string_lines(r@) == fields(line@),
{
    let cs = chars_of(line);
    fields_of_chars(&cs)
}

} // verus!
