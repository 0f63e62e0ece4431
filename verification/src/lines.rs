//! Lines of the output tables: every field in double quotes, commas between
//! the fields, and a carriage return and line feed at the end.

use crate::text::{join, joined};
use vstd::prelude::*;

verus! {

/// `s` between two double quotes. Quotes inside `s` stay as they are.
pub open spec fn quoted(s: Seq<char>) -> Seq<char> {
    seq!['"'] + s + seq!['"']
}

/// Each of `fields` between double quotes.
pub open spec fn all_quoted(fields: Seq<Seq<char>>) -> Seq<Seq<char>> {
    Seq::new(fields.len(), |i: int| quoted(fields[i]))
}

/// The end of a line: carriage return, line feed.
pub open spec fn line_end() -> Seq<char> {
    seq!['\r', '\n']
}

/// The line that holds `fields`.
pub open spec fn line_of(fields: Seq<Seq<char>>) -> Seq<char> {
    joined(all_quoted(fields), seq![',']) + line_end()
}

/// The texts of `ins`, in order.
pub open spec fn texts(ins: Seq<&str>) -> Seq<Seq<char>> {
    Seq::new(ins.len(), |i: int| ins[i]@)
}

/// Puts each of `ins` between double quotes.
pub fn quote(ins: &[&str]) -> (out: Vec<String>)
    ensures
        out.deep_view() == all_quoted(texts(ins@)),
{
    let mut out: Vec<String> = Vec::new();
    let mut i: usize = 0;
    while i < ins.len()
        invariant
            i <= ins@.len(),
            out@.len() == i,
            forall|j: int| 0 <= j < i ==> (#[trigger] out@[j])@ == quoted(ins@[j]@),
        decreases ins@.len() - i,
    {
        let mut q = String::from_str("\"");
        q.append(ins[i]);
        q.append("\"");
        proof {
            reveal_strlit("\"");
            assert(q@ =~= quoted(ins@[i as int]@));
        }
        out.push(q);
        i = i + 1;
    }
    assert(out.deep_view() =~= all_quoted(texts(ins@)));
    out
}

/// The line that holds `fields`: each in double quotes, commas between them,
/// carriage return and line feed at the end.
pub fn quoted_line(fields: &[&str]) -> (r: String)
    ensures
        r@ == line_of(texts(fields@)),
{
    let parts = quote(fields);
    let mut r = join(&parts, ",");
    r.append("\r\n");
    proof {
        reveal_strlit(",");
        reveal_strlit("\r\n");
        assert(","@ =~= seq![',']);
        assert("\r\n"@ =~= line_end());
    }
    r
}

} // verus!
