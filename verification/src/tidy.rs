//! Tidying generated modules: a generated file opens with inner attributes
//! (`#![...]`) that must not survive when the file is included as a module.
//! The decision which lines to keep is made here; reading and rewriting the
//! files stays with the caller.

use vstd::prelude::*;
use vstd::string::StrSliceExecFns;

verus! {

/// Whether a line opens an inner attribute: its first three characters are
/// `#![`.
pub open spec fn spec_is_inner_attribute(line: Seq<char>) -> bool {
    line.len() >= 3 && line[0] == '#' && line[1] == '!' && line[2] == '['
}

/// A line of a generated file is kept unless it opens an inner attribute.
pub fn keep_generated_line(line: &str) -> (r: bool)
    ensures
        r == !spec_is_inner_attribute(line@),
{
    let n = line.unicode_len();
    if n < 3 {
        return true;
    }
    let c0 = line.get_char(0);
    let c1 = line.get_char(1);
    let c2 = line.get_char(2);
    !(c0 == '#' && c1 == '!' && c2 == '[')
}

} // verus!
