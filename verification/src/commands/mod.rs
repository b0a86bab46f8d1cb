//! The decisions of each subcommand. The I/O around them (walking the trees, creating
//! directories, talking to B2, prompting) is done by the program that calls them.

pub mod backup;
pub mod clean;
pub mod export;
pub mod login;
pub mod month;
pub mod status;

use vstd::prelude::*;
use crate::text::{lower_seq, lowercase_ascii, trim, trim_ws};
use crate::path::str_eq;

verus! {

/// The answer to a yes/no prompt means yes: `y` or `yes`, ignoring surrounding whitespace
/// and ASCII case.
pub open spec fn spec_is_affirmative(answer: Seq<char>) -> bool {
    let a = lower_seq(trim_ws(answer));
    a == seq!['y'] || a == seq!['y', 'e', 's']
}

/// True if the typed confirmation answer means yes (`y` or `yes`, case-insensitive,
/// surrounding whitespace ignored).
pub fn is_affirmative(answer: &str) -> (r: bool)
    ensures
        r == spec_is_affirmative(answer@),
{
    let a = lowercase_ascii(trim(answer).as_str());
    let y = crate::text::single_char_string('y');
    let mut yes = crate::text::single_char_string('y');
    crate::text::push_char(&mut yes, 'e');
    crate::text::push_char(&mut yes, 's');
    assert(yes@ =~= seq!['y', 'e', 's']);
    str_eq(a.as_str(), y.as_str()) || str_eq(a.as_str(), yes.as_str())
}

} // verus!
