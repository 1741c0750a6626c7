//! Where a tool reads from.

use vstd::prelude::*;

verus! {

/// The path read when no input is named, or `-` is.
pub open spec fn standard_input() -> Seq<char> {
    "/dev/stdin"@
}

/// The path that an optional input argument stands for.
pub open spec fn input_path_of(input: Option<String>) -> Seq<char> {
    match input {
        Some(path) => if path@ == "-"@ {
            standard_input()
        } else {
            path@
        },
        None => standard_input(),
    }
}

/// Decides which path to read: the one named, or standard input where none
/// is named or the name is `-`.
pub fn input_path(input: Option<String>) -> (r: String)
    ensures
        r@ == input_path_of(input),
{
    match input {
        Some(path) => {
            if path == "-".to_owned() {
                "/dev/stdin".to_owned()
            } else {
                path
            }
        },
        None => "/dev/stdin".to_owned(),
    }
}

} // verus!
