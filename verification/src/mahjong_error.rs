use vstd::prelude::*;

verus! {

/// An error propagated by the library, carrying a human-readable message.
#[derive(Debug, PartialEq)]
pub struct MahjongError {
    /// The message describing what went wrong.
    pub message: String,
}

impl MahjongError {
    /// Creates a new error holding a copy of `message`.
    pub fn new(message: &str) -> (r: Self)
        ensures
            r.message@ == message@,
    {
        MahjongError { message: message.to_string() }
    }
}

} // verus!
