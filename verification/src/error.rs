//! The error every refusal and every native failure is reported as.
use vstd::prelude::*;

verus! {

/// Status code of an argument that was refused before any native work.
pub const ARGUMENT_CODE: i32 = 1;

/// What went wrong inside Draco.
#[derive(Debug, Clone, PartialEq, Eq)]
pub struct DracoError {
    /// The C entry point's status code.
    pub code: i32,
    /// Draco's own message, or ours when the argument check refused first.
    pub message: String,
}

/// The refusal of an argument: status code 1 with `message`.
pub open spec fn argument_error(e: DracoError, message: Seq<char>) -> bool {
    e.code == ARGUMENT_CODE && e.message@ == message
}

/// An argument error carrying `message`.
pub fn argument(message: &str) -> (e: DracoError)
    ensures
        argument_error(e, message@),
{
    DracoError { code: ARGUMENT_CODE, message: String::from_str(message) }
}

/// An argument error carrying an already built message.
pub fn argument_owned(message: String) -> (e: DracoError)
    ensures
        argument_error(e, message@),
{
    DracoError { code: ARGUMENT_CODE, message }
}

} // verus!
