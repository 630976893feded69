use vstd::prelude::*;

verus! {

/// Errors of the database.
#[derive(Debug)]
pub enum CrustyError {
    /// A message that says what went wrong.
    CrustyError(String),
}

impl CrustyError {
    /// What went wrong.
    pub open spec fn message(self) -> Seq<char> {
        match self {
            CrustyError::CrustyError(m) => m@,
        }
    }

    /// What went wrong.
    pub fn text(&self) -> (r: &str)
        ensures
            r@ == self.message(),
    {
        match self {
            CrustyError::CrustyError(m) => m.as_str(),
        }
    }
}

/// The error with the given message.
pub fn c_err(message: &str) -> (e: CrustyError)
    ensures
        e.message() == message@,
{
    CrustyError::CrustyError(message.to_owned())
}

} // verus!
