//! The error type of the sketch operations.

use vstd::prelude::*;

verus! {

/// Failure of a sketch operation, with a message that says what went wrong.
#[derive(Debug)]
pub struct MinisketchError(String);

impl View for MinisketchError {
    type V = Seq<char>;

    /// The message carried by the error.
    closed spec fn view(&self) -> Seq<char> {
        self.0@
    }
}

impl MinisketchError {
    /// Creates an error with a message.
    pub fn new(msg: &str) -> (e: Self)
        ensures
            e@ == msg@,
    {
        MinisketchError(msg.to_owned())
    }

    /// The message given at creation.
    pub fn message(&self) -> (m: &str)
        ensures
            m@ == self@,
    {
        self.0.as_str()
    }

    /// The error as text: the type's name with the message in parentheses.
    pub fn to_string(&self) -> (s: String)
        ensures
            s@ == "MinisketchError("@ + self@ + ")"@,
    {
        let mut s: String = "MinisketchError(".to_owned();
        s.append(self.0.as_str());
        s.append(")");
        s
    }
}

} // verus!
