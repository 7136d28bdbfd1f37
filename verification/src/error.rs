use vstd::prelude::*;

verus! {

/// An error message carried through the reconciliation pipeline.
///
/// The view of an `Error` is the character sequence of its message, so
/// contracts can state exactly which message a failing call produces.
#[derive(Debug)]
pub struct Error {
    msg: String,
}

impl View for Error {
    type V = Seq<char>;

    closed spec fn view(&self) -> Seq<char> {
        self.msg@
    }
}

impl Error {
    /// Builds an error with the given message.
    pub fn new(msg: &str) -> (r: Error)
        ensures
            r@ == msg@,
    {
        Error { msg: msg.to_owned() }
    }

    /// The message, for reporting to the operator.
    pub fn message(&self) -> (r: &str)
        ensures
            r@ == self@,
    {
        self.msg.as_str()
    }
}

impl Clone for Error {
    fn clone(&self) -> (r: Self)
        ensures
            r@ == self@,
    {
        Error { msg: self.msg.clone() }
    }
}

impl PartialEq for Error {
    fn eq(&self, other: &Self) -> bool {
        self.msg == other.msg
    }
}

impl vstd::std_specs::cmp::PartialEqSpecImpl for Error {
    open spec fn obeys_eq_spec() -> bool {
        true
    }

    open spec fn eq_spec(&self, other: &Self) -> bool {
        self@ == other@
    }
}

impl From<String> for Error {
    fn from(msg: String) -> (r: Self) {
        Error { msg }
    }
}

impl vstd::std_specs::convert::FromSpecImpl<String> for Error {
    open spec fn obeys_from_spec() -> bool {
        true
    }

    closed spec fn from_spec(msg: String) -> Self {
        Error { msg }
    }
}

} // verus!
