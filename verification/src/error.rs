use vstd::prelude::*;

verus! {

/// Failure modes of the codec.
#[derive(Debug, Clone, Copy, PartialEq, Eq, Structural)]
pub enum Error {
    /// The backing byte source ended early, or a back-reference in the
    /// compressed stream pointed outside the bytes emitted so far.
    Io,
    /// The file header's magic was not `"Yaz0"`.
    InvalidMagic,
}

impl Error {
    /// A human-readable rendering of the error.
    pub fn message(&self) -> (r: &'static str)
        ensures
            self is Io ==> r@ == "backing i/o error"@,
            self is InvalidMagic ==> r@ == "yaz0 header magic invalid"@,
    {
        match self {
            Error::Io => "backing i/o error",
            Error::InvalidMagic => "yaz0 header magic invalid",
        }
    }
}

} // verus!
