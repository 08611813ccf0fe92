use vstd::prelude::*;

verus! {

/// The kinds of failure that lookups and table loading can report.
#[derive(Debug, Clone, Copy, PartialEq, Eq)]
pub enum ErrorKind {
    UnicodeDecode,
    Range,
    Io,
    FileNotFound,
    GameOver,
}

/// A failure, tagged with its kind, as handed across the library boundary.
#[derive(Debug, Clone, Copy, PartialEq, Eq)]
pub struct Error {
    pub kind: ErrorKind,
}

/// The numeric code of each error kind, for callers across a language
/// boundary.
pub open spec fn error_code(k: ErrorKind) -> int {
    match k {
        ErrorKind::UnicodeDecode => 1,
        ErrorKind::Range => 2,
        ErrorKind::Io => 3,
        ErrorKind::FileNotFound => 4,
        ErrorKind::GameOver => 5,
    }
}

impl Error {
    pub fn get_error_code(&self) -> (r: u32)
        ensures
            r == error_code(self.kind),
    {
        match self.kind {
            ErrorKind::UnicodeDecode => 1,
            ErrorKind::Range => 2,
            ErrorKind::Io => 3,
            ErrorKind::FileNotFound => 4,
            ErrorKind::GameOver => 5,
        }
    }

    /// A short description of the failure.
    pub fn message(&self) -> (r: &'static str)
        ensures
            self.kind == ErrorKind::UnicodeDecode ==> r@ == "Invalid UTF-8 input."@,
            self.kind == ErrorKind::Range ==> r@ == "State index out of range."@,
            self.kind == ErrorKind::Io ==> r@ == "Input/output error."@,
            self.kind == ErrorKind::FileNotFound ==> r@ == "File not found."@,
            self.kind == ErrorKind::GameOver ==> r@ == "No legal action in a finished game."@,
    {
        match self.kind {
            ErrorKind::UnicodeDecode => "Invalid UTF-8 input.",
            ErrorKind::Range => "State index out of range.",
            ErrorKind::Io => "Input/output error.",
            ErrorKind::FileNotFound => "File not found.",
            ErrorKind::GameOver => "No legal action in a finished game.",
        }
    }
}

impl From<ErrorKind> for Error {
    fn from(kind: ErrorKind) -> (r: Error) {
        Error { kind }
    }
}

impl vstd::std_specs::convert::FromSpecImpl<ErrorKind> for Error {
    open spec fn obeys_from_spec() -> bool {
        true
    }

    open spec fn from_spec(kind: ErrorKind) -> Error {
        Error { kind }
    }
}

} // verus!
