//! Why a resolution stops before it has a result.

use vstd::prelude::*;

verus! {

/// The kinds of failure.
#[derive(Clone, Copy, Debug, PartialEq, Eq, Structural)]
pub enum ErrorKind {
    /// A file does not hold a well-formed document.
    ParseError,
    /// A referenced file does not exist.
    NotFound,
    /// The extension directive is neither a string nor a sequence of strings.
    InvalidDirective,
    /// An inclusion marker carries something other than a string.
    InvalidInclusionTarget,
    /// A document that has to be a mapping is none.
    NotAMapping,
    /// A file could not be opened or read.
    IoError,
    /// A file is reached again while it is being resolved.
    CyclicReference,
}

/// A failure: its kind, the file that it is about, and the files that were
/// being resolved when it happened, the innermost first.
#[derive(Clone, Debug, PartialEq, Eq)]
pub struct Error {
    pub kind: ErrorKind,
    pub file: String,
    pub trail: Vec<String>,
}

/// What an [`Error`] denotes.
pub struct ErrorView {
    pub kind: ErrorKind,
    pub file: Seq<char>,
    pub trail: Seq<Seq<char>>,
}

/// The texts of a sequence of strings.
pub open spec fn texts(strings: Seq<String>) -> Seq<Seq<char>> {
    Seq::new(strings.len(), |i: int| strings[i]@)
}

impl View for Error {
    type V = ErrorView;

    open spec fn view(&self) -> ErrorView {
        ErrorView { kind: self.kind, file: self.file@, trail: texts(self.trail@) }
    }
}

/// A failure of the given kind about the given file, with an empty trail.
pub open spec fn failure(kind: ErrorKind, file: Seq<char>) -> ErrorView {
    ErrorView { kind, file, trail: Seq::empty() }
}

/// The failure with one more file at the end of its trail.
pub open spec fn traced(error: ErrorView, file: Seq<char>) -> ErrorView {
    ErrorView { kind: error.kind, file: error.file, trail: error.trail.push(file) }
}

impl Error {
    /// A failure of the given kind about the given file, with an empty trail.
    pub fn new(kind: ErrorKind, file: String) -> (error: Error)
        ensures
            error@ == failure(kind, file@),
    {
        let error = Error { kind, file, trail: Vec::new() };
        assert(texts(error.trail@) =~= Seq::<Seq<char>>::empty());
        error
    }

    /// Adds the file that was being resolved when the failure came up.
    pub fn within(self, file: String) -> (error: Error)
        ensures
            error@ == traced(self@, file@),
    {
        let ghost before = self.trail@;
        let mut trail = self.trail;
        trail.push(file);
        assert(texts(trail@) =~= texts(before).push(file@));
        Error { kind: self.kind, file: self.file, trail }
    }
}

} // verus!
