use vstd::prelude::*;

verus! {

/// A failure to read one of the image's files.
#[derive(Debug)]
pub enum IoError {
    IoError(std::io::Error),
}

/// A descriptor that could not be read.
#[derive(Debug)]
pub enum DescriptorError {
    U64ParseError(String),
    KindParseError(String),
    ParseExtentDescriptionError,
    UnrecognizedDescriptor,
}

/// A header structure that could not be read, with the structure's name.
#[derive(Debug)]
pub struct DeserializationError(pub &'static str, pub std::io::Error);

/// A failure to set up what reading an image needs.
#[derive(Debug)]
pub enum InitError {
    TokioRuntimeFailed(std::io::Error),
    CacheSetupFailed(std::io::Error),
}

/// Why an image could not be opened.
#[derive(Debug)]
pub enum OpenErrorKind {
    IoError(IoError),
    BadParentExtentDescriptorSize(u64, u64),
    DescriptorError(DescriptorError),
    DeserializationFailed(DeserializationError),
    InvalidFileHeader,
    InitializationFailed(InitError),
    BadPath(String),
    UnsupportedScheme(String),
}

/// Why an image could not be opened, with the path of the file concerned.
#[derive(Debug)]
pub struct OpenError {
    pub path: String,
    pub kind: OpenErrorKind,
}

impl OpenError {
    /// An error of the given kind with no path yet (see `with_path`).
    pub fn from_kind(kind: OpenErrorKind) -> (r: OpenError)
        ensures
            r.path@ == Seq::<char>::empty(),
            r.kind == kind,
    {
        OpenError { path: String::new(), kind }
    }

    /// The same error for the file at `path`.
    pub fn with_path(self, path: &str) -> (r: OpenError)
        ensures
            r.path@ == path@,
            r.kind == self.kind,
    {
        OpenError { path: path.to_owned(), kind: self.kind }
    }
}

} // verus!
