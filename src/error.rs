//! Error kinds of the library, each with its human-readable message.
use crate::text::{chars_of, concat, decimal, decimal_chars, push_all, string_of};
use vstd::prelude::*;

verus! {

/// Failures of a parser or of the detector.
#[derive(Debug, Clone, PartialEq, Eq)]
pub enum ParseError {
    SyntaxError { line: u64, message: String },
    UnsupportedSyntax(String),
    DetectionFailed(String),
    Other(String),
}

impl ParseError {
    pub fn syntax_error(line: u64, message: &str) -> (r: ParseError)
        ensures
            r is SyntaxError && r->line == line && r->message@ == message@,
    {
        ParseError::SyntaxError { line, message: message.to_owned() }
    }

    pub fn unsupported_syntax(syntax: &str) -> (r: ParseError)
        ensures
            r is UnsupportedSyntax && r->UnsupportedSyntax_0@ == syntax@,
    {
        ParseError::UnsupportedSyntax(syntax.to_owned())
    }

    pub fn detection_failed(reason: &str) -> (r: ParseError)
        ensures
            r is DetectionFailed && r->DetectionFailed_0@ == reason@,
    {
        ParseError::DetectionFailed(reason.to_owned())
    }

    pub fn other(reason: &str) -> (r: ParseError)
        ensures
            r is Other && r->Other_0@ == reason@,
    {
        ParseError::Other(reason.to_owned())
    }

    pub open spec fn message(&self) -> Seq<char> {
        match self {
            ParseError::SyntaxError { line, message } => "Syntax error at line "@ + decimal(
                *line as nat,
            ) + ": "@ + message@,
            ParseError::UnsupportedSyntax(s) => "Unsupported syntax: "@ + s@,
            ParseError::DetectionFailed(s) => "Block detection failed: "@ + s@,
            ParseError::Other(s) => "Parse error: "@ + s@,
        }
    }

    /// The message shown to a user.
    pub fn to_string(&self) -> (r: String)
        ensures
            r@ == self.message(),
    {
        match self {
            ParseError::SyntaxError { line, message } => {
                let mut v = chars_of("Syntax error at line ");
                push_all(&mut v, &decimal_chars(*line));
                push_all(&mut v, &chars_of(": "));
                push_all(&mut v, &chars_of(message.as_str()));
                string_of(&v)
            },
            ParseError::UnsupportedSyntax(s) => concat("Unsupported syntax: ", s.as_str()),
            ParseError::DetectionFailed(s) => concat("Block detection failed: ", s.as_str()),
            ParseError::Other(s) => concat("Parse error: ", s.as_str()),
        }
    }
}

/// Failures of document-level operations.
#[derive(Debug, Clone, PartialEq, Eq)]
pub enum DocumentError {
    InvalidFormat(String),
    ParseFailed(ParseError),
    InvalidIndex,
    RenderFailed(String),
    MissingParser(String),
    Other(String),
}

impl DocumentError {
    pub fn invalid_format(reason: &str) -> (r: DocumentError)
        ensures
            r is InvalidFormat && r->InvalidFormat_0@ == reason@,
    {
        DocumentError::InvalidFormat(reason.to_owned())
    }

    pub fn render_failed(reason: &str) -> (r: DocumentError)
        ensures
            r is RenderFailed && r->RenderFailed_0@ == reason@,
    {
        DocumentError::RenderFailed(reason.to_owned())
    }

    pub fn missing_parser(syntax: &str) -> (r: DocumentError)
        ensures
            r is MissingParser && r->MissingParser_0@ == syntax@,
    {
        DocumentError::MissingParser(syntax.to_owned())
    }

    pub fn other(reason: &str) -> (r: DocumentError)
        ensures
            r is Other && r->Other_0@ == reason@,
    {
        DocumentError::Other(reason.to_owned())
    }

    pub open spec fn message(&self) -> Seq<char> {
        match self {
            DocumentError::InvalidFormat(s) => "Invalid document format: "@ + s@,
            DocumentError::ParseFailed(e) => "Failed to parse document: "@ + e.message(),
            DocumentError::InvalidIndex => "Block index out of range"@,
            DocumentError::RenderFailed(s) => "Failed to render document: "@ + s@,
            DocumentError::MissingParser(s) => "No parser available for syntax: "@ + s@,
            DocumentError::Other(s) => "Document error: "@ + s@,
        }
    }

    /// The message shown to a user.
    pub fn to_string(&self) -> (r: String)
        ensures
            r@ == self.message(),
    {
        match self {
            DocumentError::InvalidFormat(s) => concat("Invalid document format: ", s.as_str()),
            DocumentError::ParseFailed(e) => {
                let inner = e.to_string();
                concat("Failed to parse document: ", inner.as_str())
            },
            DocumentError::InvalidIndex => "Block index out of range".to_owned(),
            DocumentError::RenderFailed(s) => concat("Failed to render document: ", s.as_str()),
            DocumentError::MissingParser(s) => concat(
                "No parser available for syntax: ",
                s.as_str(),
            ),
            DocumentError::Other(s) => concat("Document error: ", s.as_str()),
        }
    }
}

impl From<ParseError> for DocumentError {
    fn from(e: ParseError) -> (r: DocumentError) {
        DocumentError::ParseFailed(e)
    }
}

impl vstd::std_specs::convert::FromSpecImpl<ParseError> for DocumentError {
    open spec fn obeys_from_spec() -> bool {
        true
    }

    open spec fn from_spec(e: ParseError) -> DocumentError {
        DocumentError::ParseFailed(e)
    }
}

/// Failures of turning notes into bytes and back.
#[derive(Debug, Clone, PartialEq, Eq)]
pub enum SerializationError {
    InvalidUtf8,
    UnsupportedFormat(String),
    SerializationFailed(String),
    DeserializationFailed(String),
}

impl SerializationError {
    pub fn unsupported_format(format: &str) -> (r: SerializationError)
        ensures
            r is UnsupportedFormat && r->UnsupportedFormat_0@ == format@,
    {
        SerializationError::UnsupportedFormat(format.to_owned())
    }

    pub fn serialization_failed(reason: &str) -> (r: SerializationError)
        ensures
            r is SerializationFailed && r->SerializationFailed_0@ == reason@,
    {
        SerializationError::SerializationFailed(reason.to_owned())
    }

    pub fn deserialization_failed(reason: &str) -> (r: SerializationError)
        ensures
            r is DeserializationFailed && r->DeserializationFailed_0@ == reason@,
    {
        SerializationError::DeserializationFailed(reason.to_owned())
    }

    pub open spec fn message(&self) -> Seq<char> {
        match self {
            SerializationError::InvalidUtf8 => "Invalid UTF-8 encoding"@,
            SerializationError::UnsupportedFormat(s) => "Unsupported format: "@ + s@,
            SerializationError::SerializationFailed(s) => "Serialization failed: "@ + s@,
            SerializationError::DeserializationFailed(s) => "Deserialization failed: "@ + s@,
        }
    }

    /// The message shown to a user.
    pub fn to_string(&self) -> (r: String)
        ensures
            r@ == self.message(),
    {
        match self {
            SerializationError::InvalidUtf8 => "Invalid UTF-8 encoding".to_owned(),
            SerializationError::UnsupportedFormat(s) => concat("Unsupported format: ", s.as_str()),
            SerializationError::SerializationFailed(s) => concat(
                "Serialization failed: ",
                s.as_str(),
            ),
            SerializationError::DeserializationFailed(s) => concat(
                "Deserialization failed: ",
                s.as_str(),
            ),
        }
    }
}

/// Failures of a note store.
#[derive(Debug, Clone, PartialEq, Eq)]
pub enum RepositoryError {
    NotFound(String),
    AlreadyExists(String),
    IoError(String),
    InvalidId(String),
    Other(String),
}

impl RepositoryError {
    pub fn not_found(id: &str) -> (r: RepositoryError)
        ensures
            r is NotFound && r->NotFound_0@ == id@,
    {
        RepositoryError::NotFound(id.to_owned())
    }

    pub fn already_exists(id: &str) -> (r: RepositoryError)
        ensures
            r is AlreadyExists && r->AlreadyExists_0@ == id@,
    {
        RepositoryError::AlreadyExists(id.to_owned())
    }

    pub fn io_error(reason: &str) -> (r: RepositoryError)
        ensures
            r is IoError && r->IoError_0@ == reason@,
    {
        RepositoryError::IoError(reason.to_owned())
    }

    pub fn invalid_id(id: &str) -> (r: RepositoryError)
        ensures
            r is InvalidId && r->InvalidId_0@ == id@,
    {
        RepositoryError::InvalidId(id.to_owned())
    }

    pub fn other(reason: &str) -> (r: RepositoryError)
        ensures
            r is Other && r->Other_0@ == reason@,
    {
        RepositoryError::Other(reason.to_owned())
    }

    pub open spec fn message(&self) -> Seq<char> {
        match self {
            RepositoryError::NotFound(s) => "Note not found: "@ + s@,
            RepositoryError::AlreadyExists(s) => "Note already exists: "@ + s@,
            RepositoryError::IoError(s) => "I/O error: "@ + s@,
            RepositoryError::InvalidId(s) => "Invalid note ID: "@ + s@,
            RepositoryError::Other(s) => "Repository error: "@ + s@,
        }
    }

    /// The message shown to a user.
    pub fn to_string(&self) -> (r: String)
        ensures
            r@ == self.message(),
    {
        match self {
            RepositoryError::NotFound(s) => concat("Note not found: ", s.as_str()),
            RepositoryError::AlreadyExists(s) => concat("Note already exists: ", s.as_str()),
            RepositoryError::IoError(s) => concat("I/O error: ", s.as_str()),
            RepositoryError::InvalidId(s) => concat("Invalid note ID: ", s.as_str()),
            RepositoryError::Other(s) => concat("Repository error: ", s.as_str()),
        }
    }
}

/// Any error of the library.
#[derive(Debug, Clone, PartialEq, Eq)]
pub enum LibnoteError {
    Parse(ParseError),
    Document(DocumentError),
    Serialization(SerializationError),
    Repository(RepositoryError),
    Other(String),
}

impl LibnoteError {
    pub fn other(reason: &str) -> (r: LibnoteError)
        ensures
            r is Other && r->Other_0@ == reason@,
    {
        LibnoteError::Other(reason.to_owned())
    }

    /// The wrapped error's own message.
    pub open spec fn message(&self) -> Seq<char> {
        match self {
            LibnoteError::Parse(e) => e.message(),
            LibnoteError::Document(e) => e.message(),
            LibnoteError::Serialization(e) => e.message(),
            LibnoteError::Repository(e) => e.message(),
            LibnoteError::Other(s) => s@,
        }
    }

    /// The message shown to a user.
    pub fn to_string(&self) -> (r: String)
        ensures
            r@ == self.message(),
    {
        match self {
            LibnoteError::Parse(e) => e.to_string(),
            LibnoteError::Document(e) => e.to_string(),
            LibnoteError::Serialization(e) => e.to_string(),
            LibnoteError::Repository(e) => e.to_string(),
            LibnoteError::Other(s) => s.clone(),
        }
    }
}

impl From<ParseError> for LibnoteError {
    fn from(e: ParseError) -> (r: LibnoteError) {
        LibnoteError::Parse(e)
    }
}

impl From<DocumentError> for LibnoteError {
    fn from(e: DocumentError) -> (r: LibnoteError) {
        LibnoteError::Document(e)
    }
}

impl From<SerializationError> for LibnoteError {
    fn from(e: SerializationError) -> (r: LibnoteError) {
        LibnoteError::Serialization(e)
    }
}

impl From<RepositoryError> for LibnoteError {
    fn from(e: RepositoryError) -> (r: LibnoteError) {
        LibnoteError::Repository(e)
    }
}

impl vstd::std_specs::convert::FromSpecImpl<ParseError> for LibnoteError {
    open spec fn obeys_from_spec() -> bool {
        true
    }

    open spec fn from_spec(e: ParseError) -> LibnoteError {
        LibnoteError::Parse(e)
    }
}

impl vstd::std_specs::convert::FromSpecImpl<DocumentError> for LibnoteError {
    open spec fn obeys_from_spec() -> bool {
        true
    }

    open spec fn from_spec(e: DocumentError) -> LibnoteError {
        LibnoteError::Document(e)
    }
}

impl vstd::std_specs::convert::FromSpecImpl<SerializationError> for LibnoteError {
    open spec fn obeys_from_spec() -> bool {
        true
    }

    open spec fn from_spec(e: SerializationError) -> LibnoteError {
        LibnoteError::Serialization(e)
    }
}

impl vstd::std_specs::convert::FromSpecImpl<RepositoryError> for LibnoteError {
    open spec fn obeys_from_spec() -> bool {
        true
    }

    open spec fn from_spec(e: RepositoryError) -> LibnoteError {
        LibnoteError::Repository(e)
    }
}

} // verus!
