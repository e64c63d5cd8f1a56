use vstd::prelude::*;

verus! {

/// Everything that can go wrong when a configuration is read.
#[derive(Debug)]
pub enum Error {
    /// An input that was referenced is neither declared nor in the environment.
    InputResolveError(String),
    /// A spread whose value is not of the same kind as its container.
    InvalidSpreadError,
    /// A non-string value interpolated into a string.
    InvalidInterpolationError,
    /// A value could not be placed or converted.
    DeserializationError(String),
    /// The text is not a well-formed configuration.
    ParseError(String),
}

/// The mathematical view of an [`Error`].
pub enum SError {
    InputResolveError(Seq<char>),
    InvalidSpreadError,
    InvalidInterpolationError,
    DeserializationError(Seq<char>),
    ParseError(Seq<char>),
}

impl View for Error {
    type V = SError;

    open spec fn view(&self) -> SError {
        match self {
            Error::InputResolveError(s) => SError::InputResolveError(s@),
            Error::InvalidSpreadError => SError::InvalidSpreadError,
            Error::InvalidInterpolationError => SError::InvalidInterpolationError,
            Error::DeserializationError(s) => SError::DeserializationError(s@),
            Error::ParseError(s) => SError::ParseError(s@),
        }
    }
}

/// The human-readable description of an error.
pub open spec fn error_message(e: SError) -> Seq<char> {
    match e {
        SError::InputResolveError(input) =>
            "failed to resolve referenced input `"@ + input + "`"@,
        SError::InvalidSpreadError =>
            "attempted to spread a type that differs from its containing type"@,
        SError::InvalidInterpolationError =>
            "attempted to interpolate a non-string type into a string"@,
        SError::DeserializationError(msg) => "failed to deserialize input: "@ + msg,
        SError::ParseError(msg) => "failed to parse input: "@ + msg,
    }
}

impl Error {
    /// The human-readable description of the error.
    pub fn message(&self) -> (s: String)
        ensures
            s@ == error_message(self@),
    {
        match self {
            Error::InputResolveError(input) => {
                let mut s = String::from_str("failed to resolve referenced input `");
                s.append(input.as_str());
                s.append("`");
                s
            },
            Error::InvalidSpreadError => String::from_str(
                "attempted to spread a type that differs from its containing type",
            ),
            Error::InvalidInterpolationError => String::from_str(
                "attempted to interpolate a non-string type into a string",
            ),
            Error::DeserializationError(msg) => {
                let mut s = String::from_str("failed to deserialize input: ");
                s.append(msg.as_str());
                s
            },
            Error::ParseError(msg) => {
                let mut s = String::from_str("failed to parse input: ");
                s.append(msg.as_str());
                s
            },
        }
    }
}

/// Why the text of an integer literal could not be read as a 64-bit integer.
#[derive(Debug, Clone, Copy, PartialEq, Eq, Structural)]
pub enum IntErrorKind {
    /// The number is larger than the largest value of the target type.
    PosOverflow,
    /// The number is smaller than the smallest value of the target type.
    NegOverflow,
}

/// Errors found while splitting the text into tokens.
#[derive(Debug, Clone, Copy, PartialEq, Eq, Structural)]
pub enum LexicalError {
    /// An integer literal that does not fit in 64 bits.
    InvalidInteger(IntErrorKind),
    /// A float literal that could not be read.
    InvalidFloat,
    /// Text that is no token of the language.
    InvalidToken,
}

impl Default for LexicalError {
    /// An invalid token.
    fn default() -> (e: LexicalError)
        ensures
            e == LexicalError::InvalidToken,
    {
        LexicalError::InvalidToken
    }
}

/// The human-readable description of a lexical error.
pub open spec fn lexical_error_message(e: LexicalError) -> Seq<char> {
    match e {
        LexicalError::InvalidInteger(IntErrorKind::PosOverflow) =>
            "Integer parsing error: number too large to fit in target type"@,
        LexicalError::InvalidInteger(IntErrorKind::NegOverflow) =>
            "Integer parsing error: number too small to fit in target type"@,
        LexicalError::InvalidFloat => "Float parsing error: invalid float literal"@,
        LexicalError::InvalidToken => "Encountered invalid token"@,
    }
}

impl LexicalError {
    /// The human-readable description of the error.
    pub fn message(&self) -> (s: String)
        ensures
            s@ == lexical_error_message(*self),
    {
        match self {
            LexicalError::InvalidInteger(IntErrorKind::PosOverflow) => String::from_str(
                "Integer parsing error: number too large to fit in target type",
            ),
            LexicalError::InvalidInteger(IntErrorKind::NegOverflow) => String::from_str(
                "Integer parsing error: number too small to fit in target type",
            ),
            LexicalError::InvalidFloat => String::from_str(
                "Float parsing error: invalid float literal",
            ),
            LexicalError::InvalidToken => String::from_str("Encountered invalid token"),
        }
    }
}

} // verus!
