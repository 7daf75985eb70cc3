use vstd::prelude::*;

verus! {

/// What a parse failure complains about.
#[derive(Debug, Clone, Copy, PartialEq, Eq, Structural)]
pub enum ErrorKind {
    /// No value starts at this offset.
    UnexpectedToken,
    /// The text ended before the closing quote of a string.
    UnterminatedString,
    /// A backslash is not followed by one of the escape characters.
    InvalidEscape,
    /// A `\u` escape lacks its four hexadecimal digits, or names a surrogate
    /// that is not half of a well-formed pair.
    InvalidUnicodeEscape,
    /// No number starts at this offset.
    InvalidNumberLiteral,
    /// An object key is not followed by a colon.
    MissingColon,
    /// An element or member is followed by neither a comma nor the closing bracket.
    MissingCommaOrCloser,
    /// The text ended inside an array.
    UnterminatedArray,
    /// The text ended inside an object.
    UnterminatedObject,
}

/// The construct that was being parsed when a failure occurred.
#[derive(Debug, Clone, Copy, PartialEq, Eq, Structural)]
pub enum Context {
    String,
    Array,
    Object,
}

impl Context {
    /// The label of the construct as text.
    pub open spec fn spec_label(self) -> Seq<char> {
        match self {
            Context::String => "string"@,
            Context::Array => "array"@,
            Context::Object => "object"@,
        }
    }

    /// The label of the construct: `string`, `array` or `object`.
    pub fn label(&self) -> (s: &'static str)
        ensures
            s@ == self.spec_label(),
    {
        match self {
            Context::String => "string",
            Context::Array => "array",
            Context::Object => "object",
        }
    }
}

/// A parse failure: its kind, the offset in characters from the start of the
/// text at which it was detected, and the innermost construct that had been
/// entered, if any.
#[derive(Debug, Clone, Copy, PartialEq, Eq)]
pub struct ParseError {
    pub kind: ErrorKind,
    pub offset: usize,
    pub context: Option<Context>,
}

impl ParseError {
    /// The same error, labelled with `context` unless an inner construct has
    /// labelled it already.
    pub open spec fn spec_within(self, context: Context) -> ParseError {
        if self.context is None {
            ParseError { kind: self.kind, offset: self.offset, context: Some(context) }
        } else {
            self
        }
    }

    /// Labels the error with `context` unless it carries a label already, so
    /// that the label names the innermost construct.
    pub fn within(self, context: Context) -> (e: ParseError)
        ensures
            e == self.spec_within(context),
    {
        match self.context {
            None => ParseError { kind: self.kind, offset: self.offset, context: Some(context) },
            Some(_) => self,
        }
    }
}

/// A failed production. After a recoverable failure the caller may try another
/// alternative at the same offset; a fatal failure ends the parse.
#[derive(Debug, Clone, Copy, PartialEq, Eq)]
pub enum Failure {
    Recoverable(ParseError),
    Fatal(ParseError),
}

impl Failure {
    /// The error that the failure carries.
    pub open spec fn spec_error(self) -> ParseError {
        match self {
            Failure::Recoverable(e) => e,
            Failure::Fatal(e) => e,
        }
    }

    /// The failure as seen from inside `context`: fatal, and labelled with
    /// `context` unless an inner construct has labelled it.
    pub open spec fn spec_commit(self, context: Context) -> Failure {
        Failure::Fatal(self.spec_error().spec_within(context))
    }

    /// The error that the failure carries.
    pub fn error(self) -> (e: ParseError)
        ensures
            e == self.spec_error(),
    {
        match self {
            Failure::Recoverable(e) => e,
            Failure::Fatal(e) => e,
        }
    }

    /// Whether the failure is fatal.
    pub fn is_fatal(&self) -> (b: bool)
        ensures
            b == (self is Fatal),
    {
        match self {
            Failure::Recoverable(_) => false,
            Failure::Fatal(_) => true,
        }
    }

    /// Turns the failure into a fatal one and labels it with `context` unless
    /// it carries a label already.
    pub fn commit(self, context: Context) -> (f: Failure)
        ensures
            f == self.spec_commit(context),
    {
        Failure::Fatal(self.error().within(context))
    }
}

/// A recoverable failure of kind `kind` at offset `pos`, outside any construct.
pub open spec fn recoverable(kind: ErrorKind, pos: int) -> Failure {
    Failure::Recoverable(ParseError { kind, offset: pos as usize, context: None })
}

/// A fatal failure of kind `kind` at offset `pos`.
pub open spec fn fatal(kind: ErrorKind, pos: int, context: Option<Context>) -> Failure {
    Failure::Fatal(ParseError { kind, offset: pos as usize, context })
}

} // verus!
