use vstd::prelude::*;

verus! {

/// What stops the zone parser: a truncated file, a directive it does
/// not accept, or a record it cannot read.
#[derive(PartialEq, Eq, Structural, Clone, Copy, Debug)]
pub enum ParserErrorKind {
    UnexpectedEOF,
    BadDirective,
    BadRecord,
}

impl ParserErrorKind {
    pub fn to_string(&self) -> (r: String)
        ensures
            ({
                match self {
                    ParserErrorKind::UnexpectedEOF => r@ == "ParseError: unexpected end of file"@,
                    ParserErrorKind::BadDirective => r@ == "ParseError: unsupported directive"@,
                    ParserErrorKind::BadRecord => r@ == "ParseError: malformed record"@,
                }
            }),
    {
        match self {
            ParserErrorKind::UnexpectedEOF => "ParseError: unexpected end of file".to_string(),
            ParserErrorKind::BadDirective => "ParseError: unsupported directive".to_string(),
            ParserErrorKind::BadRecord => "ParseError: malformed record".to_string(),
        }
    }
}

/// A zone-file failure and the line it was found on.
#[derive(PartialEq, Eq, Structural, Clone, Copy, Debug)]
pub struct ParserError {
    pub line: u16,
    pub err: ParserErrorKind,
}

impl ParserError {
    pub fn new(line: u16, err: ParserErrorKind) -> (r: Self)
        ensures
            r.line == line,
            r.err == err,
    {
        ParserError { line, err }
    }

    /// The failure's wording; the line stands in the `line` field.
    pub fn to_string(&self) -> (r: String)
        ensures
            ({
                match self.err {
                    ParserErrorKind::UnexpectedEOF => r@ == "ParseError: unexpected end of file"@,
                    ParserErrorKind::BadDirective => r@ == "ParseError: unsupported directive"@,
                    ParserErrorKind::BadRecord => r@ == "ParseError: malformed record"@,
                }
            }),
    {
        self.err.to_string()
    }
}

} // verus!
