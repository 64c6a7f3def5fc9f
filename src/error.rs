use vstd::prelude::*;

verus! {

/// A fixed piece of syntax that the grammar requires at some point.
#[derive(Clone, Copy, Debug, PartialEq, Eq)]
pub enum Token {
    /// `<`
    Open,
    /// `>`
    Close,
    /// `</`
    EndTagOpen,
    /// `=`
    Equals,
    /// `-->`
    CommentEnd,
    /// `{`
    BlockOpen,
    /// `}`
    BlockClose,
    /// `:`
    Colon,
    /// `;`
    Semicolon,
    /// `px`
    Px,
}

/// Why a parse was abandoned, and where. `Parser::parse_html` and
/// `Parser::parse_css` give offsets in bytes from the start of the input; the
/// grammar functions, which work on characters, count characters.
#[derive(Clone, Copy, Debug, PartialEq, Eq)]
pub enum ParseError {
    /// A character was required but the input had ended.
    UnexpectedEnd { offset: usize },
    /// The given piece of syntax was required at `offset` and is not there.
    Expected { token: Token, offset: usize },
    /// The closing tag at `offset` does not repeat the opening tag's name.
    MismatchedClosingTag { offset: usize },
    /// An attribute value at `offset` does not start with `"` or `'`.
    BadQuote { offset: usize },
    /// A selector list holds `found` at `offset`, where only `,` or `{` may stand.
    UnexpectedChar { found: char, offset: usize },
    /// The color value starting at `offset` is not 6 or 8 hexadecimal digits.
    InvalidColor { offset: usize },
    /// The numeric literal starting at `offset` is not a number.
    InvalidNumber { offset: usize },
}

impl ParseError {
    pub open spec fn offset_of(self) -> usize {
        match self {
            ParseError::UnexpectedEnd { offset } => offset,
            ParseError::Expected { offset, .. } => offset,
            ParseError::MismatchedClosingTag { offset } => offset,
            ParseError::BadQuote { offset } => offset,
            ParseError::UnexpectedChar { offset, .. } => offset,
            ParseError::InvalidColor { offset } => offset,
            ParseError::InvalidNumber { offset } => offset,
        }
    }

    /// The same error at offset `o`.
    pub open spec fn moved_to(self, o: usize) -> ParseError {
        match self {
            ParseError::UnexpectedEnd { .. } => ParseError::UnexpectedEnd { offset: o },
            ParseError::Expected { token, .. } => ParseError::Expected { token, offset: o },
            ParseError::MismatchedClosingTag { .. } => ParseError::MismatchedClosingTag {
                offset: o,
            },
            ParseError::BadQuote { .. } => ParseError::BadQuote { offset: o },
            ParseError::UnexpectedChar { found, .. } => ParseError::UnexpectedChar {
                found,
                offset: o,
            },
            ParseError::InvalidColor { .. } => ParseError::InvalidColor { offset: o },
            ParseError::InvalidNumber { .. } => ParseError::InvalidNumber { offset: o },
        }
    }

    /// Where the error stands.
    pub fn offset(&self) -> (r: usize)
        ensures
            r == self.offset_of(),
    {
        match self {
            ParseError::UnexpectedEnd { offset } => *offset,
            ParseError::Expected { offset, .. } => *offset,
            ParseError::MismatchedClosingTag { offset } => *offset,
            ParseError::BadQuote { offset } => *offset,
            ParseError::UnexpectedChar { offset, .. } => *offset,
            ParseError::InvalidColor { offset } => *offset,
            ParseError::InvalidNumber { offset } => *offset,
        }
    }

    /// The same error at offset `o`.
    pub fn move_to(self, o: usize) -> (r: ParseError)
        ensures
            r == self.moved_to(o),
    {
        match self {
            ParseError::UnexpectedEnd { .. } => ParseError::UnexpectedEnd { offset: o },
            ParseError::Expected { token, .. } => ParseError::Expected { token, offset: o },
            ParseError::MismatchedClosingTag { .. } => ParseError::MismatchedClosingTag {
                offset: o,
            },
            ParseError::BadQuote { .. } => ParseError::BadQuote { offset: o },
            ParseError::UnexpectedChar { found, .. } => ParseError::UnexpectedChar {
                found,
                offset: o,
            },
            ParseError::InvalidColor { .. } => ParseError::InvalidColor { offset: o },
            ParseError::InvalidNumber { .. } => ParseError::InvalidNumber { offset: o },
        }
    }
}

} // verus!
