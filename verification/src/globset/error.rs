//! What can be wrong with a glob pattern.
use vstd::prelude::*;

verus! {

/// The kind of an error in a glob pattern.
#[derive(Debug)]
pub enum ErrorKind {
    /// A character class has no `]`.
    UnclosedClass,
    /// The first character of a range is greater than the last.
    InvalidRange(char, char),
    /// A `}` has no `{` before it.
    UnopenedAlternates,
    /// A `{` has no `}` after it.
    UnclosedAlternates,
    /// The pattern ends in a `\` that escapes nothing.
    DanglingEscape,
    /// The regular expression could not be built.
    Regex(String),
}

pub enum ErrorKindView {
    UnclosedClass,
    InvalidRange(char, char),
    UnopenedAlternates,
    UnclosedAlternates,
    DanglingEscape,
    Regex(Seq<char>),
}

impl View for ErrorKind {
    type V = ErrorKindView;

    open spec fn view(&self) -> ErrorKindView {
        match self {
            ErrorKind::UnclosedClass => ErrorKindView::UnclosedClass,
            ErrorKind::InvalidRange(a, b) => ErrorKindView::InvalidRange(*a, *b),
            ErrorKind::UnopenedAlternates => ErrorKindView::UnopenedAlternates,
            ErrorKind::UnclosedAlternates => ErrorKindView::UnclosedAlternates,
            ErrorKind::DanglingEscape => ErrorKindView::DanglingEscape,
            ErrorKind::Regex(s) => ErrorKindView::Regex(s@),
        }
    }
}

/// An error in a glob pattern.
#[derive(Debug)]
pub struct Error {
    pub glob: Option<String>,
    pub kind: ErrorKind,
}

/// The characters of an optional string.
pub open spec fn opt_chars(s: Option<String>) -> Option<Seq<char>> {
    match s {
        None => None,
        Some(s) => Some(s@),
    }
}

impl Error {
    /// The kind of the error.
    pub fn kind(&self) -> (r: &ErrorKind)
        ensures
            *r == self.kind,
    {
        &self.kind
    }
}

impl ErrorKind {
    /// What the error is, in words.
    pub fn description(&self) -> (r: String)
        ensures
            r@ == match self {
                ErrorKind::UnclosedClass => "unclosed character class; missing ']'"@,
                ErrorKind::InvalidRange(_, _) => "invalid character range"@,
                ErrorKind::UnopenedAlternates =>
                    "unopened alternate group; missing '{' (maybe escape '}' with '[}]'?)"@,
                ErrorKind::UnclosedAlternates =>
                    "unclosed alternate group; missing '}' (maybe escape '{' with '[{]'?)"@,
                ErrorKind::DanglingEscape => "dangling '\\'"@,
                ErrorKind::Regex(s) => s@,
            },
    {
        match self {
            ErrorKind::UnclosedClass => "unclosed character class; missing ']'".to_owned(),
            ErrorKind::InvalidRange(_, _) => "invalid character range".to_owned(),
            ErrorKind::UnopenedAlternates =>
                "unopened alternate group; missing '{' (maybe escape '}' with '[}]'?)".to_owned(),
            ErrorKind::UnclosedAlternates =>
                "unclosed alternate group; missing '}' (maybe escape '{' with '[{]'?)".to_owned(),
            ErrorKind::DanglingEscape => "dangling '\\'".to_owned(),
            ErrorKind::Regex(s) => s.clone(),
        }
    }
}

impl ErrorKindView {
    /// The error as a message says it.
    pub open spec fn text(self) -> Seq<char> {
        match self {
            ErrorKindView::UnclosedClass => "unclosed character class; missing ']'"@,
            ErrorKindView::InvalidRange(a, b) => "invalid range; '"@ + seq![a] + "' > '"@ + seq![b]
                + "'"@,
            ErrorKindView::UnopenedAlternates =>
                "unopened alternate group; missing '{' (maybe escape '}' with '[}]'?)"@,
            ErrorKindView::UnclosedAlternates =>
                "unclosed alternate group; missing '}' (maybe escape '{' with '[{]'?)"@,
            ErrorKindView::DanglingEscape => "dangling '\\'"@,
            ErrorKindView::Regex(s) => s,
        }
    }
}

impl ErrorKind {
    /// The error as a message says it.
    pub fn to_text(&self) -> (r: String)
        ensures
            r@ == self@.text(),
    {
        match self {
            ErrorKind::InvalidRange(a, b) => {
                let mut s = "invalid range; '".to_owned();
                s.push(*a);
                s.push_str("' > '");
                s.push(*b);
                s.push_str("'");
                assert(s@ =~= self@.text());
                s
            },
            _ => self.description(),
        }
    }
}

impl Error {
    /// The error as a message says it, with the pattern that it is in.
    pub fn to_text(&self) -> (r: String)
        ensures
            r@ == (match self.glob {
                None => self.kind@.text(),
                Some(g) => "error parsing glob '"@ + g@ + "': "@ + self.kind@.text(),
            }),
    {
        let kind = self.kind.to_text();
        match &self.glob {
            None => kind,
            Some(g) => {
                let mut s = "error parsing glob '".to_owned();
                s.push_str(g.as_str());
                s.push_str("': ");
                s.push_str(kind.as_str());
                s
            },
        }
    }
}

} // verus!
