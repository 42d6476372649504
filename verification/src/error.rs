use vstd::prelude::*;
use vstd::string::*;
use crate::serialize::{int_text, int_to_text, lemma_int_text_ascii};
use crate::utf8::{ascii_chars, bytes_as_str, lemma_ascii_utf8};

verus! {

#[verifier::external_type_specification]
#[verifier::external_body]
pub struct ExIoError(std::io::Error);

/// Errors that can occur while parsing or serializing JSON.
#[derive(Debug)]
pub enum Error {
    /// A free-form error message.
    Custom(String),
    /// An I/O error from an underlying writer.
    Io(std::io::Error),
    /// A parse error located at a 1-based line and column of the source.
    Parse { msg: String, line: usize, col: usize },
}

/// The mathematical view of an [`Error`]: messages as character sequences.
pub enum ErrorView {
    Custom(Seq<char>),
    Io,
    Parse(Seq<char>, usize, usize),
}

impl View for Error {
    type V = ErrorView;

    open spec fn view(&self) -> ErrorView {
        match self {
            Error::Custom(m) => ErrorView::Custom(m@),
            Error::Io(_) => ErrorView::Io,
            Error::Parse { msg, line, col } => ErrorView::Parse(msg@, *line, *col),
        }
    }
}

impl Error {
    /// A custom error carrying `msg`.
    pub fn custom(msg: &str) -> (e: Error)
        ensures
            e@ == ErrorView::Custom(msg@),
    {
        Error::Custom(msg.to_owned())
    }

    /// A parse error carrying `msg`, located at `line` and `col`.
    pub fn parse_at(msg: String, line: usize, col: usize) -> (e: Error)
        ensures
            e@ == ErrorView::Parse(msg@, line, col),
    {
        Error::Parse { msg, line, col }
    }
}

/// An owned copy of `s`.
pub(crate) fn text(s: &str) -> (r: String)
    ensures
        r@ == s@,
{
    s.to_owned()
}

/// Appends `s` to `m`.
pub(crate) fn push_text(m: &mut String, s: &str)
    ensures
        final(m)@ == old(m)@ + s@,
{
    m.append(s);
}

/// Appends the decimal text of `v` to `m`.
pub(crate) fn push_int(m: &mut String, v: i128)
    ensures
        final(m)@ == old(m)@ + ascii_chars(int_text(v as int)),
{
    let digits = int_to_text(v);
    proof {
        lemma_int_text_ascii(v as int);
        lemma_ascii_utf8(digits@);
    }
    let s = bytes_as_str(digits.as_slice());
    m.append(s);
}

/// Convenience `Result` alias for this crate's operations.
pub type Result<T> = std::result::Result<T, Error>;

} // verus!
