use vstd::prelude::*;

use crate::printer::{span_label, span_text};

verus! {

/// A half-open range of byte offsets into the source text.
#[derive(Debug, Clone, Copy, PartialEq, Eq, Structural)]
pub struct Span {
    pub start: usize,
    pub end: usize,
}

impl Span {
    /// A span never ends before it starts.
    pub open spec fn wf(self) -> bool {
        self.start <= self.end
    }

    pub fn new(start: usize, end: usize) -> (r: Span)
        requires
            start <= end,
        ensures
            r.start == start,
            r.end == end,
    {
        Span { start, end }
    }

    /// The smallest span that covers both `self` and `other`.
    pub fn to(&self, other: Span) -> (r: Span)
        requires
            self.wf(),
            other.wf(),
        ensures
            r == self.merge(other),
            r.wf(),
    {
        let start = if self.start <= other.start { self.start } else { other.start };
        let end = if self.end >= other.end { self.end } else { other.end };
        Span::new(start, end)
    }

    /// The byte range that the span covers.
    pub fn range(&self) -> (r: std::ops::Range<usize>)
        ensures
            r.start == self.start,
            r.end == self.end,
    {
        std::ops::Range { start: self.start, end: self.end }
    }

    /// The span as `start..end`.
    pub fn to_string(&self) -> (r: String)
        ensures
            r@ == span_text(*self),
    {
        span_label(*self)
    }

    pub open spec fn merge(self, other: Span) -> Span {
        Span {
            start: if self.start <= other.start { self.start } else { other.start },
            end: if self.end >= other.end { self.end } else { other.end },
        }
    }
}

} // verus!

verus! {

/// What an [`Error`] says, as mathematical values.
pub struct Diag {
    pub message: Seq<char>,
    pub span: Span,
}

/// A diagnostic: what went wrong, and where in the source.
#[derive(Debug)]
pub struct Error {
    message: String,
    span: Span,
}

impl View for Error {
    type V = Diag;

    closed spec fn view(&self) -> Diag {
        Diag { message: self.message@, span: self.span }
    }
}

pub type PResult<T> = Result<T, Error>;

/// The model of a result: the value, or what the error says.
pub open spec fn outcome<T>(r: PResult<T>) -> Result<T, Diag> {
    match r {
        Ok(v) => Ok(v),
        Err(e) => Err(e@),
    }
}

impl Error {
    pub fn new(message: String, span: Span) -> (r: Error)
        ensures
            r@ == (Diag { message: message@, span }),
    {
        Error { message, span }
    }

    pub fn message(&self) -> (r: &str)
        ensures
            r@ == self@.message,
    {
        self.message.as_str()
    }

    /// The message alone.
    pub fn to_string(&self) -> (r: String)
        ensures
            r@ == self@.message,
    {
        self.message.clone()
    }

    pub fn span(&self) -> (r: Span)
        ensures
            r == self@.span,
    {
        self.span
    }
}

} // verus!
