use vstd::prelude::*;

verus! {

/// A half-open range `[start, end)` of character offsets into the original
/// source text. Spans are attached to every token and every expression node
/// and are used only for error reporting, never for execution semantics.
#[derive(Clone, Copy, Debug, PartialEq, Eq, Structural)]
pub struct Span {
    pub start: usize,
    pub end: usize,
}

impl Span {
    pub fn new(start: usize, end: usize) -> (s: Span)
        ensures
            s == (Span { start, end }),
    {
        Span { start, end }
    }
}

/// A value paired with the span of the source text it came from.
pub type Spanned<T> = (T, Span);

} // verus!
