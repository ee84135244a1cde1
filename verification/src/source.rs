//! Source identities and byte spans.
use crate::text::{decimal, owned, push_decimal};
use core::ops::Range;
use vstd::prelude::*;

verus! {

/// Stable identity for one source within a compilation.
#[derive(Clone, Copy, Debug, PartialEq, Eq, Hash, PartialOrd, Ord)]
pub struct SourceId {
    index: u32,
}

impl SourceId {
    /// The compilation-local index.
    pub closed spec fn id(self) -> u32 {
        self.index
    }

    /// Creates an identity from its compilation-local index.
    pub fn new(index: u32) -> (r: Self)
        ensures
            r.id() == index,
    {
        SourceId { index }
    }

    /// Returns the compilation-local index.
    pub fn index(self) -> (r: u32)
        ensures
            r == self.id(),
    {
        self.index
    }

    /// Two identities are the same exactly when their indices are.
    pub proof fn lemma_index_identifies(a: SourceId, b: SourceId)
        ensures
            a.id() == b.id() <==> a == b,
    {
    }

    /// Whether two identities are the same.
    pub fn same(self, other: SourceId) -> (r: bool)
        ensures
            r == (self == other),
    {
        self.index == other.index
    }
}

/// A half-open byte range in a source.
#[derive(Clone, Copy, Debug, PartialEq, Eq, Hash)]
pub struct Span {
    source: SourceId,
    start: usize,
    end: usize,
}

impl Span {
    /// The source containing the span.
    pub closed spec fn src(self) -> SourceId {
        self.source
    }

    /// The first byte included in the span.
    pub closed spec fn lo(self) -> usize {
        self.start
    }

    /// The first byte after the span.
    pub closed spec fn hi(self) -> usize {
        self.end
    }

    /// Every span is ordered.
    pub closed spec fn wf(self) -> bool {
        self.start <= self.end
    }

    /// A span never ends before it starts.
    #[verifier::type_invariant]
    spec fn ordered_ends(self) -> bool {
        self.start <= self.end
    }

    /// Creates a span after checking that the range is ordered.
    pub fn new(source: SourceId, range: Range<usize>) -> (r: Result<Self, InvalidSpan>)
        ensures
            range.end < range.start <==> r is Err,
            r matches Ok(span) ==> span.wf() && span.src() == source && span.lo() == range.start
                && span.hi() == range.end,
            r matches Err(e) ==> e.lo() == range.start && e.hi() == range.end,
    {
        if range.end < range.start {
            return Err(InvalidSpan { start: range.start, end: range.end });
        }
        Ok(Span { source, start: range.start, end: range.end })
    }

    /// Creates an ordered span from its two ends.
    pub fn ordered(source: SourceId, start: usize, end: usize) -> (r: Self)
        requires
            start <= end,
        ensures
            r.wf() && r.src() == source && r.lo() == start && r.hi() == end,
    {
        Span { source, start, end }
    }

    /// Returns the source containing this span.
    pub fn source(self) -> (r: SourceId)
        ensures
            r == self.src(),
    {
        self.source
    }

    /// Returns the first byte included in this span.
    pub fn start(self) -> (r: usize)
        ensures
            r == self.lo(),
    {
        self.start
    }

    /// Returns the first byte after this span.
    pub fn end(self) -> (r: usize)
        ensures
            r == self.hi(),
    {
        self.end
    }

    /// Returns the span length in bytes.
    pub fn len(self) -> (r: usize)
        ensures
            r == self.hi() - self.lo(),
    {
        proof {
            use_type_invariant(self);
        }
        self.end - self.start
    }

    /// Returns whether the span contains no bytes.
    pub fn is_empty(self) -> (r: bool)
        ensures
            r == (self.lo() == self.hi()),
    {
        self.start == self.end
    }

    /// Returns the half-open byte range.
    pub fn range(self) -> (r: Range<usize>)
        ensures
            r.start == self.lo() && r.end == self.hi(),
    {
        self.start..self.end
    }
}

/// Error returned when a span ends before it starts.
#[derive(Clone, Copy, Debug, PartialEq, Eq)]
pub struct InvalidSpan {
    start: usize,
    end: usize,
}

impl InvalidSpan {
    pub closed spec fn lo(self) -> usize {
        self.start
    }

    pub closed spec fn hi(self) -> usize {
        self.end
    }

    /// Returns the invalid start offset.
    pub fn start(self) -> (r: usize)
        ensures
            r == self.lo(),
    {
        self.start
    }

    /// Returns the invalid end offset.
    pub fn end(self) -> (r: usize)
        ensures
            r == self.hi(),
    {
        self.end
    }

    /// Renders the error message.
    pub fn to_string(&self) -> (r: String)
        ensures
            r@ == "span end "@ + decimal(self.hi() as nat) + " is before start "@ + decimal(
                self.lo() as nat,
            ),
    {
        let mut r = owned("span end ");
        push_decimal(&mut r, self.end);
        r.append(" is before start ");
        push_decimal(&mut r, self.start);
        r
    }
}

} // verus!
