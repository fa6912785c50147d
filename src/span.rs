//! Byte spans over a source text and source positions for error messages.
use vstd::prelude::*;

verus! {

/// Number of line feeds in `s`.
pub open spec fn newline_count(s: Seq<u8>) -> nat
    decreases s.len(),
{
    if s.len() == 0 {
        0
    } else {
        newline_count(s.drop_last()) + if s.last() == 10u8 { 1nat } else { 0nat }
    }
}

/// Number of bytes at the end of `s` that follow its last line feed (all of `s` if it has none).
pub open spec fn trailing_column(s: Seq<u8>) -> nat
    decreases s.len(),
{
    if s.len() == 0 || s.last() == 10u8 {
        0
    } else {
        trailing_column(s.drop_last()) + 1
    }
}

/// Whether two byte sequences are equal.
pub fn same_bytes(a: &[u8], b: &[u8]) -> (r: bool)
    ensures
        r == (a@ == b@),
{
    if a.len() != b.len() {
        return false;
    }
    let mut i: usize = 0;
    while i < a.len()
        invariant
            a@.len() == b@.len(),
            i <= a@.len(),
            forall|k: int| 0 <= k < i ==> a@[k] == b@[k],
        decreases a@.len() - i,
    {
        if a[i] != b[i] {
            return false;
        }
        i = i + 1;
    }
    assert(a@ =~= b@);
    true
}

/// A piece of a source text together with the byte offset at which it starts.
#[derive(Clone, Copy, Debug)]
pub struct Span<'a> {
    pub text: &'a [u8],
    pub start: usize,
}

impl<'a> Span<'a> {
    /// The span whose text is all of `text`, starting at offset zero.
    pub fn from_text(text: &'a [u8]) -> (r: Span<'a>)
        ensures
            r.text@ == text@,
            r.start == 0,
    {
        Span { text, start: 0 }
    }

    /// The span of `source` between the byte offsets `start` and `end`.
    pub fn from_range(source: &'a [u8], start: usize, end: usize) -> (r: Span<'a>)
        requires
            start <= end <= source@.len(),
        ensures
            r.text@ == source@.subrange(start as int, end as int),
            r.start == start,
    {
        Span { text: vstd::slice::slice_subrange(source, start, end), start }
    }

    /// The byte offset just past the end of the span.
    pub fn end(&self) -> (r: usize)
        requires
            self.start + self.text@.len() <= usize::MAX,
        ensures
            r == self.start + self.text@.len(),
    {
        self.start + self.text.len()
    }

    /// The offsets covered by the span, as `u32` values.
    pub fn range(&self) -> (r: core::ops::Range<u32>)
        requires
            self.start + self.text@.len() <= u32::MAX,
        ensures
            r.start == self.start,
            r.end == self.start + self.text@.len(),
    {
        (self.start as u32)..(self.end() as u32)
    }
}

/// Spans are equal when they hold the same bytes, wherever they start.
impl<'a> PartialEq for Span<'a> {
    fn eq(&self, other: &Span<'a>) -> (r: bool) {
        same_bytes(self.text, other.text)
    }
}

impl<'a> vstd::std_specs::cmp::PartialEqSpecImpl for Span<'a> {
    open spec fn obeys_eq_spec() -> bool {
        true
    }

    open spec fn eq_spec(&self, other: &Span<'a>) -> bool {
        self.text@ == other.text@
    }
}

/// A position in a source text as a line and a column, both counted from one.
#[derive(Debug, Clone, Copy, PartialEq, Eq, Default)]
pub struct ErrorPos {
    pub line: usize,
    pub col: usize,
}

/// The line and column of byte offset `byte` of `source`.
pub open spec fn error_pos(source: Seq<u8>, byte: int) -> ErrorPos {
    ErrorPos {
        line: (newline_count(source.subrange(0, byte)) + 1) as usize,
        col: (trailing_column(source.subrange(0, byte)) + 1) as usize,
    }
}

impl ErrorPos {
    /// The position of byte offset `byte` of `source`: one more than the number of line feeds
    /// before it, and one more than the number of bytes between the last of them and it.
    pub fn new(source: &[u8], byte: usize) -> (r: ErrorPos)
        requires
            byte <= source@.len() < usize::MAX,
        ensures
            r == error_pos(source@, byte as int),
    {
        let mut lines: usize = 0;
        let mut col: usize = 0;
        let mut i: usize = 0;
        while i < byte
            invariant
                i <= byte <= source@.len() < usize::MAX,
                lines == newline_count(source@.subrange(0, i as int)),
                col == trailing_column(source@.subrange(0, i as int)),
                lines <= i,
                col <= i,
            decreases byte - i,
        {
            assert(source@.subrange(0, i + 1).drop_last() == source@.subrange(0, i as int));
            if source[i] == 10u8 {
                lines = lines + 1;
                col = 0;
            } else {
                col = col + 1;
            }
            i = i + 1;
        }
        ErrorPos { line: lines + 1, col: col + 1 }
    }
}

/// A name with an optional namespace prefix, as in `prefix:local`.
#[derive(Debug, Clone, Copy)]
pub struct QName<'a> {
    pub prefix: Span<'a>,
    pub local: Span<'a>,
    pub span: Span<'a>,
}

} // verus!
