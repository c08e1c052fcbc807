//! Locations, spans and the values that carry a span.

use vstd::prelude::*;
use vstd::std_specs::convert::FromSpecImpl;
use vstd::utf8::*;

verus! {

/// Why a character could not be read from a text.
#[derive(Copy, Clone, Debug, PartialEq, Eq, Structural)]
pub enum TextError {
    /// The byte at the read position cannot begin a UTF-8 scalar value.
    InvalidUtf8Value(u8),
    /// There is no character left at the read position.
    OutOfBounds,
}

/// A position in a text: `offset` counts bytes from the start, `line` counts
/// the line feeds before the position, and `column` counts the characters
/// (not bytes) since the last line feed.
#[derive(Copy, Clone, PartialEq, Eq, Debug, Structural)]
pub struct Location {
    pub offset: usize,
    pub column: usize,
    pub line: usize,
}

impl Location {
    /// The origin, as a specification value.
    pub open spec fn spec_zero() -> Location {
        Location { offset: 0, column: 0, line: 0 }
    }

    /// The origin `(0, 0, 0)`.
    #[verifier::when_used_as_spec(spec_zero)]
    pub fn zero() -> (loc: Location)
        ensures
            loc == Location::spec_zero(),
    {
        Location { offset: 0, column: 0, line: 0 }
    }

    /// The location at byte `offset`, on `line`, in `column`.
    pub fn new(offset: usize, line: usize, column: usize) -> (loc: Location)
        ensures
            loc == (Location { offset, column, line }),
    {
        Location { offset, column, line }
    }

    /// The location reached from the origin by reading the characters
    /// `read`: as many bytes on as encode them, on the line that their line
    /// feeds lead to, in the column that the characters behind the last line
    /// feed lead to.
    pub open spec fn after(read: Seq<char>) -> Location {
        Location {
            offset: encode_utf8(read).len() as usize,
            column: trailing_chars(read) as usize,
            line: line_feeds(read) as usize,
        }
    }

    /// The location one character further on: behind the bytes of `c`, and
    /// either in the next column or, behind a line feed, at the start of
    /// the next line.
    pub open spec fn stepped(self, c: char) -> Location {
        if c == '\n' {
            Location {
                offset: (self.offset + encoded_width(c)) as usize,
                column: 0,
                line: (self.line + 1) as usize,
            }
        } else {
            Location {
                offset: (self.offset + encoded_width(c)) as usize,
                column: (self.column + 1) as usize,
                line: self.line,
            }
        }
    }

    /// Whether one more character can be counted without leaving `usize`.
    pub open spec fn has_room(self, c: char) -> bool {
        &&& self.offset + encoded_width(c) <= usize::MAX
        &&& self.line + 1 <= usize::MAX
        &&& self.column + 1 <= usize::MAX
    }
}

impl FromSpecImpl<Location> for (usize, usize, usize) {
    open spec fn obeys_from_spec() -> bool {
        true
    }

    open spec fn from_spec(l: Location) -> (usize, usize, usize) {
        (l.offset, l.line, l.column)
    }
}

/// `(offset, line, column)` of a location.
impl From<Location> for (usize, usize, usize) {
    fn from(l: Location) -> (usize, usize, usize) {
        (l.offset, l.line, l.column)
    }
}

impl FromSpecImpl<(usize, usize, usize)> for Location {
    open spec fn obeys_from_spec() -> bool {
        true
    }

    open spec fn from_spec(t: (usize, usize, usize)) -> Location {
        Location { offset: t.0, column: t.2, line: t.1 }
    }
}

/// The location with the given `(offset, line, column)`.
impl From<(usize, usize, usize)> for Location {
    fn from(t: (usize, usize, usize)) -> Location {
        Location::new(t.0, t.1, t.2)
    }
}

/// The number of bytes that encode `c` in UTF-8, between 1 and 4.
pub fn utf8_len(c: char) -> (width: usize)
    ensures
        width == encoded_width(c),
        1 <= width <= 4,
{
    let code = c as u32;
    if code < 0x80 {
        1
    } else if code < 0x800 {
        2
    } else if code < 0x10000 {
        3
    } else {
        4
    }
}

/// The error of joining two spans of which the second does not begin where
/// the first ends.
#[derive(Copy, Clone, Debug, PartialEq, Eq, Structural)]
pub struct NonContiguousSpansError;

/// The half-open range of a text between two locations.
#[derive(Copy, Clone, Eq, PartialEq, Debug, Structural)]
pub struct Span {
    pub start: Location,
    pub end: Location,
}

impl Span {
    /// The empty span at the origin, as a specification value.
    pub open spec fn spec_zero() -> Span {
        Span { start: Location::spec_zero(), end: Location::spec_zero() }
    }

    /// The empty span at the origin.
    #[verifier::when_used_as_spec(spec_zero)]
    pub fn zero() -> (span: Span)
        ensures
            span == Span::spec_zero(),
    {
        Span { start: Location::zero(), end: Location::zero() }
    }

    /// The span from `start` up to `end`.
    pub fn new(start: Location, end: Location) -> (span: Span)
        ensures
            span == (Span { start, end }),
    {
        Span { start, end }
    }

    /// A span is ordered when it does not end before it starts.
    pub open spec fn is_ordered(self) -> bool {
        self.start.offset <= self.end.offset
    }

    /// The empty span at the end of this one.
    pub open spec fn collapsed(self) -> Span {
        Span { start: self.end, end: self.end }
    }

    /// What [`Span::append`] returns: the span from the start of `self` to
    /// the end of `next` when `next` begins exactly where `self` ends
    /// (offset, line and column all equal), and the error otherwise.
    pub open spec fn joined(self, next: Span) -> Result<Span, NonContiguousSpansError> {
        if self.end == next.start {
            Ok(Span { start: self.start, end: next.end })
        } else {
            Err(NonContiguousSpansError)
        }
    }

    /// This span with its end moved behind one more character.
    pub open spec fn expanded(self, c: char) -> Span {
        Span { start: self.start, end: self.end.stepped(c) }
    }

    /// Moves the end of the span behind the character `c`.
    pub fn expand(&self, c: char) -> (span: Span)
        requires
            self.end.has_room(c),
        ensures
            span == self.expanded(c),
    {
        let end = if c == '\n' {
            Location::new(self.end.offset + utf8_len(c), self.end.line + 1, 0)
        } else {
            Location::new(self.end.offset + utf8_len(c), self.end.line, self.end.column + 1)
        };
        Span { start: self.start, end }
    }

    /// Joins two contiguous spans into one.
    pub fn append(&self, next: Span) -> (joined: Result<Span, NonContiguousSpansError>)
        ensures
            joined == self.joined(next),
    {
        if self.end != next.start {
            Err(NonContiguousSpansError)
        } else {
            Ok(Span::new(self.start, next.end))
        }
    }

    /// Joining spans is associative, failures included: joining `a` to `b`
    /// and the result to `c` gives what joining `a` to the join of `b` and
    /// `c` gives, and the one fails exactly when the other does.
    pub proof fn lemma_append_associative(a: Span, b: Span, c: Span)
        ensures
            (match a.joined(b) {
                Ok(ab) => ab.joined(c),
                Err(e) => Err(e),
            }) == (match b.joined(c) {
                Ok(bc) => a.joined(bc),
                Err(e) => Err(e),
            }),
            a.joined(b) is Ok && b.joined(c) is Ok ==> a.joined(b).unwrap().joined(c) is Ok
                && a.joined(b.joined(c).unwrap()) is Ok && a.joined(b).unwrap().joined(c)
                == a.joined(b.joined(c).unwrap()),
    {
    }

    /// Joining ordered spans gives an ordered span.
    pub proof fn lemma_append_ordered(a: Span, b: Span)
        requires
            a.is_ordered(),
            b.is_ordered(),
            a.joined(b) is Ok,
        ensures
            a.joined(b).unwrap().is_ordered(),
    {
    }
}

/// A value together with the span of text it was derived from.
#[derive(Debug, PartialEq, Eq)]
pub struct Spanned<T> {
    pub value: T,
    pub span: Span,
}

impl<T> Spanned<T> {
    /// Pairs `value` with `span`.
    pub fn new(value: T, span: Span) -> (spanned: Spanned<T>)
        ensures
            spanned.value == value,
            spanned.span == span,
    {
        Spanned { value, span }
    }
}

/// The number of line feeds among the characters `read`.
pub open spec fn line_feeds(read: Seq<char>) -> nat
    decreases read.len(),
{
    if read.len() == 0 {
        0
    } else {
        line_feeds(read.drop_last()) + if read.last() == '\n' {
            1nat
        } else {
            0nat
        }
    }
}

/// The number of characters of `read` behind its last line feed.
pub open spec fn trailing_chars(read: Seq<char>) -> nat
    decreases read.len(),
{
    if read.len() == 0 {
        0
    } else if read.last() == '\n' {
        0
    } else {
        trailing_chars(read.drop_last()) + 1
    }
}

/// The number of bytes that encode `c` in UTF-8.
pub open spec fn encoded_width(c: char) -> nat {
    encode_scalar(c as u32).len()
}

/// Line and column never count more than the characters read, and the
/// characters read never more than their bytes.
pub proof fn lemma_counts_bounded(read: Seq<char>)
    ensures
        line_feeds(read) <= read.len(),
        trailing_chars(read) <= read.len(),
        read.len() <= encode_utf8(read).len(),
    decreases read.len(),
{
    if read.len() > 0 {
        lemma_counts_bounded(read.drop_last());
        lemma_counts_bounded(read.drop_first());
    }
}

/// Encoding one more character appends its bytes.
pub proof fn lemma_encode_push(read: Seq<char>, c: char)
    ensures
        encode_utf8(read.push(c)) == encode_utf8(read) + encode_scalar(c as u32),
    decreases read.len(),
{
    if read.len() == 0 {
        assert(read.push(c).drop_first() =~= Seq::<char>::empty());
        assert(read.push(c)[0] == c);
        assert(encode_utf8(read.push(c).drop_first()) =~= Seq::<u8>::empty());
        assert(encode_utf8(read) =~= Seq::<u8>::empty());
        assert(encode_utf8(read.push(c)) =~= encode_scalar(c as u32));
        assert(encode_utf8(read) + encode_scalar(c as u32) =~= encode_scalar(c as u32));
    } else {
        lemma_encode_push(read.drop_first(), c);
        assert(read.push(c).drop_first() =~= read.drop_first().push(c));
        assert(encode_utf8(read.push(c)) =~= encode_utf8(read) + encode_scalar(c as u32));
    }
}

/// Reading one more character moves the location by one step: the offset
/// by the bytes of the character, and either the column by one or, behind
/// a line feed, the line by one and the column back to 0. This holds as
/// long as the bytes read can be counted in a `usize`.
pub proof fn lemma_after_push(read: Seq<char>, c: char)
    requires
        encode_utf8(read.push(c)).len() <= usize::MAX,
    ensures
        Location::after(read).has_room(c),
        Location::after(read.push(c)) == Location::after(read).stepped(c),
{
    lemma_encode_push(read, c);
    lemma_counts_bounded(read);
    lemma_counts_bounded(read.push(c));
    assert(read.push(c).drop_last() =~= read);
}

} // verus!
