//! The forward-only cursor over a document.

use super::decode::{read_char, tail_at};
use super::document::{
    char_index, is_boundary, lemma_boundary_between, lemma_boundary_ends, lemma_boundary_order,
    lemma_boundary_splits, lemma_boundary_step, lemma_prefix_by_bytes, lies_on, Document,
};
use super::location::{
    encoded_width, lemma_after_push, lemma_counts_bounded, Location, Span, Spanned, TextError,
};
use super::pattern::CharPattern;
use vstd::prelude::*;
use vstd::slice::slice_subrange;
use vstd::string::*;
use vstd::utf8::*;

verus! {

/// What a window is, in characters: the text of its document, the index of
/// the first character that has not been committed, and the index of the
/// next character to read.
pub struct WindowView {
    pub text: Seq<char>,
    pub start: nat,
    pub end: nat,
}

impl WindowView {
    /// The two indices lie in order within the text.
    pub open spec fn wf(self) -> bool {
        self.start <= self.end <= self.text.len()
    }

    /// The span from the location of `start` to the location of `end`.
    pub open spec fn span(self) -> Span {
        Span {
            start: Location::after(self.text.take(self.start as int)),
            end: Location::after(self.text.take(self.end as int)),
        }
    }

    /// Whether `span` is the span of this window in the text itself: it
    /// is [`WindowView::span`], it lies on the text, and its two offsets
    /// are those of the characters at `start` and `end`.
    pub open spec fn is_at(self, span: Span) -> bool {
        &&& span == self.span()
        &&& lies_on(span, self.text)
        &&& char_index(self.text, span.start.offset as int) == self.start
        &&& char_index(self.text, span.end.offset as int) == self.end
    }

    /// The characters read since the last commit.
    pub open spec fn content(self) -> Seq<char> {
        self.text.subrange(self.start as int, self.end as int)
    }

    /// The characters not yet read.
    pub open spec fn remaining(self) -> Seq<char> {
        self.text.skip(self.end as int)
    }

    /// The window with `count` more characters read.
    pub open spec fn forward(self, count: nat) -> WindowView {
        WindowView { text: self.text, start: self.start, end: self.end + count }
    }

    /// The window with its last `count` characters not read.
    pub open spec fn backward(self, count: nat) -> WindowView {
        WindowView { text: self.text, start: self.start, end: (self.end - count) as nat }
    }

    /// The window with everything read so far committed.
    pub open spec fn advanced(self) -> WindowView {
        WindowView { text: self.text, start: self.end, end: self.end }
    }
}

/// A cursor over a document. It reads forward one character at a time and
/// keeps the span of what it has read since the last commit.
pub struct Window<'a> {
    document: &'a Document,
    span: Span,
}

impl<'a> View for Window<'a> {
    type V = WindowView;

    closed spec fn view(&self) -> WindowView {
        WindowView {
            text: self.document@,
            start: char_index(self.document@, self.span.start.offset as int),
            end: char_index(self.document@, self.span.end.offset as int),
        }
    }
}

impl<'a> Window<'a> {
    /// Both ends of the span lie in order on character boundaries of the
    /// document, and carry the line and column of the characters before
    /// them.
    #[verifier::type_invariant]
    pub closed spec fn inv(&self) -> bool {
        &&& is_boundary(self.document@, self.span.start.offset as int)
        &&& is_boundary(self.document@, self.span.end.offset as int)
        &&& self.span.start.offset <= self.span.end.offset
        &&& self.span == self@.span()
    }

    /// What the invariant means for the view.
    proof fn lemma_inv(&self)
        requires
            self.inv(),
        ensures
            self@.wf(),
            self@.end == self@.text.len() <==> self.span.end.offset == self.document.bytes().len(),
            self.span.end.offset <= self.document.bytes().len(),
    {
        lemma_boundary_between(
            self.document@,
            self.span.start.offset as int,
            self.span.end.offset as int,
        );
        lemma_boundary_ends(self.document@);
        lemma_boundary_splits(self.document@, self.span.end.offset as int);
    }

    /// A window at the start of `document`, with nothing read.
    pub fn new(document: &'a Document) -> (window: Window<'a>)
        ensures
            window@ == (WindowView { text: document@, start: 0, end: 0 }),
    {
        proof {
            lemma_boundary_ends(document@);
            assert(document@.take(0) =~= Seq::<char>::empty());
            assert(encode_utf8(Seq::<char>::empty()) =~= Seq::<u8>::empty());
        }
        Window { document, span: Span::zero() }
    }

    /// The text read since the last commit.
    pub fn content(&self) -> (content: &str)
        ensures
            content@ == self@.content(),
    {
        proof {
            use_type_invariant(self);
        }
        self.document.text_at(self.span)
    }

    /// The span of the text read since the last commit.
    pub fn span(&self) -> (span: Span)
        ensures
            self@.is_at(span),
            self@.wf(),
    {
        proof {
            use_type_invariant(self);
            self.lemma_inv();
        }
        self.span
    }

    /// The next character with the offset behind it, if there is one.
    fn read(&self) -> (read: Option<(char, usize)>)
        ensures
            self@.wf(),
            match read {
                Some((c, end)) => {
                    &&& self@.end < self@.text.len()
                    &&& c == self@.text[self@.end as int]
                    &&& end == self.span.end.offset + encoded_width(c)
                    &&& is_boundary(self.document@, end as int)
                    &&& char_index(self.document@, end as int) == self@.end + 1
                },
                None => self@.end == self@.text.len(),
            },
    {
        proof {
            use_type_invariant(self);
            self.lemma_inv();
        }
        let text = self.document.text.as_str();
        if self.span.end.offset >= text.as_bytes().len() {
            None
        } else {
            proof {
                lemma_boundary_step(self.document@, self.span.end.offset as int);
            }
            match read_char(text, self.span.end.offset) {
                Ok((c, end)) => Some((c, end)),
                Err(_) => None,
            }
        }
    }

    /// Reads `count` characters, or as many as are left.
    pub fn take_many(&mut self, count: usize) -> (taken: Result<(), TextError>)
        ensures
            final(self)@.wf(),
            taken == if count <= old(self)@.remaining().len() {
                Ok::<(), TextError>(())
            } else {
                Err::<(), TextError>(TextError::OutOfBounds)
            },
            final(self)@ == old(self)@.forward(
                if count <= old(self)@.remaining().len() {
                    count as nat
                } else {
                    old(self)@.remaining().len()
                },
            ),
    {
        proof {
            use_type_invariant(&*self);
            self.lemma_inv();
        }
        let mut done: usize = 0;
        while done < count
            invariant
                done <= count,
                old(self)@.wf(),
                done <= old(self)@.remaining().len(),
                self@ == old(self)@.forward(done as nat),
            decreases count - done,
        {
            match self.take() {
                Ok(_) => {},
                Err(e) => {
                    return Err(e);
                },
            }
            done = done + 1;
        }
        Ok(())
    }

    /// Reads the next character: the end of the span moves behind it.
    /// Fails, and reads nothing, at the end of the text.
    pub fn take(&mut self) -> (taken: Result<char, TextError>)
        ensures
            final(self)@.wf(),
            taken == if old(self)@.end < old(self)@.text.len() {
                Ok::<char, TextError>(old(self)@.text[old(self)@.end as int])
            } else {
                Err::<char, TextError>(TextError::OutOfBounds)
            },
            final(self)@ == if old(self)@.end < old(self)@.text.len() {
                old(self)@.forward(1)
            } else {
                old(self)@
            },
    {
        match self.read() {
            None => Err(TextError::OutOfBounds),
            Some((c, end)) => {
                proof {
                    use_type_invariant(&*self);
                    let text = self.document@;
                    let k = self@.end as int;
                    lemma_boundary_splits(text, end as int);
                    assert(text.take(k + 1) =~= text.take(k).push(c));
                    lemma_after_push(text.take(k), c);
                    lemma_boundary_splits(text, self.span.end.offset as int);
                }
                self.span = self.span.expand(c);
                Ok(c)
            },
        }
    }

    /// The next character, if the text has not ended.
    pub fn next(&self) -> (next: Option<char>)
        ensures
            self@.wf(),
            next == if self@.end < self@.text.len() {
                Some(self@.text[self@.end as int])
            } else {
                None
            },
    {
        match self.read() {
            Some((c, _)) => Some(c),
            None => None,
        }
    }

    /// Whether there is a next character and it matches `pattern`.
    pub fn peek<P: CharPattern>(&self, pattern: P) -> (found: bool)
        requires
            pattern.usable(),
        ensures
            self@.wf(),
            self@.end == self@.text.len() ==> !found,
            self@.end < self@.text.len() ==> pattern.answers(self@.text[self@.end as int], found),
    {
        self.next_matches(&pattern)
    }

    fn next_matches<P: CharPattern>(&self, pattern: &P) -> (found: bool)
        requires
            pattern.usable(),
        ensures
            self@.wf(),
            self@.end == self@.text.len() ==> !found,
            self@.end < self@.text.len() ==> pattern.answers(self@.text[self@.end as int], found),
    {
        match self.next() {
            None => false,
            Some(c) => pattern.matches(c),
        }
    }

    /// Up to `count` bytes of the text not yet read: fewer where the text
    /// ends before. The bytes need not end on a character boundary.
    pub fn lookahead(&self, count: usize) -> (bytes: &[u8])
        ensures
            self@.wf(),
            bytes@ == encode_utf8(self@.remaining()).take(
                if count <= encode_utf8(self@.remaining()).len() {
                    count as int
                } else {
                    encode_utf8(self@.remaining()).len() as int
                },
            ),
    {
        broadcast use group_utf8_lib;

        proof {
            use_type_invariant(self);
            self.lemma_inv();
            lemma_boundary_splits(self.document@, self.span.end.offset as int);
        }
        let all = self.document.text.as_str().as_bytes();
        let from = self.span.end.offset;
        let to = if count > all.len() - from {
            all.len()
        } else {
            from + count
        };
        let bytes = slice_subrange(all, from, to);
        proof {
            let rest = tail_at(self.document.bytes(), from as int);
            assert(encode_utf8(self@.remaining()) == rest);
            assert(bytes@ =~= rest.take(to - from));
        }
        bytes
    }

    /// Whether the text not yet read begins with `literal`, which is
    /// tested byte by byte against the bytes ahead.
    pub fn peek_str(&self, literal: &str) -> (found: bool)
        ensures
            self@.wf(),
            found == literal@.is_prefix_of(self@.remaining()),
    {
        let wanted = literal.as_bytes();
        let ahead = self.lookahead(wanted.len());
        let ghost rest = encode_utf8(self@.remaining());
        proof {
            lemma_prefix_by_bytes(literal@, self@.remaining());
        }
        if ahead.len() != wanted.len() {
            return false;
        }
        let mut i: usize = 0;
        while i < wanted.len()
            invariant
                self@.wf(),
                wanted@.is_prefix_of(rest) <==> literal@.is_prefix_of(self@.remaining()),
                ahead@ == rest.take(wanted@.len() as int),
                i <= wanted@.len() == ahead@.len() <= rest.len(),
                forall|j: int| 0 <= j < i ==> wanted@[j] == ahead@[j],
            decreases wanted@.len() - i,
        {
            if wanted[i] != ahead[i] {
                return false;
            }
            i = i + 1;
        }
        proof {
            assert(wanted@ =~= ahead@);
        }
        true
    }

    /// Reads characters as long as they match `pattern`, and stops before
    /// the first that does not, or at the end of the text.
    pub fn take_while<P: CharPattern>(&mut self, pattern: P) -> (taken: Result<(), TextError>)
        requires
            pattern.usable(),
        ensures
            taken == Ok::<(), TextError>(()),
            final(self)@.wf(),
            final(self)@.text == old(self)@.text,
            final(self)@.start == old(self)@.start,
            old(self)@.end <= final(self)@.end,
            forall|i: int|
                old(self)@.end <= i < final(self)@.end ==> pattern.answers(
                    #[trigger] old(self)@.text[i],
                    true,
                ),
            final(self)@.end < old(self)@.text.len() ==> pattern.answers(
                old(self)@.text[final(self)@.end as int],
                false,
            ),
            old(self)@.end == old(self)@.text.len() || !pattern.answers(
                old(self)@.text[old(self)@.end as int],
                true,
            ) ==> final(self)@ == old(self)@,
    {
        proof {
            use_type_invariant(&*self);
            self.lemma_inv();
        }
        loop
            invariant
                pattern.usable(),
                self@.wf(),
                self@.text == old(self)@.text,
                self@.start == old(self)@.start,
                old(self)@.end <= self@.end,
                forall|i: int|
                    old(self)@.end <= i < self@.end ==> pattern.answers(
                        #[trigger] old(self)@.text[i],
                        true,
                    ),
            decreases self@.text.len() - self@.end,
        {
            if !self.next_matches(&pattern) {
                return Ok(());
            }
            match self.take() {
                Ok(_) => {},
                Err(e) => {
                    return Err(e);
                },
            }
        }
    }

    /// Reads characters until one matches `pattern`, and stops before it.
    /// Fails at the end of the text, with all of it read, when none does.
    pub fn take_until<P: CharPattern>(&mut self, pattern: P) -> (taken: Result<(), TextError>)
        requires
            pattern.usable(),
        ensures
            final(self)@.wf(),
            final(self)@.text == old(self)@.text,
            final(self)@.start == old(self)@.start,
            old(self)@.end <= final(self)@.end,
            forall|i: int|
                old(self)@.end <= i < final(self)@.end ==> pattern.answers(
                    #[trigger] old(self)@.text[i],
                    false,
                ),
            final(self)@.end < old(self)@.text.len() ==> taken == Ok::<(), TextError>(())
                && pattern.answers(old(self)@.text[final(self)@.end as int], true),
            final(self)@.end == old(self)@.text.len() ==> taken == Err::<(), TextError>(
                TextError::OutOfBounds,
            ),
            old(self)@.end < old(self)@.text.len() && !pattern.answers(
                old(self)@.text[old(self)@.end as int],
                false,
            ) ==> final(self)@ == old(self)@,
    {
        proof {
            use_type_invariant(&*self);
            self.lemma_inv();
        }
        loop
            invariant
                pattern.usable(),
                self@.wf(),
                self@.text == old(self)@.text,
                self@.start == old(self)@.start,
                old(self)@.end <= self@.end,
                forall|i: int|
                    old(self)@.end <= i < self@.end ==> pattern.answers(
                        #[trigger] old(self)@.text[i],
                        false,
                    ),
            decreases self@.text.len() - self@.end,
        {
            if self.next_matches(&pattern) {
                return Ok(());
            }
            match self.take() {
                Ok(_) => {},
                Err(e) => {
                    return Err(e);
                },
            }
        }
    }

    /// Takes back the last `count` characters that were read.
    ///
    /// Only what was read since the last commit can be taken back: where
    /// `count` is more than that, the call fails and the window stays as it
    /// is. Line and column of the new end are counted anew by reading the
    /// kept characters again from the start of the span.
    pub fn backtrack(&mut self, count: usize) -> (undone: Result<(), TextError>)
        ensures
            old(self)@.wf(),
            undone == if count <= old(self)@.content().len() {
                Ok::<(), TextError>(())
            } else {
                Err::<(), TextError>(TextError::OutOfBounds)
            },
            final(self)@ == if count <= old(self)@.content().len() {
                old(self)@.backward(count as nat)
            } else {
                old(self)@
            },
    {
        proof {
            use_type_invariant(&*self);
            self.lemma_inv();
            lemma_boundary_splits(self.document@, self.span.end.offset as int);
            lemma_counts_bounded(self@.text.take(self@.end as int));
        }
        let start = Span::new(self.span.start, self.span.start);
        let mut probe = Window { document: self.document, span: start };
        let mut read: usize = 0;
        while probe.span.end.offset < self.span.end.offset
            invariant
                self.inv(),
                self@.wf(),
                probe.document@ == self.document@,
                probe@.start == self@.start,
                self@.end <= self.span.end.offset,
                self@.start <= probe@.end <= self@.end,
                read == probe@.end - self@.start,
                probe.span.end.offset <= self.span.end.offset,
            decreases self@.end - probe@.end,
        {
            proof {
                use_type_invariant(&probe);
                lemma_boundary_order(
                    self.document@,
                    probe.span.end.offset as int,
                    self.span.end.offset as int,
                );
                lemma_boundary_splits(self.document@, self.span.end.offset as int);
            }
            match probe.take() {
                Ok(_) => {},
                Err(e) => {
                    return Err(e);
                },
            }
            proof {
                use_type_invariant(&probe);
                lemma_boundary_order(
                    self.document@,
                    probe.span.end.offset as int,
                    self.span.end.offset as int,
                );
                lemma_boundary_splits(self.document@, probe.span.end.offset as int);
            }
            read = read + 1;
        }
        proof {
            use_type_invariant(&probe);
            lemma_boundary_order(
                self.document@,
                probe.span.end.offset as int,
                self.span.end.offset as int,
            );
        }
        if count > read {
            return Err(TextError::OutOfBounds);
        }
        let mut kept = Window { document: self.document, span: start };
        match kept.take_many(read - count) {
            Ok(_) => {},
            Err(e) => {
                return Err(e);
            },
        }
        proof {
            use_type_invariant(&kept);
        }
        self.span = kept.span;
        Ok(())
    }

    /// Commits what has been read: returns its span, and leaves the window
    /// with an empty span at the read position.
    pub fn advance(&mut self) -> (span: Span)
        ensures
            old(self)@.is_at(span),
            old(self)@.wf(),
            final(self)@ == old(self)@.advanced(),
    {
        proof {
            use_type_invariant(&*self);
            self.lemma_inv();
        }
        let span = self.span;
        self.span = Span::new(span.end, span.end);
        span
    }

    /// Commits what has been read and pairs its span with `value`.
    pub fn complete<T>(&mut self, value: T) -> (spanned: Spanned<T>)
        ensures
            spanned.value == value,
            old(self)@.is_at(spanned.span),
            old(self)@.wf(),
            final(self)@ == old(self)@.advanced(),
    {
        Spanned::new(value, self.advance())
    }
}

} // verus!
