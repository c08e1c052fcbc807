//! The source text, and how its byte offsets relate to its characters.

use super::decode::{char_at, tail_at, width_at};
use super::location::{encoded_width, Span};
use vstd::prelude::*;
use vstd::string::*;
use vstd::utf8::*;

verus! {

/// The number of characters of `text` whose encoding lies before byte
/// `offset` of the encoded text.
pub open spec fn char_index(text: Seq<char>, offset: int) -> nat {
    decode_utf8(encode_utf8(text).subrange(0, offset)).len()
}

/// Whether byte `offset` of the encoded text is where a character begins
/// or where the text ends.
pub open spec fn is_boundary(text: Seq<char>, offset: int) -> bool {
    is_char_boundary(encode_utf8(text), offset)
}

/// Whether `span` lies on `text`: it does not end before it starts, and
/// both its ends are character boundaries of the text.
pub open spec fn lies_on(span: Span, text: Seq<char>) -> bool {
    &&& span.is_ordered()
    &&& is_boundary(text, span.start.offset as int)
    &&& is_boundary(text, span.end.offset as int)
}

/// The characters of `text` that `span` covers: those whose bytes lie
/// between its two offsets.
pub open spec fn covered(span: Span, text: Seq<char>) -> Seq<char> {
    text.subrange(
        char_index(text, span.start.offset as int) as int,
        char_index(text, span.end.offset as int) as int,
    )
}

/// A character boundary splits the text as it splits the bytes: the bytes
/// before it encode the characters before it, and the bytes from it on
/// encode the rest.
pub proof fn lemma_boundary_splits(text: Seq<char>, offset: int)
    requires
        is_boundary(text, offset),
    ensures
        0 <= offset <= encode_utf8(text).len(),
        char_index(text, offset) <= text.len(),
        encode_utf8(text.take(char_index(text, offset) as int)) == encode_utf8(text).subrange(
            0,
            offset,
        ),
        decode_utf8(tail_at(encode_utf8(text), offset)) == text.skip(
            char_index(text, offset) as int,
        ),
        valid_utf8(tail_at(encode_utf8(text), offset)),
{
    broadcast use group_utf8_lib;

    let bytes = encode_utf8(text);
    let head = bytes.subrange(0, offset);
    let tail = tail_at(bytes, offset);
    if offset != 0 {
        assert(0 < offset <= bytes.len());
    }
    valid_utf8_split(bytes, offset);
    decode_utf8_split(bytes, offset);
    assert(text =~= decode_utf8(head) + decode_utf8(tail));
    assert(text.take(char_index(text, offset) as int) =~= decode_utf8(head));
    assert(text.skip(char_index(text, offset) as int) =~= decode_utf8(tail));
    decode_utf8_encode_utf8(head);
}

/// The two ends of the text are boundaries, and the only boundary behind
/// every character is the end of the bytes.
pub proof fn lemma_boundary_ends(text: Seq<char>)
    ensures
        is_boundary(text, 0),
        char_index(text, 0) == 0,
        is_boundary(text, encode_utf8(text).len() as int),
        char_index(text, encode_utf8(text).len() as int) == text.len(),
        forall|offset: int| #[trigger]
            is_boundary(text, offset) && char_index(text, offset) == text.len() ==> offset
                == encode_utf8(text).len(),
{
    broadcast use group_utf8_lib;

    let bytes = encode_utf8(text);
    assert(bytes.subrange(0, 0) =~= Seq::<u8>::empty());
    assert(bytes.subrange(0, bytes.len() as int) =~= bytes);
    assert forall|offset: int| #[trigger]
        is_boundary(text, offset) && char_index(text, offset) == text.len() implies offset
        == bytes.len() by {
        lemma_boundary_splits(text, offset);
        assert(text.take(text.len() as int) =~= text);
    }
}

/// From a boundary before the end of the text, the next boundary lies
/// behind the encoding of the character that begins there, and that
/// character is the next one of the text.
pub proof fn lemma_boundary_step(text: Seq<char>, offset: int)
    requires
        is_boundary(text, offset),
        offset < encode_utf8(text).len(),
    ensures
        char_index(text, offset) < text.len(),
        text[char_index(text, offset) as int] == char_at(encode_utf8(text), offset),
        width_at(encode_utf8(text), offset) == encoded_width(
            text[char_index(text, offset) as int],
        ),
        1 <= width_at(encode_utf8(text), offset) <= 4,
        offset + width_at(encode_utf8(text), offset) <= encode_utf8(text).len(),
        is_boundary(text, offset + width_at(encode_utf8(text), offset)),
        char_index(text, offset + width_at(encode_utf8(text), offset)) == char_index(text, offset)
            + 1,
{
    broadcast use group_utf8_lib;

    let bytes = encode_utf8(text);
    let tail = tail_at(bytes, offset);
    let width = width_at(bytes, offset);
    let k = char_index(text, offset);
    lemma_boundary_splits(text, offset);
    assert(valid_first_scalar(tail));
    let rest = pop_first_scalar(tail);
    assert(valid_utf8(rest));
    assert(rest =~= tail_at(bytes, offset + width));
    assert(decode_utf8(tail) == seq![char_at(bytes, offset)] + decode_utf8(rest));
    assert(text.skip(k as int)[0] == char_at(bytes, offset));
    decode_utf8_first_scalar(tail);
    assert(take_first_scalar(tail).len() == width);
    // the next boundary
    if offset + width < bytes.len() {
        assert(rest.len() > 0);
        assert(valid_first_scalar(rest));
        assert(rest[0] == bytes[offset + width]);
        is_char_boundary_iff_not_is_continuation_byte(bytes, offset + width);
    } else {
        is_char_boundary_start_end_of_seq(bytes);
    }
    lemma_boundary_splits(text, offset + width);
    let k2 = char_index(text, offset + width);
    assert(text.skip(k as int) == seq![char_at(bytes, offset)] + text.skip(k2 as int));
    assert(text.skip(k as int).len() == 1 + text.skip(k2 as int).len());
}

/// Between two boundaries lie the bytes of the characters between them.
pub proof fn lemma_boundary_between(text: Seq<char>, from: int, to: int)
    requires
        is_boundary(text, from),
        is_boundary(text, to),
        from <= to,
    ensures
        char_index(text, from) <= char_index(text, to) <= text.len(),
        is_char_boundary(encode_utf8(text).subrange(0, to), from),
        valid_utf8(encode_utf8(text).subrange(from, to)),
        decode_utf8(encode_utf8(text).subrange(from, to)) == text.subrange(
            char_index(text, from) as int,
            char_index(text, to) as int,
        ),
{
    broadcast use group_utf8_lib;

    let bytes = encode_utf8(text);
    let head = bytes.subrange(0, to);
    lemma_boundary_splits(text, from);
    lemma_boundary_splits(text, to);
    valid_utf8_split(bytes, to);
    if from < to {
        assert(head[from] == bytes[from]);
        is_char_boundary_iff_not_is_continuation_byte(bytes, from);
        is_char_boundary_iff_not_is_continuation_byte(head, from);
    } else {
        is_char_boundary_start_end_of_seq(head);
    }
    valid_utf8_split(head, from);
    decode_utf8_split(head, from);
    assert(head.subrange(0, from) =~= bytes.subrange(0, from));
    assert(head.subrange(from, head.len() as int) =~= bytes.subrange(from, to));
    let before = decode_utf8(bytes.subrange(0, from));
    let inside = decode_utf8(bytes.subrange(from, to));
    assert(decode_utf8(head) =~= before + inside);
    assert(text.take(char_index(text, to) as int) =~= decode_utf8(head)) by {
        decode_utf8_split(bytes, to);
        assert(text =~= decode_utf8(head) + decode_utf8(tail_at(bytes, to)));
    }
    assert(inside =~= text.subrange(char_index(text, from) as int, char_index(text, to) as int));
}

/// Boundaries stand in the order of the characters they stand before.
pub proof fn lemma_boundary_order(text: Seq<char>, from: int, to: int)
    requires
        is_boundary(text, from),
        is_boundary(text, to),
    ensures
        from < to <==> char_index(text, from) < char_index(text, to),
        from == to <==> char_index(text, from) == char_index(text, to),
{
    broadcast use group_utf8_lib;

    if from < to {
        lemma_boundary_between(text, from, to);
        let inside = encode_utf8(text).subrange(from, to);
        assert(valid_first_scalar(inside));
        assert(decode_utf8(inside).len() > 0);
    } else if to < from {
        lemma_boundary_between(text, to, from);
        let inside = encode_utf8(text).subrange(to, from);
        assert(valid_first_scalar(inside));
        assert(decode_utf8(inside).len() > 0);
    }
}

/// Encoding one text behind another puts the bytes of the one behind the
/// bytes of the other.
pub proof fn lemma_encode_concat(front: Seq<char>, back: Seq<char>)
    ensures
        encode_utf8(front + back) == encode_utf8(front) + encode_utf8(back),
    decreases front.len(),
{
    if front.len() == 0 {
        assert(front + back =~= back);
        assert(encode_utf8(front) + encode_utf8(back) =~= encode_utf8(back));
    } else {
        lemma_encode_concat(front.drop_first(), back);
        assert((front + back).drop_first() =~= front.drop_first() + back);
        assert(encode_utf8(front + back) =~= encode_utf8(front) + encode_utf8(back));
    }
}

/// One text begins with another exactly when its bytes begin with the
/// bytes of the other.
pub proof fn lemma_prefix_by_bytes(literal: Seq<char>, text: Seq<char>)
    ensures
        encode_utf8(literal).is_prefix_of(encode_utf8(text)) <==> literal.is_prefix_of(text),
    decreases literal.len(),
{
    let a = encode_utf8(literal);
    let b = encode_utf8(text);
    if literal.is_prefix_of(text) {
        assert(text =~= literal + text.skip(literal.len() as int));
        lemma_encode_concat(literal, text.skip(literal.len() as int));
        assert(a.is_prefix_of(b));
    }
    if a.is_prefix_of(b) {
        if literal.len() == 0 {
            assert(literal.is_prefix_of(text));
        } else {
            encode_utf8_first_scalar(literal);
            assert(b.len() > 0);
            assert(text.len() > 0);
            encode_utf8_first_scalar(text);
            let width = length_of_first_scalar(a);
            assert(a[0] == b[0]);
            assert(length_of_first_scalar(b) == width);
            assert(width <= a.len());
            assert(forall|i: int| 0 <= i < width ==> a[i] == b[i]);
            assert(decode_first_scalar(a) == decode_first_scalar(b));
            char_u32_cast(literal[0], decode_first_scalar(a));
            char_u32_cast(text[0], decode_first_scalar(b));
            assert(literal[0] == text[0]);
            assert(a.subrange(width, a.len() as int) =~= encode_utf8(literal.drop_first()));
            assert(b.subrange(width, b.len() as int) =~= encode_utf8(text.drop_first()));
            assert(encode_utf8(literal.drop_first()).is_prefix_of(encode_utf8(text.drop_first())));
            lemma_prefix_by_bytes(literal.drop_first(), text.drop_first());
            assert forall|i: int| 0 <= i < literal.len() implies literal[i] == text[i] by {
                if i > 0 {
                    assert(literal.drop_first()[i - 1] == text.drop_first()[i - 1]);
                }
            }
            assert(literal =~= text.subrange(0, literal.len() as int));
        }
    }
}

/// `String::from` of std on a string slice, which [`Document::new`]
/// reaches when it is given one: the string holds the characters of the
/// slice.
pub assume_specification<'a>[ <String as From<&'a str>>::from ](text: &str) -> (owned: String)
    ensures
        owned@ == text@,
;

/// A source text. The text is valid UTF-8 and never changes, so any
/// number of windows may read one document.
pub struct Document {
    pub text: String,
}

impl View for Document {
    type V = Seq<char>;

    open spec fn view(&self) -> Seq<char> {
        self.text@
    }
}

impl Document {
    /// The bytes of the text.
    pub open spec fn bytes(&self) -> Seq<u8> {
        encode_utf8(self@)
    }

    /// Makes a document of what `text` converts into.
    pub fn new<S: Into<String>>(text: S) -> (document: Document)
        ensures
            call_ensures(S::into, (text,), document.text),
    {
        Document { text: text.into() }
    }

    /// The text between the two ends of `sp`, which must lie in order on
    /// character boundaries of the text.
    pub fn text_at(&self, sp: Span) -> (slice: &str)
        requires
            lies_on(sp, self@),
        ensures
            slice@ == covered(sp, self@),
            slice.spec_bytes() == self.bytes().subrange(
                sp.start.offset as int,
                sp.end.offset as int,
            ),
    {
        broadcast use group_utf8_lib;

        proof {
            lemma_boundary_between(self@, sp.start.offset as int, sp.end.offset as int);
        }
        let (head, _) = self.text.as_str().split_at(sp.end.offset);
        let (_, slice) = head.split_at(sp.start.offset);
        proof {
            assert(slice.spec_bytes() =~= self.bytes().subrange(
                sp.start.offset as int,
                sp.end.offset as int,
            ));
            assert(slice@ == decode_utf8(slice.spec_bytes()));
        }
        slice
    }
}

} // verus!
