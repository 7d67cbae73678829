use std::str::Chars;
use vstd::prelude::*;
use vstd::std_specs::iter::IteratorSpec;
use vstd::string::*;
use vstd::utf8::*;

verus! {

/// The number of bytes that the first `i` characters of `s` take up in UTF-8.
pub open spec fn byte_offset(s: Seq<char>, i: int) -> nat {
    encode_utf8(s.take(i)).len()
}

/// The number of bytes that `c` takes up in UTF-8.
pub open spec fn char_width(c: char) -> nat {
    encode_scalar(c as u32).len()
}

/// The encoding of a text is the encoding of its front followed by that of its back.
pub proof fn lemma_encode_concat(a: Seq<char>, b: Seq<char>)
    ensures
        encode_utf8(a + b) == encode_utf8(a) + encode_utf8(b),
    decreases a.len(),
{
    if a.len() > 0 {
        lemma_encode_concat(a.drop_first(), b);
        assert((a + b).drop_first() == a.drop_first() + b);
    }
}

/// The offset of a position is that of the position before it and the width of the
/// character between them.
pub proof fn lemma_byte_offset_step(s: Seq<char>, i: int)
    requires
        0 <= i < s.len(),
    ensures
        byte_offset(s, i + 1) == byte_offset(s, i) + char_width(s[i]),
{
    let one = seq![s[i]];
    assert(s.take(i + 1) == s.take(i) + one);
    lemma_encode_concat(s.take(i), one);
    assert(encode_utf8(one.drop_first()) == Seq::<u8>::empty());
}

/// Offsets rise with positions, by a byte or more for each character.
pub proof fn lemma_byte_offset_rises(s: Seq<char>, i: int, j: int)
    requires
        0 <= i <= j <= s.len(),
    ensures
        byte_offset(s, i) + (j - i) <= byte_offset(s, j),
    decreases j - i,
{
    if i < j {
        lemma_byte_offset_rises(s, i, j - 1);
        lemma_byte_offset_step(s, j - 1);
    }
}

/// The offset of a position is a character boundary of the encoded text.
pub proof fn lemma_byte_offset_is_boundary(s: Seq<char>, i: int)
    requires
        0 <= i <= s.len(),
    ensures
        is_char_boundary(encode_utf8(s), byte_offset(s, i) as int),
    decreases i,
{
    let bytes = encode_utf8(s);
    encode_utf8_valid_utf8(s);
    if i > 0 {
        let rest = s.drop_first();
        encode_utf8_first_scalar(s);
        assert(pop_first_scalar(bytes) =~= encode_utf8(rest));
        lemma_byte_offset_is_boundary(rest, i - 1);
        assert(s.take(i) == seq![s[0]] + rest.take(i - 1));
        lemma_encode_concat(seq![s[0]], rest.take(i - 1));
        lemma_byte_offset_step(s, 0);
        assert(s.take(1) == seq![s[0]]);
    }
}

/// Texts with the same encoding are the same.
pub proof fn lemma_encode_is_injective(a: Seq<char>, b: Seq<char>)
    requires
        encode_utf8(a) == encode_utf8(b),
    ensures
        a == b,
{
    encode_utf8_decode_utf8(a);
    encode_utf8_decode_utf8(b);
}

/// The number of bytes that `c` takes up in UTF-8.
pub fn width_of(c: char) -> (width: usize)
    ensures
        width == char_width(c),
        1 <= width <= 4,
{
    let u: u32 = c as u32;
    if u <= 0x7F {
        1
    } else if u <= 0x7FF {
        2
    } else if u <= 0xFFFF {
        3
    } else {
        4
    }
}

/// The characters of `s` from position `a` up to, not including, position `b`, as a
/// slice of `s`; `from` and `to` are the byte offsets of the two positions.
pub(crate) fn slice_between<'a>(
    s: &'a str,
    a: Ghost<int>,
    b: Ghost<int>,
    from: usize,
    to: usize,
) -> (piece: &'a str)
    requires
        0 <= a@ <= b@ <= s@.len(),
        from == byte_offset(s@, a@),
        to == byte_offset(s@, b@),
    ensures
        piece@ == s@.subrange(a@, b@),
{
    proof {
        lemma_byte_offset_is_boundary(s@, b@);
    }
    let (head, _) = s.split_at(to);
    proof {
        lemma_encode_concat(s@.take(b@), s@.skip(b@));
        assert(s@.take(b@) + s@.skip(b@) == s@);
        assert(encode_utf8(s@).subrange(0, to as int) == encode_utf8(s@.take(b@)));
        lemma_encode_is_injective(head@, s@.take(b@));
        assert(head@.take(a@) == s@.take(a@));
        lemma_byte_offset_is_boundary(head@, a@);
    }
    let (_, piece) = head.split_at(from);
    proof {
        lemma_encode_concat(head@.take(a@), head@.skip(a@));
        assert(head@.take(a@) + head@.skip(a@) == head@);
        assert(encode_utf8(head@).subrange(from as int, encode_utf8(head@).len() as int)
            == encode_utf8(head@.skip(a@)));
        lemma_encode_is_injective(piece@, head@.skip(a@));
    }
    piece
}

/// Begins a pass over `s`: the characters that are to be read, and the byte offset of
/// the end of `s`. The pass begins at position 0, which is at byte offset 0.
pub(crate) fn begin<'a>(s: &'a str) -> (pass: (Chars<'a>, usize))
    ensures
        pass.0.remaining() == s@.skip(0),
        pass.0.obeys_prophetic_iter_laws(),
        pass.1 == byte_offset(s@, s@.len() as int),
        byte_offset(s@, 0) == 0,
{
    (s.chars(), s.as_bytes().len())
}

/// Reads the next character of a pass over `text` that has come to position `index`, at
/// the byte offset `offset`, and has not come to the end of the text, at `end`. Returns
/// the character and the byte offset of the position behind it.
pub(crate) fn read_char(
    chars: &mut Chars<'_>,
    offset: usize,
    end: usize,
    text: Ghost<Seq<char>>,
    index: Ghost<int>,
) -> (read: (char, usize))
    requires
        0 <= index@ <= text@.len(),
        (*old(chars)).remaining() == text@.skip(index@),
        (*old(chars)).obeys_prophetic_iter_laws(),
        offset == byte_offset(text@, index@),
        end == byte_offset(text@, text@.len() as int),
        offset < end,
    ensures
        index@ < text@.len(),
        read.0 == text@[index@],
        read.1 == byte_offset(text@, index@ + 1),
        offset < read.1 <= end,
        (*final(chars)).remaining() == text@.skip(index@ + 1),
        (*final(chars)).obeys_prophetic_iter_laws(),
{
    proof {
        lemma_byte_offset_step(text@, index@);
        lemma_byte_offset_rises(text@, index@ + 1, text@.len() as int);
    }
    let c = chars.next().unwrap();
    (c, offset + width_of(c))
}

} // verus!
