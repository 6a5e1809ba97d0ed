//! Byte offsets in UTF-8 text.
//!
//! A source text is modelled as its sequence of characters. Spans address it
//! by byte, so this module says where each character starts once the text is
//! encoded, and ties that arithmetic to the encoding that `vstd::utf8`
//! defines for `str`.
use vstd::prelude::*;
use vstd::utf8::*;

verus! {

/// Number of bytes that the UTF-8 encoding of `c` takes.
pub open spec fn utf8_width(c: char) -> int {
    if (c as u32) < 0x80 {
        1
    } else if (c as u32) < 0x800 {
        2
    } else if (c as u32) < 0x1_0000 {
        3
    } else {
        4
    }
}

/// Byte offset at which the character of index `i` starts: the number of
/// bytes that the first `i` characters of `text` take. `byte_offset(text,
/// text.len())` is the offset of the end of the text.
pub open spec fn byte_offset(text: Seq<char>, i: int) -> int
    decreases i,
{
    if i <= 0 {
        0
    } else {
        byte_offset(text, i - 1) + utf8_width(text[i - 1])
    }
}

/// Length of `text` in bytes.
pub open spec fn byte_len(text: Seq<char>) -> int {
    byte_offset(text, text.len() as int)
}

/// True when byte offset `k` is the start of a character of `text`, or its end.
pub open spec fn is_boundary(text: Seq<char>, k: int) -> bool {
    exists|i: int| 0 <= i <= text.len() && #[trigger] byte_offset(text, i) == k
}

/// Index of the character that starts at byte offset `k`, where `k` is a
/// boundary of `text`; `text.len()` for the end of the text.
pub open spec fn char_index(text: Seq<char>, k: int) -> int {
    choose|i: int| 0 <= i <= text.len() && #[trigger] byte_offset(text, i) == k
}

/// Each further character moves the byte offset by at least one byte and at
/// most four.
pub proof fn lemma_byte_offset_grows(text: Seq<char>, i: int, j: int)
    requires
        0 <= i <= j,
    ensures
        byte_offset(text, i) + (j - i) <= byte_offset(text, j) <= byte_offset(text, i) + 4 * (j
            - i),
        0 <= byte_offset(text, i),
    decreases j,
{
    if i < j {
        lemma_byte_offset_grows(text, i, j - 1);
    } else if 0 < i {
        lemma_byte_offset_grows(text, i - 1, i - 1);
    }
}

/// Two character indices with the same byte offset are the same index.
pub proof fn lemma_byte_offset_injective(text: Seq<char>, i: int, j: int)
    requires
        0 <= i,
        0 <= j,
        byte_offset(text, i) == byte_offset(text, j),
    ensures
        i == j,
{
    if i < j {
        lemma_byte_offset_grows(text, i, j);
    } else if j < i {
        lemma_byte_offset_grows(text, j, i);
    }
}

/// `char_index` inverts `byte_offset` on the character indices of `text`.
pub proof fn lemma_char_index_of_offset(text: Seq<char>, i: int)
    requires
        0 <= i <= text.len(),
    ensures
        is_boundary(text, byte_offset(text, i)),
        char_index(text, byte_offset(text, i)) == i,
{
    let k = byte_offset(text, i);
    let j = char_index(text, k);
    lemma_byte_offset_injective(text, i, j);
}

/// On a boundary, `char_index` names a character index with that offset.
pub proof fn lemma_char_index_on_boundary(text: Seq<char>, k: int)
    requires
        is_boundary(text, k),
    ensures
        0 <= char_index(text, k) <= text.len(),
        byte_offset(text, char_index(text, k)) == k,
{
}

/// `char_index` keeps the order of boundaries.
pub proof fn lemma_char_index_monotonic(text: Seq<char>, k1: int, k2: int)
    requires
        is_boundary(text, k1),
        is_boundary(text, k2),
        k1 <= k2,
    ensures
        char_index(text, k1) <= char_index(text, k2),
{
    let i1 = char_index(text, k1);
    let i2 = char_index(text, k2);
    if i2 < i1 {
        lemma_byte_offset_grows(text, i2, i1);
    }
}

/// A boundary of a text lies between its start and its end.
pub proof fn lemma_boundary_within(text: Seq<char>, k: int)
    requires
        is_boundary(text, k),
    ensures
        0 <= k <= byte_len(text),
{
    lemma_byte_offset_grows(text, char_index(text, k), text.len() as int);
}

/// The offsets in a text that has lost its first character are those of the
/// whole text, less the width of that character.
pub proof fn lemma_byte_offset_drop_first(text: Seq<char>, i: int)
    requires
        1 <= i <= text.len(),
    ensures
        byte_offset(text, i) == utf8_width(text[0]) + byte_offset(text.drop_first(), i - 1),
    decreases i,
{
    if i > 1 {
        lemma_byte_offset_drop_first(text, i - 1);
        assert(text.drop_first()[i - 2] == text[i - 1]);
    } else {
        assert(byte_offset(text, 0) == 0);
        assert(byte_offset(text.drop_first(), 0) == 0);
    }
}

/// The offsets within a prefix of a text are those within the text.
pub proof fn lemma_byte_offset_prefix(text: Seq<char>, n: int, i: int)
    requires
        0 <= i <= n <= text.len(),
    ensures
        byte_offset(text.take(n), i) == byte_offset(text, i),
    decreases i,
{
    if i > 0 {
        lemma_byte_offset_prefix(text, n, i - 1);
    }
}

/// `utf8_width` is the length of the encoding that vstd gives a character.
pub proof fn lemma_width_is_encoded_len(c: char)
    ensures
        encode_scalar(c as u32).len() == utf8_width(c),
        1 <= utf8_width(c) <= 4,
{
    char_is_scalar(c);
}

/// The encoding of a text is the encoding of its first character followed
/// by the encoding of the rest.
proof fn lemma_encode_unfold(text: Seq<char>)
    requires
        text.len() > 0,
    ensures
        encode_utf8(text) == encode_scalar(text[0] as u32) + encode_utf8(text.drop_first()),
        pop_first_scalar(encode_utf8(text)) == encode_utf8(text.drop_first()),
        length_of_first_scalar(encode_utf8(text)) == utf8_width(text[0]),
{
    encode_utf8_first_scalar(text);
    lemma_width_is_encoded_len(text[0]);
    assert(pop_first_scalar(encode_utf8(text)) =~= encode_utf8(text.drop_first()));
}

/// `byte_len` is the length of the encoding that vstd gives a text.
pub proof fn lemma_byte_len_is_encoded_len(text: Seq<char>)
    ensures
        encode_utf8(text).len() == byte_len(text),
    decreases text.len(),
{
    if text.len() > 0 {
        lemma_encode_unfold(text);
        lemma_width_is_encoded_len(text[0]);
        lemma_byte_len_is_encoded_len(text.drop_first());
        lemma_byte_offset_drop_first(text, text.len() as int);
    }
}

/// `is_boundary` agrees with the character boundaries that vstd defines on
/// the encoded text.
pub proof fn lemma_boundary_is_char_boundary(text: Seq<char>, k: int)
    ensures
        is_char_boundary(encode_utf8(text), k) <==> is_boundary(text, k),
    decreases text.len(),
{
    let bytes = encode_utf8(text);
    encode_utf8_valid_utf8(text);
    lemma_byte_len_is_encoded_len(text);
    if k == 0 {
        assert(byte_offset(text, 0) == 0);
    } else if k < 0 || bytes.len() < k {
        assert forall|i: int| 0 <= i <= text.len() implies byte_offset(text, i) != k by {
            lemma_byte_offset_grows(text, i, text.len() as int);
        }
    } else {
        let rest = text.drop_first();
        let w = utf8_width(text[0]);
        lemma_encode_unfold(text);
        lemma_boundary_is_char_boundary(rest, k - w);
        assert(is_char_boundary(bytes, k) == is_char_boundary(encode_utf8(rest), k - w));
        if is_boundary(rest, k - w) {
            let j = char_index(rest, k - w);
            lemma_byte_offset_drop_first(text, j + 1);
        }
        if is_boundary(text, k) {
            let i = char_index(text, k);
            lemma_byte_offset_drop_first(text, i);
            assert(byte_offset(rest, i - 1) == k - w);
        }
    }
}

/// The encoding of a concatenation is the concatenation of the encodings.
proof fn lemma_encode_concat(a: Seq<char>, b: Seq<char>)
    ensures
        encode_utf8(a + b) == encode_utf8(a) + encode_utf8(b),
    decreases a.len(),
{
    if a.len() == 0 {
        assert(a + b =~= b);
        assert(encode_utf8(a) + encode_utf8(b) =~= encode_utf8(b));
    } else {
        lemma_encode_concat(a.drop_first(), b);
        assert((a + b).drop_first() =~= a.drop_first() + b);
        assert(encode_utf8(a + b) =~= encode_utf8(a) + encode_utf8(b));
    }
}

/// Cutting the encoded text at the offset of character `i` gives the
/// encodings of the first `i` characters and of the others.
pub proof fn lemma_encode_split(text: Seq<char>, i: int)
    requires
        0 <= i <= text.len(),
    ensures
        encode_utf8(text).subrange(0, byte_offset(text, i)) == encode_utf8(text.take(i)),
        encode_utf8(text).subrange(byte_offset(text, i), byte_len(text)) == encode_utf8(
            text.skip(i),
        ),
{
    let head = text.take(i);
    let tail = text.skip(i);
    assert(head + tail =~= text);
    lemma_encode_concat(head, tail);
    lemma_byte_len_is_encoded_len(head);
    lemma_byte_len_is_encoded_len(tail);
    lemma_byte_len_is_encoded_len(text);
    lemma_byte_offset_prefix(text, i, i);
    assert(encode_utf8(text).subrange(0, byte_offset(text, i)) =~= encode_utf8(head));
    assert(encode_utf8(text).subrange(byte_offset(text, i), byte_len(text)) =~= encode_utf8(tail));
}

/// Two texts with the same encoding are the same text.
pub proof fn lemma_encode_injective(a: Seq<char>, b: Seq<char>)
    requires
        encode_utf8(a) == encode_utf8(b),
    ensures
        a == b,
{
    encode_utf8_decode_utf8(a);
    encode_utf8_decode_utf8(b);
}

/// Number of bytes that `c` takes in UTF-8.
pub fn char_width(c: char) -> (w: usize)
    ensures
        w == utf8_width(c),
{
    let v: u32 = c as u32;
    if v < 0x80 {
        1
    } else if v < 0x800 {
        2
    } else if v < 0x1_0000 {
        3
    } else {
        4
    }
}

/// Length of `source` in bytes.
pub fn text_len(source: &str) -> (n: usize)
    ensures
        n == byte_len(source@),
{
    proof {
        lemma_byte_len_is_encoded_len(source@);
    }
    source.as_bytes().len()
}

/// The part of `source` between two byte offsets that are boundaries of it.
pub fn slice<'a>(source: &'a str, from: usize, to: usize) -> (part: &'a str)
    requires
        from <= to,
        is_boundary(source@, from as int),
        is_boundary(source@, to as int),
    ensures
        part@ == source@.subrange(char_index(source@, from as int), char_index(source@, to as int)),
{
    let ghost text = source@;
    let ghost i = char_index(text, from as int);
    let ghost j = char_index(text, to as int);
    proof {
        lemma_char_index_monotonic(text, from as int, to as int);
        lemma_boundary_is_char_boundary(text, to as int);
        lemma_encode_split(text, j);
    }
    let (head, _) = source.split_at(to);
    proof {
        lemma_encode_injective(head@, text.take(j));
        lemma_byte_offset_prefix(text, j, i);
        assert(byte_offset(head@, i) == from);
        lemma_boundary_is_char_boundary(head@, from as int);
        lemma_encode_split(head@, i);
        lemma_byte_len_is_encoded_len(head@);
    }
    let (_, part) = head.split_at(from);
    proof {
        lemma_encode_injective(part@, head@.skip(i));
        assert(text.take(j).skip(i) =~= text.subrange(i, j));
    }
    part
}

} // verus!
