//! Text by its UTF-8 bytes: the offsets that grammars and patterns report
//! count bytes, so what stands between two of them is cut out by bytes.

use vstd::prelude::*;

verus! {

use vstd::utf8::{
    decode_utf8, encode_scalar, encode_utf8, encode_utf8_decode_utf8, encode_utf8_valid_utf8,
    is_char_boundary, is_char_boundary_iff_not_is_continuation_byte,
    is_char_boundary_start_end_of_seq,
};

/// The text between two byte offsets, where both lie between characters.
pub open spec fn slice_between(s: Seq<char>, from: int, to: int) -> Option<Seq<char>> {
    let bytes = encode_utf8(s);
    if from <= to <= bytes.len() && is_char_boundary(bytes, from) && is_char_boundary(bytes, to) {
        Some(decode_utf8(bytes.subrange(from, to)))
    } else {
        None
    }
}

/// The text between two byte offsets, where both lie between characters.
pub fn slice(s: &str, from: usize, to: usize) -> (out: Option<String>)
    ensures
        crate::text::opt_view(out) == slice_between(s@, from as int, to as int),
{
    let len: usize = s.as_bytes().len();
    if from > to || to > len || !s.is_char_boundary(from) || !s.is_char_boundary(to) {
        return None;
    }
    let ghost bytes = encode_utf8(s@);
    proof {
        encode_utf8_valid_utf8(s@);
        is_char_boundary_start_end_of_seq(bytes);
    }
    let (head, _rest) = s.split_at(to);
    let ghost front = bytes.subrange(0, to as int);
    proof {
        assert(encode_utf8(head@) == front);
        encode_utf8_valid_utf8(head@);
        is_char_boundary_start_end_of_seq(front);
        if from < to {
            is_char_boundary_iff_not_is_continuation_byte(bytes, from as int);
            is_char_boundary_iff_not_is_continuation_byte(front, from as int);
        }
    }
    let (_before, piece) = head.split_at(from);
    proof {
        assert(front.subrange(from as int, to as int) =~= bytes.subrange(from as int, to as int));
        encode_utf8_decode_utf8(piece@);
    }
    Some(piece.to_owned())
}

/// How many bytes a character takes.
pub open spec fn width_of(c: char) -> nat {
    encode_scalar(c as u32).len()
}

/// How many bytes a character takes.
pub fn width(c: char) -> (n: usize)
    ensures
        n == width_of(c),
        1 <= n <= 4,
{
    let v: u32 = c as u32;
    proof {
        vstd::utf8::char_is_scalar(c);
    }
    if v < 0x80 {
        1
    } else if v < 0x800 {
        2
    } else if v < 0x10000 {
        3
    } else {
        4
    }
}

/// How many line feeds stand among bytes.
pub open spec fn line_feeds(bytes: Seq<u8>) -> nat
    decreases bytes.len(),
{
    if bytes.len() == 0 {
        0
    } else {
        line_feeds(bytes.drop_last()) + if bytes.last() == 10u8 {
            1nat
        } else {
            0nat
        }
    }
}

/// The 1-based number of the line that a byte offset lies on.
pub open spec fn line_at(bytes: Seq<u8>, pos: int) -> nat {
    line_feeds(bytes.take(pos)) + 1
}

/// The 1-based number of the line that a byte offset lies on.
pub fn line_of(bytes: &[u8], pos: usize) -> (line: usize)
    requires
        pos < bytes@.len(),
    ensures
        line == line_at(bytes@, pos as int),
        1 <= line <= pos + 1,
{
    let mut count: usize = 0;
    let mut i: usize = 0;
    let len: usize = bytes.len();
    while i < pos
        invariant
            i <= pos < len,
            len == bytes@.len(),
            count == line_feeds(bytes@.take(i as int)),
            count <= i,
        decreases pos - i,
    {
        assert(bytes@.take(i + 1).drop_last() =~= bytes@.take(i as int));
        if bytes[i] == 10 {
            count += 1;
        }
        i += 1;
    }
    count + 1
}

/// Whether `part` stands in `bytes` at `at`.
pub open spec fn bytes_at(bytes: Seq<u8>, part: Seq<u8>, at: int) -> bool {
    &&& 0 <= at
    &&& at + part.len() <= bytes.len()
    &&& bytes.subrange(at, at + part.len()) == part
}

/// Whether `part` stands in `bytes` at `at`.
pub fn stands_at(bytes: &[u8], part: &[u8], at: usize) -> (yes: bool)
    requires
        at <= bytes@.len(),
    ensures
        yes == bytes_at(bytes@, part@, at as int),
{
    if part.len() > bytes.len() - at {
        return false;
    }
    let mut i: usize = 0;
    while i < part.len()
        invariant
            i <= part@.len(),
            at + part@.len() <= bytes@.len(),
            bytes@.len() <= usize::MAX,
            forall|j: int| 0 <= j < i ==> bytes@[at + j] == part@[j],
        decreases part@.len() - i,
    {
        if bytes[at + i] != part[i] {
            assert(bytes@.subrange(at as int, at + part@.len())[i as int] != part@[i as int]);
            return false;
        }
        i += 1;
    }
    assert(bytes@.subrange(at as int, at + part@.len()) =~= part@);
    true
}

/// The bytes of a text and one more character.
pub proof fn lemma_encode_push(s: Seq<char>, c: char)
    ensures
        encode_utf8(s.push(c)) == encode_utf8(s) + vstd::utf8::encode_scalar(c as u32),
    decreases s.len(),
{
    if s.len() == 0 {
        assert(s.push(c).drop_first() =~= Seq::empty());
        assert(encode_utf8(s.push(c).drop_first()) =~= Seq::empty());
        assert(encode_utf8(s.push(c)) =~= encode_utf8(s) + vstd::utf8::encode_scalar(c as u32));
    } else {
        lemma_encode_push(s.drop_first(), c);
        assert(s.push(c).drop_first() =~= s.drop_first().push(c));
        assert(s.push(c)[0] == s[0]);
        assert(encode_utf8(s.push(c)) =~= encode_utf8(s) + vstd::utf8::encode_scalar(c as u32));
    }
}

/// The start of a text has no more bytes than the text.
pub proof fn lemma_encode_prefix(s: Seq<char>, n: int)
    requires
        0 <= n <= s.len(),
    ensures
        encode_utf8(s.take(n)).len() <= encode_utf8(s).len(),
    decreases s.len() - n,
{
    if n < s.len() {
        lemma_encode_prefix(s, n + 1);
        lemma_encode_push(s.take(n), s[n]);
        assert(s.take(n + 1) =~= s.take(n).push(s[n]));
    } else {
        assert(s.take(n) =~= s);
    }
}

/// The byte offset of the character at position `k`.
pub fn byte_offset(chars: &[char], k: usize) -> (n: usize)
    requires
        k <= chars@.len(),
        encode_utf8(chars@).len() <= usize::MAX,
    ensures
        n == encode_utf8(chars@.take(k as int)).len(),
{
    let mut n: usize = 0;
    let mut i: usize = 0;
    assert(encode_utf8(chars@.take(0)).len() == 0);
    while i < k
        invariant
            i <= k <= chars@.len(),
            encode_utf8(chars@).len() <= usize::MAX,
            n == encode_utf8(chars@.take(i as int)).len(),
        decreases k - i,
    {
        proof {
            lemma_encode_push(chars@.take(i as int), chars@[i as int]);
            assert(chars@.take(i + 1) =~= chars@.take(i as int).push(chars@[i as int]));
            lemma_encode_prefix(chars@, i + 1);
        }
        n += width(chars[i]);
        i += 1;
    }
    n
}

/// The bytes of two texts on end are the bytes of the one and then those of
/// the other.
pub proof fn lemma_encode_concat(a: Seq<char>, b: Seq<char>)
    ensures
        encode_utf8(a + b) == encode_utf8(a) + encode_utf8(b),
    decreases b.len(),
{
    if b.len() == 0 {
        assert(a + b =~= a);
        assert(encode_utf8(a) + encode_utf8(b) =~= encode_utf8(a));
    } else {
        let front = b.drop_last();
        lemma_encode_concat(a, front);
        lemma_encode_push(a + front, b.last());
        lemma_encode_push(front, b.last());
        assert((a + front).push(b.last()) =~= a + b);
        assert(front.push(b.last()) =~= b);
        assert(encode_utf8(a + b) =~= encode_utf8(a) + encode_utf8(b));
    }
}

proof fn lemma_boundary_between(a: Seq<char>, b: Seq<char>)
    ensures
        is_char_boundary(encode_utf8(a + b), encode_utf8(a).len() as int),
{
    let bytes = encode_utf8(a + b);
    let at = encode_utf8(a).len() as int;
    lemma_encode_concat(a, b);
    encode_utf8_valid_utf8(a + b);
    is_char_boundary_start_end_of_seq(bytes);
    if b.len() > 0 {
        encode_utf8_valid_utf8(b);
        lemma_encode_push(Seq::empty(), b[0]);
        assert(encode_utf8(b).len() > 0);
        assert(bytes[at] == encode_utf8(b)[0]);
        if at > 0 {
            is_char_boundary_iff_not_is_continuation_byte(bytes, at);
        }
    } else {
        assert(a + b =~= a);
    }
}

/// What stands between the byte offsets at the ends of a part of a text is
/// that part.
pub proof fn law_offsets_give_the_part_back(
    before: Seq<char>,
    part: Seq<char>,
    after: Seq<char>,
)
    ensures
        slice_between(
            before + part + after,
            encode_utf8(before).len() as int,
            encode_utf8(before + part).len() as int,
        ) == Some(part),
{
    let s = before + part + after;
    lemma_boundary_between(before + part, after);
    assert(s =~= before + (part + after));
    lemma_boundary_between(before, part + after);
    lemma_encode_concat(before, part);
    lemma_encode_concat(before + part, after);
    encode_utf8_decode_utf8(part);
    assert(encode_utf8(s).subrange(
        encode_utf8(before).len() as int,
        encode_utf8(before + part).len() as int,
    ) =~= encode_utf8(part));
}

} // verus!
