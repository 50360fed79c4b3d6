use vstd::prelude::*;
use vstd::utf8::*;

verus! {

broadcast use vstd::seq::group_seq_axioms;

/// Number of bytes in the UTF-8 encoding of `cs`.
pub open spec fn byte_len(cs: Seq<char>) -> nat {
    encode_utf8(cs).len()
}

/// Number of bytes in the UTF-8 encoding of one character.
pub open spec fn char_width(c: char) -> nat {
    encode_scalar(c as u32).len()
}

/// Byte offset of the character at index `k` of `cs`.
pub open spec fn byte_offset(cs: Seq<char>, k: int) -> nat {
    byte_len(cs.take(k))
}

/// The characters whose encoding occupies bytes `start..end` of the encoding of `src`.
pub open spec fn text_between(src: Seq<char>, start: int, end: int) -> Seq<char> {
    decode_utf8(encode_utf8(src).subrange(start, end))
}

/// `start..end` lies inside the encoding of `src` and both ends fall between characters.
pub open spec fn bytes_between_chars(src: Seq<char>, start: int, end: int) -> bool {
    &&& 0 <= start <= end <= byte_len(src)
    &&& is_char_boundary(encode_utf8(src), start)
    &&& is_char_boundary(encode_utf8(src), end)
}

pub proof fn lemma_encode_concat(a: Seq<char>, b: Seq<char>)
    ensures
        encode_utf8(a + b) == encode_utf8(a) + encode_utf8(b),
    decreases a.len(),
{
    if a.len() == 0 {
        assert(a + b =~= b);
        assert(encode_utf8(a) + encode_utf8(b) =~= encode_utf8(b));
    } else {
        assert((a + b).drop_first() =~= a.drop_first() + b);
        lemma_encode_concat(a.drop_first(), b);
        assert(encode_utf8(a + b) =~= encode_utf8(a) + encode_utf8(b));
    }
}

pub proof fn lemma_encode_single(c: char)
    ensures
        encode_utf8(seq![c]) == encode_scalar(c as u32),
{
    assert(seq![c].drop_first() =~= Seq::<char>::empty());
    assert(encode_utf8(Seq::<char>::empty()) =~= Seq::<u8>::empty());
    assert(encode_utf8(seq![c]) =~= encode_scalar(c as u32) + encode_utf8(Seq::<char>::empty()));
}

pub proof fn lemma_offset_step(cs: Seq<char>, k: int)
    requires
        0 <= k < cs.len(),
    ensures
        byte_offset(cs, k + 1) == byte_offset(cs, k) + char_width(cs[k]),
{
    assert(cs.take(k + 1) =~= cs.take(k) + seq![cs[k]]);
    lemma_encode_concat(cs.take(k), seq![cs[k]]);
    lemma_encode_single(cs[k]);
}

pub proof fn lemma_offset_split(cs: Seq<char>, i: int, j: int)
    requires
        0 <= i <= j <= cs.len(),
    ensures
        encode_utf8(cs) == encode_utf8(cs.take(i)) + encode_utf8(cs.subrange(i, j)) + encode_utf8(
            cs.skip(j),
        ),
        byte_offset(cs, j) == byte_offset(cs, i) + byte_len(cs.subrange(i, j)),
        byte_offset(cs, j) <= byte_len(cs),
        byte_offset(cs, cs.len() as int) == byte_len(cs),
{
    assert(cs =~= cs.take(i) + cs.subrange(i, j) + cs.skip(j));
    assert(cs.take(j) =~= cs.take(i) + cs.subrange(i, j));
    assert(cs.take(cs.len() as int) =~= cs);
    lemma_encode_concat(cs.take(i) + cs.subrange(i, j), cs.skip(j));
    lemma_encode_concat(cs.take(i), cs.subrange(i, j));
}

/// The text between the offsets of character indices `i` and `j` is `cs[i..j]`.
pub proof fn lemma_text_between(cs: Seq<char>, i: int, j: int)
    requires
        0 <= i <= j <= cs.len(),
    ensures
        text_between(cs, byte_offset(cs, i) as int, byte_offset(cs, j) as int) == cs.subrange(i, j),
{
    lemma_offset_split(cs, i, j);
    let a = encode_utf8(cs.take(i));
    let m = encode_utf8(cs.subrange(i, j));
    let z = encode_utf8(cs.skip(j));
    assert((a + m + z).subrange(a.len() as int, (a.len() + m.len()) as int) =~= m);
    encode_utf8_decode_utf8(cs.subrange(i, j));
}

/// Every character offset is a character boundary of the encoding.
pub proof fn lemma_offset_is_boundary(cs: Seq<char>, k: int)
    requires
        0 <= k <= cs.len(),
    ensures
        is_char_boundary(encode_utf8(cs), byte_offset(cs, k) as int),
    decreases cs.len(),
{
    broadcast use encode_utf8_valid_utf8;

    if k == 0 {
        assert(cs.take(0) =~= Seq::<char>::empty());
    } else {
        let bytes = encode_utf8(cs);
        let rest = cs.drop_first();
        encode_utf8_first_scalar(cs);
        assert(pop_first_scalar(bytes) =~= encode_utf8(rest));
        lemma_offset_is_boundary(rest, k - 1);
        assert(cs.take(k) =~= seq![cs[0]] + rest.take(k - 1));
        lemma_encode_concat(seq![cs[0]], rest.take(k - 1));
        lemma_encode_single(cs[0]);
    }
}

/// The number of bytes in the UTF-8 encoding of `c`.
pub fn utf8_width(c: char) -> (w: usize)
    ensures
        w == char_width(c),
        1 <= w <= 4,
{
    proof {
        char_is_scalar(c);
    }
    let v = c as u32;
    if v <= 0x7F {
        1
    } else if v <= 0x7FF {
        2
    } else if v <= 0xFFFF {
        3
    } else {
        4
    }
}

/// The characters of `s`, in order.
pub fn chars_of(s: &str) -> (r: Vec<char>)
    ensures
        r@ == s@,
{
    let mut r: Vec<char> = Vec::new();
    for c in it: s.chars()
        invariant
            r@ == it.seq().take(it.index() as int),
    {
        r.push(c);
    }
    r
}

} // verus!
