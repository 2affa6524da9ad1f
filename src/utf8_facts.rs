//! Facts about UTF-8 text that the scanner relies on.
use vstd::prelude::*;
use vstd::utf8::*;
use crate::grammar::ascii_text;

verus! {

/// A byte below 0x80 starts a character, and so does the byte after it.
pub proof fn lemma_boundaries_around_ascii(s: Seq<u8>, q: int)
    requires
        valid_utf8(s),
        0 <= q < s.len(),
        s[q] < 0x80,
    ensures
        is_char_boundary(s, q),
        is_char_boundary(s, q + 1),
{
    is_char_boundary_iff_not_is_continuation_byte(s, q);
    lemma_next_boundary(s, q);
}

/// The character that starts at a boundary ends at a boundary.
pub proof fn lemma_next_boundary(s: Seq<u8>, q: int)
    requires
        valid_utf8(s),
        0 <= q < s.len(),
        is_char_boundary(s, q),
    ensures
        q < q + length_of_first_scalar(s.subrange(q, s.len() as int)) <= s.len(),
        is_char_boundary(s, q + length_of_first_scalar(s.subrange(q, s.len() as int))),
{
    let n = s.len() as int;
    valid_utf8_split(s, q);
    let t = s.subrange(q, n);
    let k = length_of_first_scalar(t);
    assert(valid_first_scalar(t) && valid_utf8(pop_first_scalar(t)));
    assert(pop_first_scalar(t) =~= s.subrange(q + k, n));
    if q + k < n {
        let u = s.subrange(q + k, n);
        assert(valid_first_scalar(u));
        assert(u[0] == s[q + k]);
        is_char_boundary_iff_not_is_continuation_byte(s, q + k);
    } else {
        is_char_boundary_start_end_of_seq(s);
    }
}

/// Bytes below 0x80 are valid UTF-8 and decode one character each.
pub proof fn lemma_decode_ascii(bs: Seq<u8>)
    requires
        forall|i: int| 0 <= i < bs.len() ==> #[trigger] bs[i] < 0x80,
    ensures
        valid_utf8(bs),
        decode_utf8(bs) == ascii_text(bs),
    decreases bs.len(),
{
    if bs.len() > 0 {
        let rest = bs.subrange(1, bs.len() as int);
        assert(pop_first_scalar(bs) =~= rest);
        lemma_decode_ascii(rest);
        let b = bs[0];
        assert(b & 0x7f == b) by (bit_vector)
            requires
                b < 0x80,
        ;
        assert(ascii_text(bs) =~= seq![b as char] + ascii_text(rest));
    }
}

/// The characters of a `str` whose bytes are all below 0x80.
pub proof fn lemma_str_ascii(cs: Seq<char>)
    requires
        forall|i: int|
            0 <= i < encode_utf8(cs).len() ==> #[trigger] encode_utf8(cs)[i] < 0x80,
    ensures
        cs == ascii_text(encode_utf8(cs)),
{
    encode_utf8_decode_utf8(cs);
    lemma_decode_ascii(encode_utf8(cs));
}

} // verus!
