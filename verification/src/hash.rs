//! The multiplicative string hash (33 times the running hash, xor the next
//! char) over whole strings and over char ranges of them.
use vstd::prelude::*;

use crate::chars::{byte_offset, lemma_byte_offset_end, lemma_byte_offset_grows, str_byte_len, str_chars};

verus! {

/// The seed of the hash.
pub const HASH_SEED: u32 = 5381;

/// One step of the hash: the running hash times 33, modulo 2^32, xor the char.
pub open spec fn hash_step(h: u32, c: char) -> u32 {
    ((h as nat * 33) % 0x1_0000_0000) as u32 ^ (c as u32)
}

/// The hash of a sequence of chars.
pub open spec fn hash_chars(s: Seq<char>) -> u32
    decreases s.len(),
{
    if s.len() == 0 {
        HASH_SEED
    } else {
        hash_step(hash_chars(s.drop_last()), s.last())
    }
}

/// `x` limited to at most `len`.
pub open spec fn clamp_to(x: int, len: int) -> int {
    if x < len {
        x
    } else {
        len
    }
}

/// The hash of the chars of `s` with indices from `begin` up to `end`, the
/// range cut off at the end of `s`.
pub open spec fn hash_between(s: Seq<char>, begin: int, end: int) -> u32 {
    hash_chars(s.subrange(clamp_to(begin, s.len() as int), clamp_to(end, s.len() as int)))
}

/// The hash of the chars `chars[begin..end]`, the range cut off at the end.
pub(crate) fn hash_char_range(chars: &Vec<char>, begin: usize, end: usize) -> (h: u32)
    requires
        begin <= end,
    ensures
        h == hash_between(chars@, begin as int, end as int),
{
    let n = chars.len();
    let b = if begin < n {
        begin
    } else {
        n
    };
    let e = if end < n {
        end
    } else {
        n
    };
    let mut hash: u32 = HASH_SEED;
    let mut i: usize = b;
    assert(chars@.subrange(b as int, b as int) =~= Seq::<char>::empty());
    while i < e
        invariant
            b <= i <= e <= n == chars.len(),
            hash == hash_chars(chars@.subrange(b as int, i as int)),
        decreases e - i,
    {
        let c = chars[i];
        assert(chars@.subrange(b as int, i + 1).drop_last() =~= chars@.subrange(b as int, i as int));
        hash = hash.wrapping_mul(33) ^ (c as u32);
        i = i + 1;
    }
    hash
}

/// The hash of the chars of `input` with indices from `begin` up to `end`
/// (char indices, not byte offsets), the range cut off at the end of `input`.
/// `begin` must not exceed `end`: the range length `end - begin` would
/// underflow (a panic in a debug build; a release build wraps it and hashes
/// from `begin` to the end of `input`).
pub fn fast_hash_between(input: &str, begin: usize, end: usize) -> (h: u32)
    requires
        begin <= end,
    ensures
        h == hash_between(input@, begin as int, end as int),
{
    let chars = str_chars(input);
    hash_char_range(&chars, begin, end)
}

/// The hash of all chars of `input`.
pub fn fast_hash(input: &str) -> (h: u32)
    ensures
        h == hash_chars(input@),
{
    let len = str_byte_len(input);
    proof {
        lemma_byte_offset_end(input@);
        lemma_byte_offset_grows(input@, 0, input@.len() as int);
        assert(input@.subrange(0, input@.len() as int) =~= input@);
    }
    fast_hash_between(input, 0, len)
}

/// The hash starts at 5381, and each further char multiplies the running
/// hash by 33, modulo 2^32, and then xors in the char's own scalar value.
pub proof fn lemma_hash_steps(s: Seq<char>, c: char)
    ensures
        hash_chars(Seq::<char>::empty()) == 5381,
        hash_chars(s.push(c)) == ((hash_chars(s) as nat * 33) % 0x1_0000_0000) as u32 ^ (c as u32),
{
    assert(s.push(c).drop_last() =~= s);
}

/// Different one-char strings hash differently: the char's value goes into
/// the hash unchanged.
pub proof fn lemma_hash_single_char_injective(c: char, d: char)
    ensures
        hash_chars(seq![c]) == hash_chars(seq![d]) ==> c == d,
{
    lemma_hash_steps(Seq::<char>::empty(), c);
    lemma_hash_steps(Seq::<char>::empty(), d);
    assert(Seq::<char>::empty().push(c) =~= seq![c]);
    assert(Seq::<char>::empty().push(d) =~= seq![d]);
    let x: u32 = ((5381nat * 33) % 0x1_0000_0000) as u32;
    let cu = c as u32;
    let du = d as u32;
    assert((x ^ cu) == (x ^ du) ==> cu == du) by (bit_vector);
    vstd::utf8::char_u32_cast(c, cu);
    vstd::utf8::char_u32_cast(d, du);
}

/// Hashing a char range of `s` is hashing the sub-sequence of those chars; in
/// particular the range over all of `s` gives the hash of `s`.
pub proof fn lemma_hash_between_is_range_hash(s: Seq<char>, begin: int, end: int)
    requires
        0 <= begin <= end <= s.len(),
    ensures
        hash_between(s, begin, end) == hash_chars(s.subrange(begin, end)),
        hash_between(s, 0, s.len() as int) == hash_chars(s),
{
    assert(s.subrange(0, s.len() as int) =~= s);
}

} // verus!
