//! Strings as sequences of `char`s, their UTF-8 byte offsets, and the
//! prefix and ASCII tests built on them.
use vstd::prelude::*;
use vstd::string::StringSliceAdditionalSpecFns;
use vstd::utf8::{
    encode_scalar, encode_utf8, encode_utf8_first_scalar, is_char_boundary,
    length_of_first_scalar, pop_first_scalar,
};

verus! {

/// The `char`s of `s`, in order.
pub(crate) fn str_chars(s: &str) -> (v: Vec<char>)
    ensures
        v@ == s@,
{
    broadcast use vstd::string::axiom_spec_iter;

    let mut v: Vec<char> = Vec::new();
    for c in it: s.chars()
        invariant
            v@ == it.seq().take(it.index()),
    {
        v.push(c);
        assert(v@ =~= it.seq().take(it.index() + 1));
    }
    assert(v@ =~= s@);
    v
}

/// The number of bytes in the UTF-8 encoding of `c`.
pub open spec fn utf8_width(c: char) -> nat {
    encode_scalar(c as u32).len()
}

/// The byte offset, in the UTF-8 encoding of `s`, at which the char with index
/// `k` begins (the whole encoding's length when `k` is `s.len()`).
pub open spec fn byte_offset(s: Seq<char>, k: int) -> int {
    encode_utf8(s.take(k)).len() as int
}

/// True when `start` is the byte offset at which some char of `s` begins, or
/// the byte length of `s`: the offsets at which `s` can be sliced.
pub open spec fn is_char_start(s: Seq<char>, start: int) -> bool {
    exists|k: int| 0 <= k <= s.len() && byte_offset(s, k) == start
}

proof fn lemma_encode_utf8_concat(a: Seq<char>, b: Seq<char>)
    ensures
        encode_utf8(a + b) == encode_utf8(a) + encode_utf8(b),
    decreases a.len(),
{
    if a.len() == 0 {
        assert(a + b =~= b);
        assert(encode_utf8(a) + encode_utf8(b) =~= encode_utf8(b));
    } else {
        assert((a + b).drop_first() =~= a.drop_first() + b);
        lemma_encode_utf8_concat(a.drop_first(), b);
        assert(encode_utf8(a + b) =~= encode_utf8(a) + encode_utf8(b));
    }
}

/// Each char takes one to four bytes, and the offset of the next char is the
/// offset of this one plus its width.
pub proof fn lemma_byte_offset_step(s: Seq<char>, k: int)
    requires
        0 <= k < s.len(),
    ensures
        byte_offset(s, k + 1) == byte_offset(s, k) + utf8_width(s[k]),
        1 <= utf8_width(s[k]) <= 4,
{
    assert(s.take(k + 1) =~= s.take(k) + seq![s[k]]);
    lemma_encode_utf8_concat(s.take(k), seq![s[k]]);
    lemma_encode_single(s[k]);
}

proof fn lemma_encode_single(c: char)
    ensures
        encode_utf8(seq![c]) == encode_scalar(c as u32),
        1 <= encode_scalar(c as u32).len() <= 4,
{
    let one = seq![c];
    assert(one[0] == c);
    assert(one.drop_first() =~= Seq::<char>::empty());
    assert(encode_utf8(one.drop_first()) =~= Seq::<u8>::empty());
    assert(encode_utf8(one) =~= encode_scalar(c as u32));
}

/// The encoding of the chars from index `k` on is the encoding of `s` from
/// byte offset `byte_offset(s, k)` on.
pub proof fn lemma_encode_skip(s: Seq<char>, k: int)
    requires
        0 <= k <= s.len(),
    ensures
        encode_utf8(s).skip(byte_offset(s, k)) == encode_utf8(s.skip(k)),
{
    assert(s =~= s.take(k) + s.skip(k));
    lemma_encode_utf8_concat(s.take(k), s.skip(k));
    assert(encode_utf8(s).skip(byte_offset(s, k)) =~= encode_utf8(s.skip(k)));
}

/// A char sequence is a prefix of another exactly when its UTF-8 encoding is
/// a prefix of the other's.
pub proof fn lemma_encode_prefix(n: Seq<char>, t: Seq<char>)
    ensures
        n.is_prefix_of(t) <==> encode_utf8(n).is_prefix_of(encode_utf8(t)),
    decreases n.len(),
{
    let en = encode_utf8(n);
    let et = encode_utf8(t);
    if n.is_prefix_of(t) {
        let rest = t.skip(n.len() as int);
        assert(t =~= n + rest);
        lemma_encode_utf8_concat(n, rest);
        assert(en =~= et.subrange(0, en.len() as int));
    }
    if en.is_prefix_of(et) && n.len() > 0 {
        lemma_encode_single(n[0]);
        assert(en =~= encode_scalar(n[0] as u32) + encode_utf8(n.drop_first()));
        assert(en[0] == et[0]);
        if t.len() == 0 {
            assert(et =~= Seq::<u8>::empty());
            assert(false);
        }
        lemma_encode_single(t[0]);
        assert(et =~= encode_scalar(t[0] as u32) + encode_utf8(t.drop_first()));
        encode_utf8_first_scalar(n);
        encode_utf8_first_scalar(t);
        let w = length_of_first_scalar(en);
        assert(length_of_first_scalar(et) == w);
        assert(encode_scalar(n[0] as u32) =~= en.take(w));
        assert(encode_scalar(t[0] as u32) =~= et.take(w));
        assert(en.take(w) =~= et.take(w));
        encode_utf8_first_scalar(seq![n[0]]);
        encode_utf8_first_scalar(seq![t[0]]);
        assert(seq![n[0]][0] == n[0]);
        assert(seq![t[0]][0] == t[0]);
        assert(n[0] as u32 == t[0] as u32);
        vstd::utf8::char_u32_cast(n[0], n[0] as u32);
        vstd::utf8::char_u32_cast(t[0], t[0] as u32);
        assert(n[0] == t[0]);
        let n1 = n.drop_first();
        let t1 = t.drop_first();
        assert(encode_utf8(n1) =~= en.skip(w));
        assert(encode_utf8(t1) =~= et.skip(w));
        assert(encode_utf8(n1) =~= encode_utf8(t1).subrange(0, encode_utf8(n1).len() as int));
        lemma_encode_prefix(n1, t1);
        assert(n1 =~= t1.subrange(0, n1.len() as int));
        assert forall|j: int| 0 <= j < n.len() implies n[j] == t[j] by {
            if j > 0 {
                assert(n[j] == n1[j - 1]);
                assert(t1.subrange(0, n1.len() as int)[j - 1] == t[j]);
            }
        }
        assert(n =~= t.subrange(0, n.len() as int));
    }
    if n.len() == 0 {
        assert(n =~= t.subrange(0, 0));
    }
}

proof fn lemma_byte_offset_drop_first(s: Seq<char>, k: int)
    requires
        1 <= k <= s.len(),
    ensures
        byte_offset(s, k) == encode_scalar(s[0] as u32).len() + byte_offset(s.drop_first(), k - 1),
{
    assert(s.take(k) =~= seq![s[0]] + s.drop_first().take(k - 1));
    lemma_encode_utf8_concat(seq![s[0]], s.drop_first().take(k - 1));
    lemma_encode_single(s[0]);
}

/// The byte offsets at which chars of `s` begin, with the byte length of `s`,
/// are exactly the char boundaries of its UTF-8 encoding.
pub proof fn lemma_char_start_iff_boundary(s: Seq<char>, i: int)
    ensures
        is_char_start(s, i) <==> is_char_boundary(encode_utf8(s), i),
    decreases s.len(),
{
    broadcast use vstd::utf8::encode_utf8_valid_utf8;

    let e = encode_utf8(s);
    lemma_byte_offset_grows(s, 0, 0);
    lemma_byte_offset_end(s);
    if i == 0 {
        assert(byte_offset(s, 0) == 0);
    } else if s.len() == 0 {
        assert(e =~= Seq::<u8>::empty());
        if is_char_start(s, i) {
            let k = choose|k: int| 0 <= k <= s.len() && byte_offset(s, k) == i;
            assert(k == 0);
        }
    } else {
        let s1 = s.drop_first();
        lemma_encode_single(s[0]);
        encode_utf8_first_scalar(s);
        let w = encode_scalar(s[0] as u32).len() as int;
        assert(e =~= encode_scalar(s[0] as u32) + encode_utf8(s1));
        assert(pop_first_scalar(e) =~= encode_utf8(s1));
        lemma_char_start_iff_boundary(s1, i - w);
        if is_char_start(s, i) {
            let k = choose|k: int| 0 <= k <= s.len() && byte_offset(s, k) == i;
            assert(k >= 1);
            lemma_byte_offset_drop_first(s, k);
            lemma_byte_offset_grows(s, k, s.len() as int);
            assert(is_char_start(s1, i - w));
            assert(0 < i <= e.len());
        }
        if is_char_boundary(e, i) {
            assert(0 < i <= e.len());
            assert(is_char_start(s1, i - w));
            let k1 = choose|k1: int| 0 <= k1 <= s1.len() && byte_offset(s1, k1) == i - w;
            lemma_byte_offset_drop_first(s, k1 + 1);
            assert(byte_offset(s, k1 + 1) == i);
        }
    }
}

/// Byte offsets grow by at least one per char.
pub proof fn lemma_byte_offset_grows(s: Seq<char>, i: int, j: int)
    requires
        0 <= i <= j <= s.len(),
    ensures
        byte_offset(s, i) + (j - i) <= byte_offset(s, j),
        byte_offset(s, 0) == 0,
    decreases j - i,
{
    assert(s.take(0) =~= Seq::<char>::empty());
    if i < j {
        lemma_byte_offset_step(s, j - 1);
        lemma_byte_offset_grows(s, i, j - 1);
    }
}

/// The byte offset after the last char is the length of the whole encoding.
pub proof fn lemma_byte_offset_end(s: Seq<char>)
    ensures
        byte_offset(s, s.len() as int) == encode_utf8(s).len(),
{
    assert(s.take(s.len() as int) =~= s);
}

/// `str::len`: the number of bytes in the UTF-8 encoding of `s`. The claim
/// believed without proof is that this count is the exact length of the
/// encoding of `s@` (it fits in a `usize` because it is one). vstd's own
/// specification of `str::len` gives that length cast to `usize`, which in a
/// proof may be a truncated value; the scans below need the exact length to
/// show that the byte offsets they add up never overflow.
#[verifier::external_body]
pub(crate) fn str_byte_len(s: &str) -> (n: usize)
    ensures
        n == encode_utf8(s@).len(),
{
    s.len()
}

/// The UTF-8 width of `c`.
pub(crate) fn char_width(c: char) -> (w: usize)
    ensures
        w == utf8_width(c),
        1 <= w <= 4,
{
    proof {
        vstd::utf8::char_is_scalar(c);
    }
    let v = c as u32;
    if v < 0x80 {
        1
    } else if v < 0x800 {
        2
    } else if v < 0x10000 {
        3
    } else {
        4
    }
}

/// Whether the chars `h[from..]` begin with the chars of `needle`.
pub(crate) fn chars_start_with(h: &Vec<char>, from: usize, needle: &Vec<char>) -> (b: bool)
    requires
        from <= h.len(),
    ensures
        b == needle@.is_prefix_of(h@.skip(from as int)),
{
    let ghost rest = h@.skip(from as int);
    if needle.len() > h.len() - from {
        return false;
    }
    let mut i: usize = 0;
    while i < needle.len()
        invariant
            from + needle.len() <= h.len(),
            rest == h@.skip(from as int),
            i <= needle.len(),
            forall|j: int| 0 <= j < i ==> needle@[j] == rest[j],
        decreases needle.len() - i,
    {
        if h[from + i] != needle[i] {
            assert(rest[i as int] != needle@[i as int]);
            return false;
        }
        i = i + 1;
    }
    assert(needle@ =~= rest.subrange(0, needle@.len() as int));
    true
}

/// Whether `haystack` begins with `needle`.
pub fn fast_starts_with(haystack: &str, needle: &str) -> (b: bool)
    ensures
        b == needle@.is_prefix_of(haystack@),
        b == needle.spec_bytes().is_prefix_of(haystack.spec_bytes()),
{
    let h = str_chars(haystack);
    let n = str_chars(needle);
    assert(h@.skip(0) =~= h@);
    proof {
        lemma_encode_prefix(needle@, haystack@);
    }
    chars_start_with(&h, 0, &n)
}

/// Whether the part of `haystack` from byte offset `start` on begins with
/// `needle`. `start` must be a char boundary of `haystack` (its length
/// included), where `haystack` can be sliced.
pub fn fast_starts_with_from(haystack: &str, needle: &str, start: usize) -> (b: bool)
    requires
        is_char_boundary(haystack.spec_bytes(), start as int),
    ensures
        b == needle.spec_bytes().is_prefix_of(haystack.spec_bytes().skip(start as int)),
        forall|k: int|
            0 <= k <= haystack@.len() && byte_offset(haystack@, k) == start ==> b
                == needle@.is_prefix_of(#[trigger] haystack@.skip(k)),
{
    let h = str_chars(haystack);
    let n = str_chars(needle);
    let ghost s = haystack@;
    proof {
        lemma_char_start_iff_boundary(s, start as int);
    }
    let ghost target = choose|k: int| 0 <= k <= s.len() && byte_offset(s, k) == start;
    let mut i: usize = 0;
    let mut offset: usize = 0;
    proof {
        lemma_byte_offset_grows(s, 0, 0);
    }
    while offset < start
        invariant
            h@ == s,
            0 <= target <= s.len(),
            byte_offset(s, target) == start,
            i <= target,
            offset == byte_offset(s, i as int),
        decreases target - i,
    {
        proof {
            if i == target {
                assert(false);
            }
            assert(i < h.len());
            lemma_byte_offset_step(s, i as int);
            lemma_byte_offset_grows(s, i + 1, target);
        }
        offset = offset + char_width(h[i]);
        i = i + 1;
    }
    proof {
        if i < target {
            lemma_byte_offset_grows(s, i + 1, target);
            lemma_byte_offset_grows(s, i as int, i + 1);
        }
        assert forall|k: int|
            0 <= k <= s.len() && byte_offset(s, k) == start implies k == i by {
            if k < i {
                lemma_byte_offset_grows(s, k, i as int);
            } else if k > i {
                lemma_byte_offset_grows(s, i as int, k);
            }
        }
        lemma_encode_skip(s, i as int);
        lemma_encode_prefix(needle@, s.skip(i as int));
    }
    chars_start_with(&h, i, &n)
}

proof fn lemma_char_nonneg(c: char)
    ensures
        '\0' <= c,
{
}

/// Testing from byte offset zero is testing from the start: offset zero is
/// always a char boundary and the part from it is the whole string, so
/// `fast_starts_with_from(h, n, 0)` is `fast_starts_with(h, n)`.
pub proof fn lemma_starts_with_from_zero(s: Seq<char>)
    ensures
        is_char_boundary(encode_utf8(s), 0),
        encode_utf8(s).skip(0) == encode_utf8(s),
        forall|k: int| 0 <= k <= s.len() && byte_offset(s, k) == 0 ==> k == 0,
        s.skip(0) == s,
{
    broadcast use vstd::utf8::encode_utf8_valid_utf8;

    assert(encode_utf8(s).skip(0) =~= encode_utf8(s));
    lemma_byte_offset_grows(s, 0, 0);
    assert(s.skip(0) =~= s);
    assert forall|k: int| 0 <= k <= s.len() && byte_offset(s, k) == 0 implies k == 0 by {
        lemma_byte_offset_grows(s, 0, k);
    }
}

/// Whether `pattern` holds a char outside ASCII.
pub fn has_unicode(pattern: &str) -> (b: bool)
    ensures
        b == !vstd::utf8::is_ascii_chars(pattern@),
{
    broadcast use vstd::string::axiom_spec_iter;

    for c in it: pattern.chars()
        invariant
            it.seq() == pattern@,
            forall|j: int| 0 <= j < it.index() ==> '\0' <= #[trigger] pattern@[j] <= '\u{7f}',
    {
        if c > '\u{7f}' {
            return true;
        }
        proof {
            lemma_char_nonneg(c);
        }
    }
    false
}

} // verus!
