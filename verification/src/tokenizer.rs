//! Splitting patterns into runs of allowed chars and hashing the runs.
//!
//! A token is a maximal run of chars that the token class allows, and its
//! hash is the hash of the run's own chars. The filter rules that speak of a
//! token's length measure it in UTF-8 bytes. At most `TOKENS_BUFFER_SIZE`
//! tokens are produced.
use vstd::prelude::*;

use crate::chars::{
    byte_offset, char_width, lemma_byte_offset_end, lemma_byte_offset_grows,
    lemma_byte_offset_step, lemma_encode_skip, str_byte_len, str_chars,
};
use crate::hash::{hash_char_range, hash_chars};
use crate::search::{compact_tokens, is_strictly_increasing, lemma_strictly_increasing_unique};
use crate::TOKENS_BUFFER_SIZE;
use vstd::utf8::encode_utf8;

verus! {

/// Which chars may stand inside a token.
#[derive(Clone, Copy, PartialEq, Eq)]
pub enum TokenClass {
    /// Alphanumeric chars and `%`.
    Filter,
    /// Alphanumeric chars, `%`, `_` and `-`.
    Hostname,
}

/// What `char::is_alphanumeric` returns for `c` (the Unicode `Alphabetic` or
/// `Numeric` property). The library speaks of it only for chars beyond ASCII,
/// where std looks the answer up in the Unicode tables.
pub uninterp spec fn unicode_alphanumeric(c: char) -> bool;

/// An ASCII letter or digit.
pub open spec fn is_ascii_letter_or_digit(c: char) -> bool {
    ||| 'a' <= c <= 'z'
    ||| 'A' <= c <= 'Z'
    ||| '0' <= c <= '9'
}

/// Whether `c` is alphanumeric: for an ASCII char, whether it is a letter or a
/// digit; beyond ASCII, the Unicode answer.
pub open spec fn char_is_alphanumeric(c: char) -> bool {
    if c <= '\u{7f}' {
        is_ascii_letter_or_digit(c)
    } else {
        unicode_alphanumeric(c)
    }
}

/// `char::is_alphanumeric`. Believed without proof: on an ASCII char it is
/// true exactly for `a`-`z`, `A`-`Z` and `0`-`9` (std's source answers ASCII
/// chars by these ranges: `is_alphabetic` matches `'a'..='z' | 'A'..='Z'`,
/// `is_numeric` matches `'0'..='9'`, and both consult the Unicode tables only
/// above `'\x7f'`); beyond ASCII its result is the named value
/// `unicode_alphanumeric(c)`, which depends on `c` alone. Nothing of the
/// Unicode tables is stated.
#[verifier::external_body]
fn is_alphanumeric(c: char) -> (b: bool)
    ensures
        c <= '\u{7f}' ==> (b == is_ascii_letter_or_digit(c)),
        c > '\u{7f}' ==> (b == unicode_alphanumeric(c)),
{
    c.is_alphanumeric()
}

/// Chars allowed in a filter token.
pub open spec fn allowed_in_filter(c: char) -> bool {
    char_is_alphanumeric(c) || c == '%'
}

/// Chars allowed in a hostname token.
pub open spec fn allowed_in_hostname(c: char) -> bool {
    allowed_in_filter(c) || c == '_' || c == '-'
}

/// Whether `class` allows `c` inside a token.
pub open spec fn class_allows(class: TokenClass, c: char) -> bool {
    match class {
        TokenClass::Filter => allowed_in_filter(c),
        TokenClass::Hostname => allowed_in_hostname(c),
    }
}

fn is_allowed_filter(ch: char) -> (b: bool)
    ensures
        b == allowed_in_filter(ch),
{
    is_alphanumeric(ch) || ch == '%'
}

fn is_allowed_hostname(ch: char) -> (b: bool)
    ensures
        b == allowed_in_hostname(ch),
{
    is_allowed_filter(ch) || ch == '_' || ch == '-'
}

fn is_allowed(class: TokenClass, ch: char) -> (b: bool)
    ensures
        b == class_allows(class, ch),
{
    match class {
        TokenClass::Filter => is_allowed_filter(ch),
        TokenClass::Hostname => is_allowed_hostname(ch),
    }
}

/// Which chars of `s` `class` allows, by index.
pub open spec fn class_mask(s: Seq<char>, class: TokenClass) -> Seq<bool> {
    Seq::new(s.len(), |i: int| class_allows(class, s[i]))
}

/// The index at which the maximal run of allowed chars that ends just before
/// index `k` begins (`k` itself when the char before `k` is not allowed);
/// `allowed[i]` says whether char `i` may stand in a token.
pub open spec fn run_start(allowed: Seq<bool>, k: int) -> int
    decreases k,
{
    if k <= 0 || !allowed[k - 1] {
        k
    } else {
        run_start(allowed, k - 1)
    }
}

/// The hash of the run of chars with indices from `a` up to `k`.
pub open spec fn run_hash(s: Seq<char>, a: int, k: int) -> u32 {
    hash_chars(s.subrange(a, k))
}

/// Whether the run `[a, k)`, closed by the char at `k`, is kept. Without
/// `strict` every run is kept. With it, a run is dropped when it starts the
/// pattern and `skip_first` holds, when it spans at most one byte, or when a
/// `*` stands right before or right after it.
pub open spec fn closed_run_kept(
    s: Seq<char>,
    strict: bool,
    skip_first: bool,
    a: int,
    k: int,
) -> bool {
    !strict || {
        &&& !skip_first || byte_offset(s, a) != 0
        &&& byte_offset(s, k) - byte_offset(s, a) > 1
        &&& s[k] != '*'
        &&& a == 0 || s[a - 1] != '*'
    }
}

/// Whether the run `[a, n)` that reaches the end of the pattern is kept.
/// Without `strict` it is; with it, it is dropped when `skip_last` holds, when
/// it spans at most one byte, or when a `*` stands right before it.
pub open spec fn final_run_kept(s: Seq<char>, strict: bool, skip_last: bool, a: int) -> bool {
    !strict || {
        &&& byte_offset(s, s.len() as int) - byte_offset(s, a) > 1
        &&& a == 0 || s[a - 1] != '*'
        &&& !skip_last
    }
}

/// The hashes of the kept runs that are closed by one of the first `k` chars,
/// in order.
pub open spec fn closed_tokens(
    s: Seq<char>,
    allowed: Seq<bool>,
    strict: bool,
    skip_first: bool,
    k: int,
) -> Seq<u32>
    decreases k,
{
    if k <= 0 {
        seq![]
    } else {
        let j = k - 1;
        let prev = closed_tokens(s, allowed, strict, skip_first, j);
        let a = run_start(allowed, j);
        if !allowed[j] && a < j && closed_run_kept(s, strict, skip_first, a, j) {
            prev.push(run_hash(s, a, j))
        } else {
            prev
        }
    }
}

/// The hashes of all kept runs of `s`, in order.
pub open spec fn all_tokens(
    s: Seq<char>,
    allowed: Seq<bool>,
    strict: bool,
    skip_first: bool,
    skip_last: bool,
) -> Seq<u32> {
    let n = s.len() as int;
    let closed = closed_tokens(s, allowed, strict, skip_first, n);
    let a = run_start(allowed, n);
    if a < n && final_run_kept(s, strict, skip_last, a) {
        closed.push(run_hash(s, a, n))
    } else {
        closed
    }
}

/// The first `TOKENS_BUFFER_SIZE` of `t`.
pub open spec fn capped(t: Seq<u32>) -> Seq<u32> {
    if t.len() <= TOKENS_BUFFER_SIZE {
        t
    } else {
        t.take(TOKENS_BUFFER_SIZE as int)
    }
}

/// The tokens of a filter pattern, with the `*` and length rules.
pub open spec fn filter_tokens(s: Seq<char>, skip_first: bool, skip_last: bool) -> Seq<u32> {
    capped(all_tokens(s, class_mask(s, TokenClass::Filter), true, skip_first, skip_last))
}

/// All runs of chars that `class` allows, hashed.
pub open spec fn plain_tokens(s: Seq<char>, class: TokenClass) -> Seq<u32> {
    capped(all_tokens(s, class_mask(s, class), false, false, false))
}

/// The last char before the run that ends just before `k`, if any: the last
/// char before `k` that is not marked as allowed.
pub open spec fn char_before_run(s: Seq<char>, allowed: Seq<bool>, k: int) -> Option<char> {
    let a = run_start(allowed, k);
    if a == 0 {
        None
    } else {
        Some(s[a - 1])
    }
}

proof fn lemma_run_start_bounds(allowed: Seq<bool>, k: int)
    requires
        0 <= k,
    ensures
        0 <= run_start(allowed, k) <= k,
    decreases k,
{
    if k > 0 && allowed[k - 1] {
        lemma_run_start_bounds(allowed, k - 1);
    }
}

proof fn lemma_closed_tokens_prefix(
    s: Seq<char>,
    allowed: Seq<bool>,
    strict: bool,
    skip_first: bool,
    k: int,
    m: int,
)
    requires
        0 <= k <= m,
    ensures
        closed_tokens(s, allowed, strict, skip_first, k).is_prefix_of(
            closed_tokens(s, allowed, strict, skip_first, m),
        ),
    decreases m - k,
{
    let tk = closed_tokens(s, allowed, strict, skip_first, k);
    if k < m {
        lemma_closed_tokens_prefix(s, allowed, strict, skip_first, k, m - 1);
        let tm1 = closed_tokens(s, allowed, strict, skip_first, m - 1);
        let tm = closed_tokens(s, allowed, strict, skip_first, m);
        assert(tm1.is_prefix_of(tm)) by {
            assert(tm1 =~= tm.subrange(0, tm1.len() as int));
        }
        assert(tk =~= tm.subrange(0, tk.len() as int));
    } else {
        assert(tk =~= tk.subrange(0, tk.len() as int));
    }
}

/// After the scan stopped at `k` with a full buffer and no open run, the
/// capped token list is the buffer.
proof fn lemma_full_buffer(
    s: Seq<char>,
    allowed: Seq<bool>,
    strict: bool,
    skip_first: bool,
    skip_last: bool,
    k: int,
)
    requires
        0 <= k <= s.len(),
        closed_tokens(s, allowed, strict, skip_first, k).len() == TOKENS_BUFFER_SIZE,
    ensures
        capped(all_tokens(s, allowed, strict, skip_first, skip_last)) == closed_tokens(
            s,
            allowed,
            strict,
            skip_first,
            k,
        ),
{
    let n = s.len() as int;
    lemma_closed_tokens_prefix(s, allowed, strict, skip_first, k, n);
    let tk = closed_tokens(s, allowed, strict, skip_first, k);
    let tn = closed_tokens(s, allowed, strict, skip_first, n);
    let all = all_tokens(s, allowed, strict, skip_first, skip_last);
    assert(tk =~= all.subrange(0, tk.len() as int));
    if all.len() <= TOKENS_BUFFER_SIZE {
        assert(all =~= tk);
    } else {
        assert(all.take(TOKENS_BUFFER_SIZE as int) =~= tk);
    }
}

/// Which chars of `pattern` `class` allows, by index.
fn allowed_mask(pattern: &str, class: TokenClass) -> (mask: Vec<bool>)
    ensures
        mask@ == class_mask(pattern@, class),
{
    broadcast use vstd::string::axiom_spec_iter;

    let mut mask: Vec<bool> = Vec::new();
    for c in it: pattern.chars()
        invariant
            it.seq() == pattern@,
            mask@ == class_mask(pattern@, class).take(it.index()),
    {
        mask.push(is_allowed(class, c));
        assert(mask@ =~= class_mask(pattern@, class).take(it.index() + 1));
    }
    assert(mask@ =~= class_mask(pattern@, class));
    mask
}

/// Splits `pattern` into the maximal runs of chars marked in `allowed` (one
/// flag per char) and hashes the kept runs: a run is dropped when it starts
/// the pattern and `sip_first_token` holds, when it ends the pattern and
/// `skip_last_token` holds, when it spans at most one byte, or when a `*`
/// stands right before or right after it. At most `TOKENS_BUFFER_SIZE` tokens
/// are returned, the first ones.
pub fn fast_tokenizer_no_regex(
    pattern: &str,
    allowed: &Vec<bool>,
    sip_first_token: bool,
    skip_last_token: bool,
) -> (tokens: Vec<u32>)
    requires
        allowed@.len() == pattern@.len(),
    ensures
        tokens@ == capped(all_tokens(pattern@, allowed@, true, sip_first_token, skip_last_token)),
        tokens.len() <= TOKENS_BUFFER_SIZE,
{
    let chars = str_chars(pattern);
    let total = str_byte_len(pattern);
    let ghost s = pattern@;
    let ghost mask = allowed@;
    let ghost n = s.len() as int;
    proof {
        lemma_byte_offset_end(s);
        lemma_byte_offset_grows(s, 0, 0);
    }
    let mut tokens: Vec<u32> = Vec::new();
    let mut inside: bool = false;
    let mut start: usize = 0;
    let mut start_char: usize = 0;
    let mut preceding_ch: Option<char> = None;
    let mut k: usize = 0;
    let mut i: usize = 0;
    while k < chars.len() && tokens.len() < TOKENS_BUFFER_SIZE
        invariant
            chars@ == s,
            allowed@ == mask,
            n == s.len() == mask.len(),
            total == byte_offset(s, n),
            0 <= k <= n,
            i == byte_offset(s, k as int),
            inside == (run_start(mask, k as int) < k),
            inside ==> start == byte_offset(s, run_start(mask, k as int)),
            inside ==> start <= i,
            inside ==> start_char == run_start(mask, k as int),
            preceding_ch == char_before_run(s, mask, k as int),
            tokens@ == closed_tokens(s, mask, true, sip_first_token, k as int),
            tokens.len() <= TOKENS_BUFFER_SIZE,
            tokens.len() == TOKENS_BUFFER_SIZE ==> !inside,
        decreases n - k,
    {
        let c = chars[k];
        proof {
            lemma_run_start_bounds(mask, k as int);
            lemma_byte_offset_step(s, k as int);
            lemma_byte_offset_grows(s, k + 1, n);
            if inside {
                lemma_byte_offset_grows(s, run_start(mask, k as int), k as int);
            }
        }
        if allowed[k] {
            if !inside {
                inside = true;
                start = i;
                start_char = k;
            }
        } else if inside {
            inside = false;
            let not_after_star = match preceding_ch {
                Some(p) => p != '*',
                None => true,
            };
            if (!sip_first_token || start != 0) && i - start > 1 && c != '*' && not_after_star {
                tokens.push(hash_char_range(&chars, start_char, k));
            }
            preceding_ch = Some(c);
        } else {
            preceding_ch = Some(c);
        }
        i = i + char_width(c);
        k = k + 1;
    }
    proof {
        lemma_run_start_bounds(mask, k as int);
        if inside {
            lemma_byte_offset_grows(s, run_start(mask, k as int), k as int);
        }
    }
    if k < chars.len() {
        proof {
            lemma_full_buffer(s, mask, true, sip_first_token, skip_last_token, k as int);
        }
        return tokens;
    }
    let not_after_star = match preceding_ch {
        Some(p) => p != '*',
        None => true,
    };
    if inside && total - start > 1 && not_after_star && !skip_last_token {
        tokens.push(hash_char_range(&chars, start_char, chars.len()));
    }
    tokens
}

/// Splits `pattern` into the maximal runs of chars marked in `allowed` (one
/// flag per char) and hashes every run. At most `TOKENS_BUFFER_SIZE` tokens
/// are returned, the first ones.
pub fn fast_tokenizer(pattern: &str, allowed: &Vec<bool>) -> (tokens: Vec<u32>)
    requires
        allowed@.len() == pattern@.len(),
    ensures
        tokens@ == capped(all_tokens(pattern@, allowed@, false, false, false)),
        tokens.len() <= TOKENS_BUFFER_SIZE,
{
    let chars = str_chars(pattern);
    let ghost s = pattern@;
    let ghost mask = allowed@;
    let ghost n = s.len() as int;
    let mut tokens: Vec<u32> = Vec::new();
    let mut inside: bool = false;
    let mut start_char: usize = 0;
    let mut k: usize = 0;
    while k < chars.len() && tokens.len() < TOKENS_BUFFER_SIZE
        invariant
            chars@ == s,
            allowed@ == mask,
            n == s.len() == mask.len(),
            0 <= k <= n,
            inside == (run_start(mask, k as int) < k),
            inside ==> start_char == run_start(mask, k as int),
            tokens@ == closed_tokens(s, mask, false, false, k as int),
            tokens.len() <= TOKENS_BUFFER_SIZE,
            tokens.len() == TOKENS_BUFFER_SIZE ==> !inside,
        decreases n - k,
    {
        proof {
            lemma_run_start_bounds(mask, k as int);
        }
        if allowed[k] {
            if !inside {
                inside = true;
                start_char = k;
            }
        } else if inside {
            inside = false;
            tokens.push(hash_char_range(&chars, start_char, k));
        }
        k = k + 1;
    }
    proof {
        lemma_run_start_bounds(mask, k as int);
    }
    if k < chars.len() {
        proof {
            lemma_full_buffer(s, mask, false, false, false, k as int);
        }
        return tokens;
    }
    if inside {
        tokens.push(hash_char_range(&chars, start_char, chars.len()));
    }
    tokens
}

/// The tokens of a filter pattern: runs of alphanumeric chars and `%` that
/// span more than one byte and touch no `*`.
pub fn tokenize(pattern: &str) -> (tokens: Vec<u32>)
    ensures
        tokens@ == filter_tokens(pattern@, false, false),
        tokens.len() <= TOKENS_BUFFER_SIZE,
{
    let allowed = allowed_mask(pattern, TokenClass::Filter);
    fast_tokenizer_no_regex(pattern, &allowed, false, false)
}

/// The tokens of a filter pattern, leaving out a first token that starts the
/// pattern when `sip_first_token` holds and the token that ends the pattern
/// when `skip_last_token` holds.
pub fn tokenize_filter(pattern: &str, sip_first_token: bool, skip_last_token: bool) -> (tokens:
    Vec<u32>)
    ensures
        tokens@ == filter_tokens(pattern@, sip_first_token, skip_last_token),
        tokens.len() <= TOKENS_BUFFER_SIZE,
{
    let allowed = allowed_mask(pattern, TokenClass::Filter);
    fast_tokenizer_no_regex(pattern, &allowed, sip_first_token, skip_last_token)
}

/// The tokens of a hostname: every run of alphanumeric chars, `%`, `_` and
/// `-`.
pub fn tokenize_hostnames(pattern: &str) -> (tokens: Vec<u32>)
    ensures
        tokens@ == plain_tokens(pattern@, TokenClass::Hostname),
        tokens.len() <= TOKENS_BUFFER_SIZE,
{
    let allowed = allowed_mask(pattern, TokenClass::Hostname);
    fast_tokenizer(pattern, &allowed)
}

/// `sig` is the fuzzy signature of the pattern `s`: the distinct hashes of its
/// filter-class runs, in increasing order.
pub open spec fn is_fuzzy_signature_of(s: Seq<char>, sig: Seq<u32>) -> bool {
    &&& is_strictly_increasing(sig)
    &&& sig.to_set() == plain_tokens(s, TokenClass::Filter).to_set()
}

/// The sorted, distinct hashes of every run of alphanumeric chars and `%` in
/// `pattern`.
pub fn create_fuzzy_signature(pattern: &str) -> (sig: Vec<u32>)
    ensures
        is_fuzzy_signature_of(pattern@, sig@),
{
    let allowed = allowed_mask(pattern, TokenClass::Filter);
    let mut tokens = fast_tokenizer(pattern, &allowed);
    compact_tokens(&mut tokens);
    tokens
}

/// Two patterns whose runs hash to the same set of values have the same fuzzy
/// signature, whatever the order or repetition of the runs; in particular
/// each pattern has exactly one.
pub proof fn lemma_fuzzy_signature_depends_on_token_set(
    p1: Seq<char>,
    p2: Seq<char>,
    sig1: Seq<u32>,
    sig2: Seq<u32>,
)
    requires
        is_fuzzy_signature_of(p1, sig1),
        is_fuzzy_signature_of(p2, sig2),
        plain_tokens(p1, TokenClass::Filter).to_set() == plain_tokens(
            p2,
            TokenClass::Filter,
        ).to_set(),
    ensures
        sig1 == sig2,
{
    lemma_strictly_increasing_unique(sig1, sig2);
}

proof fn lemma_run_start_agree(m1: Seq<bool>, m2: Seq<bool>, k: int)
    requires
        0 <= k <= m1.len(),
        k <= m2.len(),
        forall|j: int| 0 <= j < k ==> m1[j] == m2[j],
    ensures
        run_start(m1, k) == run_start(m2, k),
    decreases k,
{
    if k > 0 {
        lemma_run_start_agree(m1, m2, k - 1);
    }
}

proof fn lemma_closed_tokens_agree(s1: Seq<char>, m1: Seq<bool>, s2: Seq<char>, m2: Seq<bool>, k: int)
    requires
        0 <= k <= s1.len(),
        k <= s2.len(),
        m1.len() == s1.len(),
        m2.len() == s2.len(),
        forall|j: int| 0 <= j < k ==> m1[j] == m2[j] && s1[j] == s2[j],
    ensures
        closed_tokens(s1, m1, false, false, k) == closed_tokens(s2, m2, false, false, k),
    decreases k,
{
    if k > 0 {
        lemma_closed_tokens_agree(s1, m1, s2, m2, k - 1);
        lemma_run_start_agree(m1, m2, k - 1);
        lemma_run_start_bounds(m1, k - 1);
        let a = run_start(m1, k - 1);
        assert(s1.subrange(a, k - 1) =~= s2.subrange(a, k - 1));
    }
}

proof fn lemma_run_start_shift(m: Seq<bool>, d: int, t: int)
    requires
        1 <= d,
        0 <= t,
        d + t <= m.len(),
        !m[d - 1],
    ensures
        run_start(m, d + t) == d + run_start(m.subrange(d, m.len() as int), t),
    decreases t,
{
    if t > 0 {
        lemma_run_start_shift(m, d, t - 1);
        assert(m.subrange(d, m.len() as int)[t - 1] == m[d + t - 1]);
    }
}

proof fn lemma_closed_tokens_shift(s: Seq<char>, m: Seq<bool>, d: int, t: int)
    requires
        m.len() == s.len(),
        1 <= d,
        0 <= t,
        d + t <= s.len(),
        !m[d - 1],
    ensures
        closed_tokens(s, m, false, false, d + t) == closed_tokens(s, m, false, false, d)
            + closed_tokens(
            s.subrange(d, s.len() as int),
            m.subrange(d, s.len() as int),
            false,
            false,
            t,
        ),
    decreases t,
{
    let b = s.subrange(d, s.len() as int);
    let mb = m.subrange(d, s.len() as int);
    if t == 0 {
        assert(closed_tokens(s, m, false, false, d) =~= closed_tokens(s, m, false, false, d)
            + closed_tokens(b, mb, false, false, 0));
    } else {
        lemma_closed_tokens_shift(s, m, d, t - 1);
        lemma_run_start_shift(m, d, t - 1);
        lemma_run_start_bounds(mb, t - 1);
        let a = run_start(mb, t - 1);
        assert(mb[t - 1] == m[d + t - 1]);
        assert(s.subrange(d + a, d + t - 1) =~= b.subrange(a, t - 1));
        let x = closed_tokens(s, m, false, false, d);
        let y = closed_tokens(b, mb, false, false, t - 1);
        assert((x + y).push(run_hash(b, a, t - 1)) =~= x + y.push(run_hash(b, a, t - 1)));
    }
}

/// The hashes of every run of chars that `class` allows in `s`, before the
/// cap on their number.
pub open spec fn all_plain_tokens(s: Seq<char>, class: TokenClass) -> Seq<u32> {
    all_tokens(s, class_mask(s, class), false, false, false)
}

/// Joining two patterns with a char that `class` does not allow joins their
/// token lists.
pub proof fn lemma_plain_tokens_concat(a: Seq<char>, b: Seq<char>, sep: char, class: TokenClass)
    requires
        !class_allows(class, sep),
    ensures
        all_plain_tokens(a + seq![sep] + b, class) == all_plain_tokens(a, class)
            + all_plain_tokens(b, class),
{
    let s = a + seq![sep] + b;
    let m = class_mask(s, class);
    let ma = class_mask(a, class);
    let mb = class_mask(b, class);
    let la = a.len() as int;
    let d = la + 1;
    let n = s.len() as int;
    assert(s.subrange(d, n) =~= b);
    assert(m.subrange(d, n) =~= mb);
    assert(!m[la]);
    assert forall|j: int| 0 <= j < la implies m[j] == ma[j] && s[j] == a[j] by {
        assert(s[j] == a[j]);
    }
    lemma_closed_tokens_agree(s, m, a, ma, la);
    lemma_run_start_agree(m, ma, la);
    lemma_run_start_bounds(ma, la);
    let a0 = run_start(ma, la);
    assert(s.subrange(a0, la) =~= a.subrange(a0, la));
    assert(closed_tokens(s, m, false, false, d) == all_plain_tokens(a, class));
    lemma_closed_tokens_shift(s, m, d, b.len() as int);
    lemma_run_start_shift(m, d, b.len() as int);
    lemma_run_start_bounds(mb, b.len() as int);
    let b0 = run_start(mb, b.len() as int);
    assert(s.subrange(d + b0, n) =~= b.subrange(b0, b.len() as int));
    let x = all_plain_tokens(a, class);
    let y = closed_tokens(b, mb, false, false, b.len() as int);
    assert((x + y).push(run_hash(b, b0, b.len() as int)) =~= x + y.push(
        run_hash(b, b0, b.len() as int),
    ));
}

proof fn lemma_same_set_swap(x: Seq<u32>, y: Seq<u32>)
    ensures
        (x + y).to_set() == (y + x).to_set(),
{
    assert forall|v: u32| (x + y).to_set().contains(v) == (y + x).to_set().contains(v) by {
        assert((x + y).to_set().contains(v) == (x + y).contains(v));
        assert((y + x).to_set().contains(v) == (y + x).contains(v));
        if (x + y).contains(v) {
            let i = choose|i: int| 0 <= i < (x + y).len() && (x + y)[i] == v;
            if i < x.len() {
                assert((y + x)[y.len() + i] == v);
            } else {
                assert((y + x)[i - x.len()] == v);
            }
        }
        if (y + x).contains(v) {
            let i = choose|i: int| 0 <= i < (y + x).len() && (y + x)[i] == v;
            if i < y.len() {
                assert((x + y)[x.len() + i] == v);
            } else {
                assert((x + y)[i - y.len()] == v);
            }
        }
    }
    assert((x + y).to_set() =~= (y + x).to_set());
}

proof fn lemma_capped_double_set(x: Seq<u32>)
    ensures
        capped(x + x).to_set() == capped(x).to_set(),
{
    let xx = x + x;
    if x.len() > TOKENS_BUFFER_SIZE {
        assert(capped(xx) =~= capped(x));
    } else {
        let c = capped(xx);
        assert(x.len() <= c.len());
        assert forall|v: u32| c.to_set().contains(v) == x.to_set().contains(v) by {
            assert(c.to_set().contains(v) == c.contains(v));
            assert(x.to_set().contains(v) == x.contains(v));
            if c.contains(v) {
                let i = choose|i: int| 0 <= i < c.len() && c[i] == v;
                assert(xx[i] == v);
                if i < x.len() {
                    assert(x[i] == v);
                } else {
                    assert(x[i - x.len()] == v);
                }
            }
            if x.contains(v) {
                let i = choose|i: int| 0 <= i < x.len() && x[i] == v;
                assert(c[i] == v);
            }
        }
        assert(c.to_set() =~= x.to_set());
    }
}

/// Swapping two parts of a pattern around a separator that is not a token
/// char leaves the fuzzy signature unchanged, as long as their tokens fit in
/// the token buffer together.
pub proof fn lemma_fuzzy_signature_swap(
    a: Seq<char>,
    b: Seq<char>,
    sep: char,
    sig1: Seq<u32>,
    sig2: Seq<u32>,
)
    requires
        !class_allows(TokenClass::Filter, sep),
        all_plain_tokens(a, TokenClass::Filter).len() + all_plain_tokens(
            b,
            TokenClass::Filter,
        ).len() <= TOKENS_BUFFER_SIZE,
        is_fuzzy_signature_of(a + seq![sep] + b, sig1),
        is_fuzzy_signature_of(b + seq![sep] + a, sig2),
    ensures
        sig1 == sig2,
{
    lemma_plain_tokens_concat(a, b, sep, TokenClass::Filter);
    lemma_plain_tokens_concat(b, a, sep, TokenClass::Filter);
    lemma_same_set_swap(
        all_plain_tokens(a, TokenClass::Filter),
        all_plain_tokens(b, TokenClass::Filter),
    );
    lemma_strictly_increasing_unique(sig1, sig2);
}

/// Repeating a pattern after a separator that is not a token char leaves the
/// fuzzy signature unchanged.
pub proof fn lemma_fuzzy_signature_repeat(p: Seq<char>, sep: char, sig1: Seq<u32>, sig2: Seq<u32>)
    requires
        !class_allows(TokenClass::Filter, sep),
        is_fuzzy_signature_of(p + seq![sep] + p, sig1),
        is_fuzzy_signature_of(p, sig2),
    ensures
        sig1 == sig2,
{
    lemma_plain_tokens_concat(p, p, sep, TokenClass::Filter);
    lemma_capped_double_set(all_plain_tokens(p, TokenClass::Filter));
    lemma_strictly_increasing_unique(sig1, sig2);
}

/// Swapping two parts of a pattern around a space leaves the fuzzy signature
/// unchanged, as long as their tokens fit in the token buffer together.
pub proof fn lemma_fuzzy_signature_swap_around_space(
    a: Seq<char>,
    b: Seq<char>,
    sig1: Seq<u32>,
    sig2: Seq<u32>,
)
    requires
        all_plain_tokens(a, TokenClass::Filter).len() + all_plain_tokens(
            b,
            TokenClass::Filter,
        ).len() <= TOKENS_BUFFER_SIZE,
        is_fuzzy_signature_of(a + seq![' '] + b, sig1),
        is_fuzzy_signature_of(b + seq![' '] + a, sig2),
    ensures
        sig1 == sig2,
{
    lemma_fuzzy_signature_swap(a, b, ' ', sig1, sig2);
}

/// Repeating a pattern after a space leaves the fuzzy signature unchanged.
pub proof fn lemma_fuzzy_signature_repeat_after_space(p: Seq<char>, sig1: Seq<u32>, sig2: Seq<u32>)
    requires
        is_fuzzy_signature_of(p + seq![' '] + p, sig1),
        is_fuzzy_signature_of(p, sig2),
    ensures
        sig1 == sig2,
{
    lemma_fuzzy_signature_repeat(p, ' ', sig1, sig2);
}

proof fn lemma_run_allowed(m: Seq<bool>, k: int)
    requires
        0 <= k <= m.len(),
    ensures
        forall|i: int| run_start(m, k) <= i < k ==> m[i],
    decreases k,
{
    if k > 0 && m[k - 1] {
        lemma_run_allowed(m, k - 1);
    }
}

proof fn lemma_skip_first_closed(s: Seq<char>, m: Seq<bool>, k: int)
    requires
        0 <= k <= s.len(),
        m.len() == s.len(),
        s.len() == 0 || !m[0],
    ensures
        closed_tokens(s, m, true, true, k) == closed_tokens(s, m, true, false, k),
    decreases k,
{
    if k > 0 {
        lemma_skip_first_closed(s, m, k - 1);
        lemma_run_allowed(m, k - 1);
        lemma_run_start_bounds(m, k - 1);
        let a = run_start(m, k - 1);
        if a < k - 1 {
            assert(m[a]);
            assert(a != 0);
            lemma_byte_offset_grows(s, 0, a);
        }
    }
}

/// When a filter pattern does not begin with a token char, leaving out a
/// first token that starts the pattern changes nothing.
pub proof fn lemma_skip_first_no_effect(s: Seq<char>, skip_last: bool)
    requires
        s.len() == 0 || !class_allows(TokenClass::Filter, s[0]),
    ensures
        filter_tokens(s, true, skip_last) == filter_tokens(s, false, skip_last),
{
    lemma_skip_first_closed(s, class_mask(s, TokenClass::Filter), s.len() as int);
}

/// When a filter pattern does not end with a token char, leaving out the last
/// token changes nothing.
pub proof fn lemma_skip_last_no_effect(s: Seq<char>, skip_first: bool)
    requires
        s.len() == 0 || !class_allows(TokenClass::Filter, s.last()),
    ensures
        filter_tokens(s, skip_first, true) == filter_tokens(s, skip_first, false),
{
}

/// The chars of each token class, spelled out: on ASCII, a filter token char
/// is exactly a letter, a digit or `%`, and a hostname token char is exactly
/// one of those, `_` or `-`; beyond ASCII both are the alphanumeric chars.
pub proof fn lemma_token_chars(c: char)
    ensures
        c <= '\u{7f}' ==> (class_allows(TokenClass::Filter, c) <==> ('a' <= c <= 'z' || 'A' <= c
            <= 'Z' || '0' <= c <= '9' || c == '%')),
        c <= '\u{7f}' ==> (class_allows(TokenClass::Hostname, c) <==> ('a' <= c <= 'z' || 'A'
            <= c <= 'Z' || '0' <= c <= '9' || c == '%' || c == '_' || c == '-')),
        c > '\u{7f}' ==> (class_allows(TokenClass::Filter, c) == unicode_alphanumeric(c)),
        c > '\u{7f}' ==> (class_allows(TokenClass::Hostname, c) == unicode_alphanumeric(c)),
{
}

proof fn lemma_run_start_of_run(m: Seq<bool>, a: int, k: int)
    requires
        0 <= a <= k <= m.len(),
        forall|i: int| a <= i < k ==> m[i],
        a == 0 || !m[a - 1],
    ensures
        run_start(m, k) == a,
    decreases k - a,
{
    if k > a {
        lemma_run_start_of_run(m, a, k - 1);
    }
}

proof fn lemma_no_closed_tokens(s: Seq<char>, m: Seq<bool>, strict: bool, skip_first: bool, k: int)
    requires
        0 <= k <= m.len(),
        forall|i: int| 0 <= i < m.len() ==> m[i],
    ensures
        closed_tokens(s, m, strict, skip_first, k) == Seq::<u32>::empty(),
    decreases k,
{
    if k > 0 {
        lemma_no_closed_tokens(s, m, strict, skip_first, k - 1);
    }
}

/// A pattern with no chars has no tokens.
pub proof fn lemma_empty_pattern_tokens(class: TokenClass, skip_first: bool, skip_last: bool)
    ensures
        plain_tokens(Seq::<char>::empty(), class) == Seq::<u32>::empty(),
        filter_tokens(Seq::<char>::empty(), skip_first, skip_last) == Seq::<u32>::empty(),
{
}

/// A nonempty pattern made only of token chars is one run, and its only
/// plain token is the hash of the whole pattern.
pub proof fn lemma_single_run_plain_tokens(s: Seq<char>, class: TokenClass)
    requires
        s.len() > 0,
        forall|i: int| 0 <= i < s.len() ==> class_allows(class, #[trigger] s[i]),
    ensures
        plain_tokens(s, class) == seq![hash_chars(s)],
        all_plain_tokens(s, class) == seq![hash_chars(s)],
{
    let m = class_mask(s, class);
    let n = s.len() as int;
    lemma_no_closed_tokens(s, m, false, false, n);
    lemma_run_start_of_run(m, 0, n);
    assert(s.subrange(0, n) =~= s);
    assert(Seq::<u32>::empty().push(hash_chars(s)) =~= seq![hash_chars(s)]);
}

/// A filter pattern made only of filter token chars is one run that both
/// starts and ends the pattern. It gives the hash of the whole pattern when
/// it spans more than one byte and `skip_last_token` is off (a run that ends
/// the pattern is not subject to `sip_first_token`), and nothing otherwise;
/// in particular with `skip_last_token` set it gives nothing.
pub proof fn lemma_single_run_filter_tokens(s: Seq<char>, skip_first: bool, skip_last: bool)
    requires
        forall|i: int| 0 <= i < s.len() ==> class_allows(TokenClass::Filter, #[trigger] s[i]),
    ensures
        filter_tokens(s, skip_first, skip_last) == if !skip_last && encode_utf8(s).len() > 1 {
            seq![hash_chars(s)]
        } else {
            Seq::<u32>::empty()
        },
        filter_tokens(s, skip_first, true) == Seq::<u32>::empty(),
{
    let m = class_mask(s, TokenClass::Filter);
    let n = s.len() as int;
    lemma_no_closed_tokens(s, m, true, skip_first, n);
    lemma_byte_offset_end(s);
    lemma_byte_offset_grows(s, 0, n);
    if n > 0 {
        lemma_run_start_of_run(m, 0, n);
        assert(s.subrange(0, n) =~= s);
        assert(Seq::<u32>::empty().push(hash_chars(s)) =~= seq![hash_chars(s)]);
    } else {
        assert(s =~= Seq::<char>::empty());
    }
}

/// Every maximal run of token chars of a pattern, from index `a` up to `k`,
/// gives the hash of its own chars as a plain token; below the token cap it
/// is among the pattern's plain tokens.
pub proof fn lemma_every_run_is_a_plain_token(s: Seq<char>, class: TokenClass, a: int, k: int)
    requires
        0 <= a < k <= s.len(),
        forall|i: int| a <= i < k ==> class_allows(class, #[trigger] s[i]),
        a == 0 || !class_allows(class, s[a - 1]),
        k == s.len() || !class_allows(class, s[k]),
    ensures
        all_plain_tokens(s, class).contains(hash_chars(s.subrange(a, k))),
        all_plain_tokens(s, class).len() <= TOKENS_BUFFER_SIZE ==> plain_tokens(
            s,
            class,
        ).contains(hash_chars(s.subrange(a, k))),
{
    let m = class_mask(s, class);
    let n = s.len() as int;
    let h = hash_chars(s.subrange(a, k));
    lemma_run_start_of_run(m, a, k);
    let all = all_plain_tokens(s, class);
    if k < n {
        let ck = closed_tokens(s, m, false, false, k + 1);
        assert(ck == closed_tokens(s, m, false, false, k).push(h));
        assert(ck[ck.len() - 1] == h);
        lemma_closed_tokens_prefix(s, m, false, false, k + 1, n);
        let cn = closed_tokens(s, m, false, false, n);
        assert(cn[ck.len() - 1] == h);
        assert(all[ck.len() - 1] == h);
    } else {
        assert(all[all.len() - 1] == h);
    }
}

proof fn lemma_closed_tokens_stable(
    s: Seq<char>,
    m: Seq<bool>,
    strict: bool,
    skip_first: bool,
    k0: int,
    k: int,
)
    requires
        0 <= k0 <= k <= m.len(),
        forall|i: int| k0 <= i < k ==> m[i],
    ensures
        closed_tokens(s, m, strict, skip_first, k) == closed_tokens(s, m, strict, skip_first, k0),
    decreases k - k0,
{
    if k > k0 {
        lemma_closed_tokens_stable(s, m, strict, skip_first, k0, k - 1);
    }
}

/// A filter pattern made of two runs of filter token chars `a` and `b` with
/// one other char `sep` between them. The first run is kept when
/// `sip_first_token` is off, it spans more than one byte and `sep` is not `*`;
/// the second when `skip_last_token` is off, it spans more than one byte and
/// `sep` is not `*`. Each kept run gives the hash of its own chars, in order.
pub proof fn lemma_two_run_filter_tokens(
    a: Seq<char>,
    b: Seq<char>,
    sep: char,
    skip_first: bool,
    skip_last: bool,
)
    requires
        a.len() > 0,
        b.len() > 0,
        forall|i: int| 0 <= i < a.len() ==> class_allows(TokenClass::Filter, #[trigger] a[i]),
        forall|i: int| 0 <= i < b.len() ==> class_allows(TokenClass::Filter, #[trigger] b[i]),
        !class_allows(TokenClass::Filter, sep),
    ensures
        filter_tokens(a + seq![sep] + b, skip_first, skip_last) == (if !skip_first
            && encode_utf8(a).len() > 1 && sep != '*' {
            seq![hash_chars(a)]
        } else {
            Seq::<u32>::empty()
        }) + (if !skip_last && encode_utf8(b).len() > 1 && sep != '*' {
            seq![hash_chars(b)]
        } else {
            Seq::<u32>::empty()
        }),
{
    let s = a + seq![sep] + b;
    let m = class_mask(s, TokenClass::Filter);
    let la = a.len() as int;
    let d = la + 1;
    let n = s.len() as int;
    assert forall|i: int| 0 <= i < la implies m[i] by {
        assert(s[i] == a[i]);
    }
    assert forall|i: int| d <= i < n implies m[i] by {
        assert(s[i] == b[i - d]);
    }
    assert(s[la] == sep);
    assert(!m[la]);
    lemma_closed_tokens_stable(s, m, true, skip_first, 0, la);
    lemma_run_start_of_run(m, 0, la);
    lemma_closed_tokens_stable(s, m, true, skip_first, d, n);
    lemma_run_start_of_run(m, d, n);
    assert(s.take(la) =~= a);
    assert(s.subrange(0, la) =~= a);
    assert(s.subrange(d, n) =~= b);
    assert(s.skip(d) =~= b);
    lemma_byte_offset_grows(s, 0, 0);
    lemma_byte_offset_end(s);
    lemma_encode_skip(s, d);
    lemma_byte_offset_step(s, la);
    lemma_byte_offset_grows(s, d, n);
    let first = if !skip_first && encode_utf8(a).len() > 1 && sep != '*' {
        seq![hash_chars(a)]
    } else {
        Seq::<u32>::empty()
    };
    let second = if !skip_last && encode_utf8(b).len() > 1 && sep != '*' {
        seq![hash_chars(b)]
    } else {
        Seq::<u32>::empty()
    };
    let closed = closed_tokens(s, m, true, skip_first, d);
    assert(closed =~= first);
    let all = all_tokens(s, m, true, skip_first, skip_last);
    assert(all =~= first + second);
}

/// Capping keeps the first 200 tokens, in order, and drops only tokens past
/// the 200th.
pub proof fn lemma_cap_keeps_first_200(t: Seq<u32>)
    ensures
        capped(t).len() == if t.len() <= 200 {
            t.len()
        } else {
            200
        },
        forall|i: int| 0 <= i < capped(t).len() ==> #[trigger] capped(t)[i] == t[i],
{
}

/// Leaving out the last token only ever drops the end of the token list.
pub proof fn lemma_skip_last_is_prefix(s: Seq<char>, skip_first: bool)
    ensures
        filter_tokens(s, skip_first, true).is_prefix_of(filter_tokens(s, skip_first, false)),
{
    let mask = class_mask(s, TokenClass::Filter);
    let with_last = all_tokens(s, mask, true, skip_first, false);
    let without = all_tokens(s, mask, true, skip_first, true);
    assert(without =~= with_last.subrange(0, without.len() as int));
    let a = capped(without);
    let b = capped(with_last);
    assert(a =~= b.subrange(0, a.len() as int));
}

} // verus!
