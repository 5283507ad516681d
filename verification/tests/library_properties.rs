use pattern_tools::hash::fast_hash_between;
use pattern_tools::tokenizer::{fast_tokenizer, fast_tokenizer_no_regex};
use pattern_tools::{
    bin_lookup, bin_search, bit_count, clear_bit, create_fuzzy_signature, fast_hash,
    fast_starts_with, fast_starts_with_from, get_bit, has_unicode, set_bit, tokenize,
    tokenize_filter, tokenize_hostnames, TOKENS_BUFFER_SIZE,
};

fn hashes(tokens: &[&str]) -> Vec<u32> {
    tokens.iter().map(|t| fast_hash(t)).collect()
}

#[test]
fn get_after_set_and_clear() {
    for &n in &[0u32, 1, 0b1010, 0xdead_beef, u32::MAX] {
        for &m in &[0u32, 1, 0b0110, 0x8000_0000, u32::MAX] {
            assert_eq!(get_bit(set_bit(n, m), m), m != 0);
            assert_eq!(get_bit(clear_bit(n, m), m), false);
            assert_eq!(set_bit(set_bit(n, m), m), set_bit(n, m));
            assert_eq!(clear_bit(clear_bit(n, m), m), clear_bit(n, m));
            assert_eq!(clear_bit(set_bit(n, m), m), clear_bit(n, m));
            assert_eq!(set_bit(clear_bit(n, m), m), set_bit(n, m));
        }
    }
}

#[test]
fn bit_count_of_single_bit_updates() {
    let n = 0b1011_0000_0000_0000_0000_0000_0000_0101u32;
    for i in 0..32u32 {
        let bit = 1u32 << i;
        let was_set = get_bit(n, bit);
        assert_eq!(bit_count(set_bit(n, bit)), bit_count(n) + if was_set { 0 } else { 1 });
        assert_eq!(bit_count(clear_bit(n, bit)) + if was_set { 1 } else { 0 }, bit_count(n));
    }
    assert_eq!(bit_count(n), 5);
    assert_eq!(bit_count(0x8000_0000), 1);
}

#[test]
fn fast_hash_exact_values() {
    assert_eq!(fast_hash(""), 5381);
    assert_eq!(fast_hash("a"), 177604);
    assert_eq!(fast_hash("Ƭ"), 177161);
}

#[test]
fn fast_hash_between_cuts_at_end() {
    assert_eq!(fast_hash_between("abc", 1, 100), fast_hash("bc"));
    assert_eq!(fast_hash_between("abc", 5, 9), fast_hash(""));
    assert_eq!(fast_hash_between("abc", 2, 2), fast_hash(""));
    // char indices, not byte offsets
    assert_eq!(fast_hash_between("Ƭab", 1, 3), fast_hash("ab"));
}

#[test]
fn starts_with_edge_cases() {
    assert!(fast_starts_with("", ""));
    assert!(fast_starts_with("abc", ""));
    assert!(!fast_starts_with("a", "ab"));
    assert!(fast_starts_with("Ƭab", "Ƭa"));
    assert!(fast_starts_with_from("Ƭab", "ab", 2));
    assert!(!fast_starts_with_from("Ƭab", "Ƭ", 2));
    assert!(fast_starts_with_from("Ƭab", "", 4));
    assert!(fast_starts_with_from("Ƭab", "b", 3));
}

#[test]
fn has_unicode_edge_cases() {
    assert!(!has_unicode(""));
    assert!(!has_unicode("\u{7f}"));
    assert!(has_unicode("\u{80}"));
    assert!(has_unicode("abcƬ"));
}

#[test]
fn tokenize_uses_byte_lengths() {
    // a lone two-byte char spans more than one byte
    assert_eq!(tokenize("Ƭ"), hashes(&["Ƭ"]));
    // a one-byte token is dropped
    assert_eq!(tokenize("a bb c"), hashes(&["bb"]));
}

#[test]
fn tokens_hash_their_own_text_after_multibyte_chars() {
    assert_eq!(tokenize("ab€cd"), hashes(&["ab", "cd"]));
    assert_eq!(tokenize("Ƭ.foo"), hashes(&["Ƭ", "foo"]));
    assert_eq!(tokenize("éa/foo"), hashes(&["éa", "foo"]));
    assert_eq!(tokenize_hostnames("Ƭ.foo"), hashes(&["Ƭ", "foo"]));
    assert_eq!(create_fuzzy_signature("éa/foo"), {
        let mut v = hashes(&["éa", "foo"]);
        v.sort();
        v
    });
}

#[test]
fn tokenize_filter_first_token_rule() {
    assert_eq!(tokenize_filter("/foo bar", true, false), hashes(&["foo", "bar"]));
    assert_eq!(tokenize_filter("foo bar", true, false), hashes(&["bar"]));
    assert_eq!(tokenize_filter("foo", true, false), hashes(&["foo"]));
}

#[test]
fn skip_last_gives_a_prefix() {
    for p in &["foo/bar baz", "a*b cd", "xx yy*", "*", "qq rr/ss", "Ƭ.foo"] {
        for &sip in &[false, true] {
            let all = tokenize_filter(p, sip, false);
            let cut = tokenize_filter(p, sip, true);
            assert!(cut.len() <= all.len());
            assert_eq!(&all[..cut.len()], cut.as_slice());
        }
    }
}

#[test]
fn token_count_is_capped() {
    let many = "ab ".repeat(250);
    assert_eq!(tokenize(&many).len(), TOKENS_BUFFER_SIZE);
    assert_eq!(tokenize_hostnames(&many).len(), TOKENS_BUFFER_SIZE);
    let exact = "ab ".repeat(199) + "cd";
    assert_eq!(tokenize(&exact).len(), 200);
    assert_eq!(tokenize(&exact)[199], fast_hash("cd"));
    let over = "ab ".repeat(200) + "cd";
    assert_eq!(tokenize(&over).len(), 200);
    assert_eq!(tokenize(&over)[199], fast_hash("ab"));
}

#[test]
fn tokenizers_follow_the_mask() {
    let mask = vec![true, true, false, true, true];
    assert_eq!(fast_tokenizer("ab*cd", &mask), hashes(&["ab", "cd"]));
    assert_eq!(fast_tokenizer_no_regex("ab*cd", &mask, false, false), Vec::<u32>::new());
    assert_eq!(fast_tokenizer_no_regex("ab/cd", &mask, false, false), hashes(&["ab", "cd"]));
    assert_eq!(fast_tokenizer("ab/cd", &vec![false; 5]), Vec::<u32>::new());
    assert_eq!(fast_tokenizer("ab/cd", &vec![true; 5]), hashes(&["ab/cd"]));
}

#[test]
fn fuzzy_signature_is_sorted_and_order_free() {
    let sig = create_fuzzy_signature("zz yy xx yy zz");
    assert!(sig.windows(2).all(|w| w[0] < w[1]));
    assert_eq!(sig.len(), 3);
    assert_eq!(create_fuzzy_signature("xx zz yy"), sig);
    assert_eq!(create_fuzzy_signature("a"), hashes(&["a"]));
    let mut expected = hashes(&["xx", "yy", "zz"]);
    expected.sort();
    assert_eq!(sig, expected);
}

#[test]
fn bin_search_found_index_holds_element() {
    let unsorted = vec![5u32, 1, 3, 5, 0];
    for x in 0..7u32 {
        if let Some(i) = bin_search(&unsorted, x) {
            assert_eq!(unsorted[i], x);
        }
        if bin_lookup(&unsorted, x) {
            assert!(unsorted.contains(&x));
        }
    }
    let sorted = vec![1u32, 3, 3, 3, 8];
    for x in 0..10u32 {
        assert_eq!(bin_lookup(&sorted, x), sorted.contains(&x));
        assert_eq!(bin_search(&sorted, x).is_some(), sorted.contains(&x));
    }
}

#[test]
fn lookup_matches_search_on_any_slice() {
    let slices: Vec<Vec<u32>> = vec![vec![], vec![9, 2, 7, 2, 5], vec![3, 1], vec![1, 1, 4, 0, 8, 8]];
    for arr in &slices {
        for x in 0..10u32 {
            assert_eq!(bin_lookup(arr, x), bin_search(arr, x).is_some());
        }
    }
}

#[test]
fn starts_with_from_is_a_byte_slice_prefix_test() {
    let hays = ["", "hello world", "Ƭab€x", "ééé"];
    let needles = ["", "a", "ab", "Ƭ", "€x", "é", "world"];
    for h in &hays {
        for start in 0..=h.len() {
            if !h.is_char_boundary(start) {
                continue;
            }
            for n in &needles {
                assert_eq!(fast_starts_with_from(h, n, start), h.as_bytes()[start..].starts_with(n.as_bytes()));
            }
        }
        for n in &needles {
            assert_eq!(fast_starts_with_from(h, n, 0), fast_starts_with(h, n));
        }
    }
}

#[test]
fn fuzzy_signature_swap_and_repeat() {
    for (a, b) in [("foo", "bar"), ("x1 y2", "Ƭz"), ("", "qq"), ("ab/cd", "cd")] {
        let ab = format!("{} {}", a, b);
        let ba = format!("{} {}", b, a);
        assert_eq!(create_fuzzy_signature(&ab), create_fuzzy_signature(&ba));
        let aa = format!("{} {}", a, a);
        assert_eq!(create_fuzzy_signature(&aa), create_fuzzy_signature(a));
    }
}

#[test]
fn skip_flags_without_edge_tokens_change_nothing() {
    for p in &["/foo bar/", " aa*bb ", "", "%%", ".Ƭx."] {
        let first = p.chars().next().map_or(true, |c| !(c.is_alphanumeric() || c == '%'));
        let last = p.chars().last().map_or(true, |c| !(c.is_alphanumeric() || c == '%'));
        if first {
            assert_eq!(tokenize_filter(p, true, false), tokenize_filter(p, false, false));
            assert_eq!(tokenize_filter(p, true, true), tokenize_filter(p, false, true));
        }
        if last {
            assert_eq!(tokenize_filter(p, false, true), tokenize_filter(p, false, false));
            assert_eq!(tokenize_filter(p, true, true), tokenize_filter(p, true, false));
        }
    }
}

#[test]
fn ascii_token_chars() {
    assert_eq!(tokenize("a1Z9 x_y-z %q%"), hashes(&["a1Z9", "%q%"]));
    assert_eq!(tokenize_hostnames("a1Z9 x_y-z %q% ~"), hashes(&["a1Z9", "x_y-z", "%q%"]));
}
