use pattern_tools::hash::fast_hash_between;
use pattern_tools::{
    bin_lookup, bin_search, bit_count, clear_bit, create_fuzzy_signature, fast_hash,
    fast_starts_with_from, get_bit, has_unicode, set_bit, tokenize, tokenize_filter,
    tokenize_hostnames,
};

fn t(tokens: &[&str]) -> Vec<u32> {
    tokens.iter().map(|t| fast_hash(t)).collect()
}

#[test]
fn bit_count_works() {
    assert_eq!(bit_count(0b0011u32), 2);
    assert_eq!(bit_count(0b10110011u32), 5);
    assert_eq!(bit_count(std::u32::MAX), 32);
    assert_eq!(bit_count(0), 0);
}

#[test]
fn get_bit_works() {
    assert_eq!(get_bit(0b0011u32, 0b0011u32), true);
    assert_eq!(get_bit(0b10110011u32, 0b10110011u32), true);
    assert_eq!(get_bit(0b10110011u32, 0b00100000u32), true);
    assert_eq!(get_bit(0b10110011u32, 0b01001100u32), false);
    assert_eq!(get_bit(0, std::u32::MAX), false);
}

#[test]
fn set_bit_works() {
    assert_eq!(set_bit(0b0011u32, 0b0011u32), 0b0011u32);
    assert_eq!(set_bit(0b10110011u32, 0b100u32), 0b10110111u32);
    assert_eq!(set_bit(0b10110011u32, 0), 0b10110011u32);
    assert_eq!(set_bit(std::u32::MAX, 0), std::u32::MAX);
    assert_eq!(set_bit(0, std::u32::MAX), std::u32::MAX);
}

#[test]
fn clear_bit_works() {
    assert_eq!(clear_bit(0b10110011u32, 0b1), 0b10110010u32);
    assert_eq!(clear_bit(0b10110011u32, 0b100u32), 0b10110011u32);
    assert_eq!(clear_bit(0b10110011u32, 0b10110011u32), 0);
    assert_eq!(clear_bit(std::u32::MAX, std::u32::MAX), 0);
    assert_eq!(clear_bit(std::u32::MAX, 0), std::u32::MAX);
    assert_eq!(clear_bit(0, std::u32::MAX), 0);
}

#[test]
fn fast_hash_works() {
    assert_eq!(fast_hash("hello world"), 4173747013);
    assert_eq!(fast_hash("ello worl"), 2759317833);
    assert_eq!(fast_hash_between("hello world", 1, 10), fast_hash("ello worl"));
    assert_eq!(fast_hash_between("hello world", 1, 5), fast_hash("ello"));
}

#[test]
fn fast_starts_with_from_works() {
    assert_eq!(fast_starts_with_from("hello world", "hello", 0), true);
    assert_eq!(fast_starts_with_from("hello world", "hello", 1), false);
    assert_eq!(fast_starts_with_from("hello", "hello world", 1), false);
    assert_eq!(fast_starts_with_from("hello world", " world", 5), true);
}

#[test]
fn tokenize_filter_works() {
    assert_eq!(tokenize_filter("", false, false).as_slice(), t(&vec![]).as_slice());
    assert_eq!(tokenize_filter("", true, false).as_slice(), t(&vec![]).as_slice());
    assert_eq!(tokenize_filter("", false, true).as_slice(), t(&vec![]).as_slice());
    assert_eq!(tokenize_filter("", true, true).as_slice(), t(&vec![]).as_slice());
    assert_eq!(tokenize_filter("", false, false).as_slice(), t(&vec![]).as_slice());

    assert_eq!(
        tokenize_filter("foo/bar baz", false, false).as_slice(),
        t(&vec!["foo", "bar", "baz"]).as_slice()
    );
    assert_eq!(
        tokenize_filter("foo/bar baz", true, false).as_slice(),
        t(&vec!["bar", "baz"]).as_slice()
    );
    assert_eq!(
        tokenize_filter("foo/bar baz", true, true).as_slice(),
        t(&vec!["bar"]).as_slice()
    );
    assert_eq!(
        tokenize_filter("foo/bar baz", false, true).as_slice(),
        t(&vec!["foo", "bar"]).as_slice()
    );
    assert_eq!(
        tokenize_filter("foo////bar baz", false, true).as_slice(),
        t(&vec!["foo", "bar"]).as_slice()
    );
}

#[test]
fn tokenize_host_works() {
    assert_eq!(tokenize_hostnames("").as_slice(), t(&vec![]).as_slice());
    assert_eq!(tokenize_hostnames("foo").as_slice(), t(&vec!["foo"]).as_slice());
    assert_eq!(tokenize_hostnames("foo/bar").as_slice(), t(&vec!["foo", "bar"]).as_slice());
    assert_eq!(
        tokenize_hostnames("foo-barbaz/bar").as_slice(),
        t(&vec!["foo-barbaz", "bar"]).as_slice()
    );
    assert_eq!(
        tokenize_hostnames("foo_barbaz/ba%r").as_slice(),
        t(&vec!["foo_barbaz", "ba%r"]).as_slice()
    );

    assert_eq!(
        tokenize_hostnames("foo_barbaz/ba%r*").as_slice(),
        t(&vec!["foo_barbaz", "ba%r"]).as_slice()
    );
    assert_eq!(
        tokenize_hostnames("foo_barbaz///ba%r*").as_slice(),
        t(&vec!["foo_barbaz", "ba%r"]).as_slice()
    );
}

#[test]
fn tokenize_works() {
    assert_eq!(tokenize("").as_slice(), t(&vec![]).as_slice());
    assert_eq!(tokenize("foo").as_slice(), t(&vec!["foo"]).as_slice());
    assert_eq!(tokenize("foo/bar").as_slice(), t(&vec!["foo", "bar"]).as_slice());
    assert_eq!(tokenize("foo-bar").as_slice(), t(&vec!["foo", "bar"]).as_slice());
    assert_eq!(tokenize("foo.bar").as_slice(), t(&vec!["foo", "bar"]).as_slice());
    assert_eq!(tokenize("foo.barƬ").as_slice(), t(&vec!["foo", "barƬ"]).as_slice());

    // Tokens cannot be surrounded by *
    assert_eq!(tokenize("foo.barƬ*").as_slice(), t(&vec!["foo"]).as_slice());
    assert_eq!(tokenize("*foo.barƬ").as_slice(), t(&vec!["barƬ"]).as_slice());
    assert_eq!(tokenize("*foo.barƬ*").as_slice(), t(&vec![]).as_slice());
}

#[test]
fn create_fuzzy_signature_works() {
    assert_eq!(create_fuzzy_signature("").as_slice(), t(&vec![]).as_slice());
    assert_eq!(
        create_fuzzy_signature("foo bar").as_slice(),
        t(&vec!["foo", "bar"]).as_slice()
    );
    assert_eq!(
        create_fuzzy_signature("bar foo").as_slice(),
        t(&vec!["foo", "bar"]).as_slice()
    );
    assert_eq!(
        create_fuzzy_signature("foo bar foo foo").as_slice(),
        t(&vec!["foo", "bar"]).as_slice()
    );
}

#[test]
fn bin_lookup_works() {
    assert_eq!(bin_lookup(&vec![], 42), false);
    assert_eq!(bin_lookup(&vec![42], 42), true);
    assert_eq!(bin_lookup(&vec![1, 2, 3, 4, 42], 42), true);
    assert_eq!(bin_lookup(&vec![1, 2, 3, 4, 42], 1), true);
    assert_eq!(bin_lookup(&vec![1, 2, 3, 4, 42], 3), true);
    assert_eq!(bin_lookup(&vec![1, 2, 3, 4, 42], 43), false);
    assert_eq!(bin_lookup(&vec![1, 2, 3, 4, 42], 0), false);
    assert_eq!(bin_lookup(&vec![1, 2, 3, 4, 42], 5), false);
}

#[test]
fn bin_search_works() {
    // empty array
    assert_eq!(bin_search(&Vec::new(), 42), None);
    // array of length 1
    assert_eq!(bin_search(&vec![1], 42), None);
    assert_eq!(bin_search(&vec![42], 42), Some(0));
    // array of length 2
    assert_eq!(bin_search(&vec![0, 1], 42), None);
    assert_eq!(bin_search(&vec![1, 42], 42), Some(1));
    assert_eq!(bin_search(&vec![42, 45], 42), Some(0));
    assert_ne!(bin_search(&vec![42, 42], 42), None);

    // bigger arrays
    let data: Vec<u32> = (1u32..=1000).map(|x| x * x).collect();
    assert_eq!(bin_search(&data, 42), None);
    assert_eq!(bin_search(&data, 1), Some(0));
    assert_eq!(bin_search(&data, 4), Some(1));
    assert_eq!(bin_search(&data, 1000 * 1000), Some(1000 - 1));
}

#[test]
fn has_unicode_works() {
    let ascii: String = (b'!'..=b'~').map(|c| c as char).collect();

    assert_eq!(has_unicode(&ascii), false);
    assert_eq!(has_unicode("｡◕ ∀ ◕｡)"), true);
    assert_eq!(has_unicode("｀ｨ(´∀｀∩"), true);
    assert_eq!(has_unicode("__ﾛ(,_,*)"), true);
    assert_eq!(has_unicode("・(￣∀￣)・:*:"), true);
    assert_eq!(has_unicode("ﾟ･✿ヾ╲(｡◕‿◕｡)╱✿･ﾟ"), true);
    assert_eq!(has_unicode(",。・:*:・゜’( ☻ ω ☻ )。・:*:・゜’"), true);
    assert_eq!(has_unicode("(╯°□°）╯︵ ┻━┻)"), true);
    assert_eq!(has_unicode("(ﾉಥ益ಥ）ﾉ ┻━┻"), true);
    assert_eq!(has_unicode("┬─┬ノ( º _ ºノ)"), true);
    assert_eq!(has_unicode("( ͡° ͜ʖ ͡°)"), true);
    assert_eq!(has_unicode("¯_(ツ)_/¯"), true);
}
