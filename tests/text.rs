use zeta::bloom::BloomFilter;
use zeta::text::{split, strip, words};

#[test]
fn words_strip_then_split() {
    assert_eq!(words("the quick, brown fox!"), vec!["the", "quick", "brown", "fox"]);
    assert_eq!(words("a,b c"), vec!["ab", "c"]);
    assert_eq!(words("  \t\n "), Vec::<String>::new());
    assert_eq!(words(""), Vec::<String>::new());
    assert_eq!(words("x - y"), vec!["x", "y"]);
    assert_eq!(words("dup dup"), vec!["dup", "dup"]);
}

#[test]
fn strip_keeps_non_ascii() {
    assert_eq!(strip("café, «ok»!"), "café «ok»");
    assert_eq!(strip("!\"#$%&'()*+,-./:;<=>?@[\\]^_`{|}~"), "");
}

#[test]
fn split_on_ascii_whitespace_only() {
    assert_eq!(split("a\u{a0}b c\r\nd\x0ce"), vec!["a\u{a0}b", "c", "d", "e"]);
    assert_eq!(split("a\x0bb"), vec!["a\x0bb"]);
}

#[test]
fn filter_set_and_test() {
    let mut f = BloomFilter::new();
    assert!(!f.test(5));
    f.set(5);
    assert!(f.test(5));
    assert!(!f.test(4));
    assert!(!f.test(133));
    f.set(128_965);
    assert!(f.test(128_965));
    assert_eq!(f.words()[1007], 1u128 << (128_965 % 128));
}

#[test]
fn filter_probes_follow_hash() {
    let mut f = BloomFilter::new();
    assert!(!f.contains("hello"));
    f.insert("hello");
    assert!(f.contains("hello"));
    let set: u32 = f.words().iter().map(|w| w.count_ones()).sum();
    assert!(set >= 1 && set <= 3);
    let h = {
        let mut src: &[u8] = b"hello";
        murmur3::murmur3_x64_128(&mut src, 0).unwrap()
    };
    let step = h % (1u128 << 64);
    let mut acc = h >> 64;
    for _ in 0..3 {
        assert!(f.test((acc % 128_966) as usize));
        acc += step;
    }
}
