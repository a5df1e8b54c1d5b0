use flash_fuzzy::bloom::{to_lower, BloomFilter};

#[test]
fn test_to_lower() {
    assert_eq!(to_lower(b'A'), b'a');
    assert_eq!(to_lower(b'Z'), b'z');
    assert_eq!(to_lower(b'a'), b'a');
    assert_eq!(to_lower(b'1'), b'1');
}

#[test]
fn to_lower_changes_only_upper_case_letters() {
    for c in 0u8..=255 {
        let expected = if c.is_ascii_uppercase() { c + 32 } else { c };
        assert_eq!(to_lower(c), expected);
        assert_eq!(to_lower(to_lower(c)), to_lower(c));
    }
    assert_eq!(to_lower(b'@'), b'@');
    assert_eq!(to_lower(b'['), b'[');
    assert_eq!(to_lower(0xc9), 0xc9);
}

#[test]
fn test_bloom_basic() {
    let text_bloom = BloomFilter::from_text(b"hello world");
    let pattern_bloom = BloomFilter::from_text(b"hello");
    assert!(text_bloom.might_contain(pattern_bloom));
}

#[test]
fn test_bloom_rejection() {
    let text_bloom = BloomFilter::from_text(b"hello");
    let pattern_bloom = BloomFilter::from_text(b"xyz");
    assert!(!text_bloom.might_contain(pattern_bloom));
}

#[test]
fn bloom_bits_are_the_low_six_bits_of_the_folded_bytes() {
    assert_eq!(BloomFilter::new().bits(), 0);
    assert_eq!(BloomFilter::from_text(b"").bits(), 0);
    assert_eq!(BloomFilter::from_text(b"a").bits(), 1u64 << 33);
    assert_eq!(BloomFilter::from_text(b"A").bits(), 1u64 << 33);
    assert_eq!(BloomFilter::from_text(b"@").bits(), 1u64 << 0);
    assert_eq!(BloomFilter::from_text(&[0xff]).bits(), 1u64 << 63);
    assert_eq!(BloomFilter::from_text(b"cat").bits(), (1u64 << 35) | (1u64 << 33) | (1u64 << 52));
    assert_eq!(BloomFilter::from_text(b"aaa"), BloomFilter::from_text(b"a"));
}

#[test]
fn bloom_ignores_case() {
    assert_eq!(BloomFilter::from_text(b"Hello World"), BloomFilter::from_text(b"hELLO wORLD"));
}

#[test]
fn bloom_may_say_maybe_for_a_byte_that_is_not_there() {
    let text_bloom = BloomFilter::from_text(b"!");
    assert!(text_bloom.might_contain(BloomFilter::from_text(b"a")));
}

#[test]
fn every_bloom_covers_itself_and_the_empty_one() {
    let bloom = BloomFilter::from_text(b"keyboard");
    assert!(bloom.might_contain(bloom));
    assert!(bloom.might_contain(BloomFilter::new()));
    assert!(!BloomFilter::new().might_contain(bloom));
    assert!(BloomFilter(0b1011).might_contain(BloomFilter(0b0011)));
    assert!(!BloomFilter(0b1011).might_contain(BloomFilter(0b0100)));
}

#[test]
fn the_filter_keeps_every_exact_occurrence() {
    let texts: [&[u8]; 4] = [b"Mechanical Keyboard Pro", b"keyboard", b"xKEYBOARDx", b"a key board KeYbOaRd"];
    let pattern_bloom = BloomFilter::from_text(b"keyboard");
    for text in texts {
        assert!(BloomFilter::from_text(text).might_contain(pattern_bloom));
    }
    assert!(!BloomFilter::from_text(b"keyboar").might_contain(pattern_bloom));
}
