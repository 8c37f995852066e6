use amdl::json::{parse_micros, parse_scaled};
use amdl::path::{components, extension, file_name, file_stem, parent_name, Component};
use amdl::sort::{group, sort_order, sort_texts};
use amdl::text::{
    contains, decimal_text, join, lines, lower_ascii, parse_unsigned, replace, replace_text, split, squash, trim, words,
};

fn v(x: &[&str]) -> Vec<String> {
    x.iter().map(|s| s.to_string()).collect()
}

#[test]
fn text_agrees_with_the_standard_library() {
    let samples = ["", " ", "a", "  a b\tc\n", "ÆØÅ x\u{a0}y", "a\r\nb\n\nc\r", "one,two,,three", "\u{2003}z\u{2003}"];
    for s in samples {
        assert_eq!(trim(s), s.trim());
        assert_eq!(words(s), s.split_whitespace().collect::<Vec<_>>());
        assert_eq!(lines(s), s.lines().collect::<Vec<_>>());
        assert_eq!(split(s, &[',', ' ']), s.split([',', ' ']).collect::<Vec<_>>());
        assert_eq!(lower_ascii(s), s.to_ascii_lowercase());
        assert_eq!(contains(s, "b"), s.contains("b"));
        assert_eq!(replace(s, 'a', "<>"), s.replace('a', "<>"));
        assert_eq!(replace_text(s, "ne", "_"), s.replace("ne", "_"));
    }
    assert_eq!(join(&v(&["a", "b"]), "-"), "a-b");
    assert_eq!(decimal_text(u64::MAX), u64::MAX.to_string());
    for s in ["0", "+7", "007", "18446744073709551615", "18446744073709551616", "", "+", "-1", "1a"] {
        assert_eq!(parse_unsigned(s), s.parse::<u64>().ok(), "{s}");
    }
}

#[test]
fn white_space_is_what_unicode_says() {
    let all: Vec<u32> = (0..=0x10ffff).filter(|n| char::from_u32(*n).is_some_and(char::is_whitespace)).collect();
    let mut want: Vec<u32> = vec![9, 10, 11, 12, 13, 32, 0x85, 0xa0, 0x1680];
    want.extend(0x2000..=0x200a);
    want.extend([0x2028, 0x2029, 0x202f, 0x205f, 0x3000]);
    assert_eq!(all, want);
    assert_eq!(words("a\u{3000}b\u{200b}c"), v(&["a", "b\u{200b}c"]));
}

#[test]
fn names_are_compared_by_letters_and_digits() {
    assert_eq!(squash("It's — 2 ÉTÉ!"), "its2été");
}

#[test]
fn numbers_are_read_in_millionths() {
    assert_eq!(parse_micros("1.5"), Some(1_500_000));
    assert_eq!(parse_micros("-0.25"), Some(-250_000));
    assert_eq!(parse_micros("1e2"), Some(100_000_000));
    assert_eq!(parse_micros("0.0000019"), Some(1));
    assert_eq!(parse_micros(".5"), Some(500_000));
    assert_eq!(parse_micros("+5"), Some(5_000_000));
    assert_eq!(parse_micros("-.5e1"), Some(-5_000_000));
    assert_eq!(parse_micros("5."), Some(5_000_000));
    assert_eq!(parse_micros("."), None);
    assert_eq!(parse_micros("1e100001"), Some(i64::MAX));
    assert_eq!(parse_micros("-1e99999999999999999999999999"), Some(-i64::MAX));
    assert_eq!(parse_micros("0e99999999999999999999999999"), Some(0));
    assert_eq!(parse_micros("7e-99999999999999999999999999"), Some(0));
    assert_eq!(parse_micros("0.00000000000000000000000001e25"), Some(100_000));
    assert_eq!(parse_micros("inf"), Some(i64::MAX));
    assert_eq!(parse_micros("-Infinity"), Some(-i64::MAX));
    assert_eq!(parse_micros("infinite"), None);
    assert_eq!(parse_micros("1e"), None);
    assert_eq!(parse_scaled("0.9000001", 18), Some(900_000_100_000_000_000));
    assert_eq!(parse_scaled("1.5", 0), Some(1));
    assert_eq!(parse_micros("+-5"), None);
    assert_eq!(parse_micros("x"), None);
}

#[test]
fn paths_agree_with_the_standard_library() {
    for p in ["a/b.txt", "/a/b/", "a/./b", "../x.tar.gz", ".hidden", "a/..", "/", "", "a//b.c"] {
        let std = std::path::Path::new(p);
        assert_eq!(file_name(p).as_deref(), std.file_name().and_then(|s| s.to_str()), "{p}");
        assert_eq!(file_stem(p).as_deref(), std.file_stem().and_then(|s| s.to_str()), "{p}");
        assert_eq!(extension(p).as_deref(), std.extension().and_then(|s| s.to_str()), "{p}");
        assert_eq!(components(p).len(), std.components().count(), "{p}");
    }
    assert_eq!(parent_name("a/b/c.txt").as_deref(), Some("b"));
    assert_eq!(parent_name("c.txt"), None);
    assert!(matches!(components("/a")[0], Component::Root));
}

#[test]
fn paths_sort_as_the_standard_library_sorts_them() {
    let mut want: Vec<std::path::PathBuf> = ["a/b", "a.b", "a", "a/B", "/z", "b//a", "b/a/c"].iter().map(|s| s.into()).collect();
    let got = amdl::scan::sort_paths(want.iter().map(|p| p.to_str().unwrap().to_string()).collect());
    want.sort();
    assert_eq!(got.iter().map(std::path::PathBuf::from).collect::<Vec<_>>(), want);
}

#[test]
fn sorting_is_stable_and_groups_are_kept_together() {
    let keys = vec![vec![2], vec![1], vec![2, 0], vec![1]];
    assert_eq!(sort_order(&keys), vec![1, 3, 0, 2]);
    assert_eq!(group(&keys), vec![vec![1, 3], vec![0], vec![2]]);
    let mut want = v(&["b", "a", "ø", "B", "", "aa"]);
    let got = sort_texts(want.clone());
    want.sort();
    assert_eq!(got, want);
}
