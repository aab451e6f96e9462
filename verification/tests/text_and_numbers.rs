use manifest_browser::number::{decimal, format_size, hex, parse};
use manifest_browser::ordering::{comes_before, insert_ascending};
use manifest_browser::text::{
    chars_of, contains, copy_texts, cut, find, includes, join, len_in_bytes, same_text, split,
    strip, CharClass,
};

fn strings(list: &[&str]) -> Vec<String> {
    list.iter().map(|s| s.to_string()).collect()
}

fn float_size(bytes: u64) -> String {
    if bytes >= 1 << 20 {
        format!("{:.1} MB", bytes as f64 / (1 << 20) as f64)
    } else if bytes >= 1 << 10 {
        format!("{:.1} KB", bytes as f64 / (1 << 10) as f64)
    } else {
        format!("{} B", bytes)
    }
}

#[test]
fn sizes_have_one_decimal() {
    assert_eq!(format_size(0), "0 B");
    assert_eq!(format_size(1023), "1023 B");
    assert_eq!(format_size(1024), "1.0 KB");
    assert_eq!(format_size(1536), "1.5 KB");
    assert_eq!(format_size(1_048_575), "1024.0 KB");
    assert_eq!(format_size(1_048_576), "1.0 MB");
    assert_eq!(format_size(123_456_789), "117.7 MB");
}

#[test]
fn sizes_halfway_go_to_the_even_digit() {
    assert_eq!(format_size(1024 + 256), "1.2 KB");
    assert_eq!(format_size(1024 + 768), "1.8 KB");
}

#[test]
fn sizes_are_those_of_double_precision() {
    let edges: Vec<u64> = vec![
        u64::MAX,
        u64::MAX - 1023,
        u64::MAX - 1024,
        1 << 53,
        (1 << 53) - 1,
        (1 << 53) + 1,
        (1 << 54) + 2,
        (1 << 54) + 6,
        (1 << 63) + 1024,
        (1 << 63) + 3072,
    ];
    for n in edges {
        assert_eq!(format_size(n), float_size(n));
    }
    let mut x: u64 = 88172645463325252;
    for round in 0..200_000u64 {
        x ^= x << 13;
        x ^= x >> 7;
        x ^= x << 17;
        let n = x >> (round % 64);
        assert_eq!(format_size(n), float_size(n));
    }
}

#[test]
fn numbers_are_written_and_read_back() {
    for n in [0u64, 7, 10, 99, 1234567890, u64::MAX] {
        assert_eq!(decimal(n), n.to_string());
        assert_eq!(parse(&decimal(n), 10), Some(n));
        assert_eq!(hex(n, 16), format!("{:016X}", n));
        assert_eq!(parse(&hex(n, 16), 16), Some(n));
    }
}

#[test]
fn numbers_are_read_as_std_reads_them() {
    let cases = [
        "", "+", "-", "-1", "+5", "++5", "0", "00012", "12a", "ff", "FF", "fG", " 1", "1 ",
        "18446744073709551615", "18446744073709551616", "FFFFFFFFFFFFFFFF", "10000000000000000",
        "99999999999999999999999999", "\u{661}",
    ];
    for c in cases {
        assert_eq!(parse(c, 10), c.parse::<u64>().ok());
        assert_eq!(parse(c, 16), u64::from_str_radix(c, 16).ok());
    }
}

#[test]
fn texts_are_found_like_std_finds_them() {
    let cases = [
        ("", ""), ("a", ""), ("", "a"), ("hello", "l"), ("hello", "lo"), ("hello", "hello"),
        ("hello", "hellos"), ("aaab", "aab"), ("käse", "äs"), ("abc", "d"),
    ];
    for (hay, needle) in cases {
        assert_eq!(contains(hay, needle), hay.contains(needle));
        let chars = chars_of(hay);
        let by_char = hay.find(needle).map(|b| hay[..b].chars().count());
        assert_eq!(find(&chars, needle), by_char);
    }
}

#[test]
fn texts_are_stripped_like_std_trims_them() {
    let spaces = [
        "", " ", "a", "  a b\t", "\u{a0}x\u{3000}", "\u{2003}y\u{1680}", "\u{200b}z", "\u{85}q\r\n",
        "\u{180e}w", "\u{feff}v",
    ];
    for s in spaces {
        assert_eq!(strip(s, CharClass::Space), s.trim());
    }
    for s in ["", "\"", "\"\"", "\"a\"b\"\"", "a", " \"a\" "] {
        assert_eq!(strip(s, CharClass::Quote), s.trim_matches('"'));
    }
    for v in 0..=0x10ffffu32 {
        if let Some(c) = char::from_u32(v) {
            assert_eq!(CharClass::Space.holds(c), c.is_whitespace());
        }
    }
}

#[test]
fn texts_are_split_and_joined() {
    for s in ["", "-", "a", "a-b", "a--b", "-a-", "2026-01-15"] {
        let parts = split(s, '-');
        assert_eq!(parts, s.split('-').collect::<Vec<_>>());
        assert_eq!(join(&parts, "-"), s);
    }
    assert_eq!(join(&strings(&[]), ", "), "");
    assert_eq!(join(&strings(&["a", "b", "c"]), ", "), "a, b, c");
}

#[test]
fn texts_are_cut_between_characters() {
    assert_eq!(cut("abcdef", 2), ("ab", "cdef"));
    assert_eq!(cut("äb", 2), ("ä", "b"));
    assert_eq!(cut("abc", 0), ("", "abc"));
    assert_eq!(len_in_bytes("äb"), 3);
}

#[test]
fn texts_are_compared_and_looked_up() {
    assert!(same_text("äb", "äb"));
    assert!(!same_text("ab", "abc"));
    let list = strings(&["x", "y"]);
    assert!(includes(&list, "y"));
    assert!(!includes(&list, "z"));
    assert_eq!(copy_texts(&list), list);
}

#[test]
fn texts_are_ordered_as_std_orders_them() {
    let words = ["", "a", "aa", "b", "A", "é", "z", "\u{ffff}", "\u{10000}", "~"];
    for a in words {
        for b in words {
            assert_eq!(comes_before(a, b), a < b);
        }
    }
}

#[test]
fn values_are_listed_once_and_in_order() {
    let mut list: Vec<String> = Vec::new();
    for w in ["mac", "win", "linux", "mac", "android", "win"] {
        insert_ascending(&mut list, w);
    }
    assert_eq!(list, vec!["android", "linux", "mac", "win"]);
}

#[test]
fn small_sizes_are_rounded_once() {
    let bytes: u64 = (1 << 53) - 1;
    let tenths = (bytes as u128 * 10 + (1 << 19)) >> 20;
    assert_eq!(format_size(bytes), format!("{}.{} MB", tenths / 10, tenths % 10));
}
