//! Texts, numbers and order.
use agent_toolkit::numbers::{
    decimal_text, parse_signed, parse_unsigned, push_grouped, push_hex_upper, push_signed,
    reads_as_fraction,
};
use agent_toolkit::order::{set_of_texts, stable_sort};
use agent_toolkit::rag::types::{hash_text, seconds_of, stable_id, Hit, HitSource};
use agent_toolkit::rag::score::Score;
use agent_toolkit::search::{
    comes_before, find_chars, same_text, text_before_last, text_contains, text_starts,
    text_strip_end,
};
use agent_toolkit::text::{
    alnum_mask_of, chars_of, is_white, joined, lines_of, lower, runs_of, trimmed, words_of,
};

#[test]
fn whitespace_is_that_of_unicode() {
    for n in 0..=0x10ffffu32 {
        if let Some(c) = char::from_u32(n) {
            assert_eq!(is_white(c), c.is_whitespace(), "{n:x}");
        }
    }
}

#[test]
fn letters_and_digits_of_ascii() {
    let all: Vec<char> = (0u8..128).map(|b| b as char).collect();
    let mask = alnum_mask_of(&all);
    for (c, m) in all.iter().zip(mask) {
        assert_eq!(m, c.is_ascii_alphanumeric());
    }
    assert_eq!(alnum_mask_of(&['é', '東', '½', '—', '٣']), vec![true, true, true, false, true]);
}

#[test]
fn lower_case_is_that_of_std() {
    let all: String = (0u8..128).map(|b| b as char).collect();
    assert_eq!(lower(&all), all.to_ascii_lowercase());
    assert_eq!(lower("ÄÖÜ İ ΑΣ"), "ÄÖÜ İ ΑΣ".to_lowercase());
}

#[test]
fn trimming_words_and_lines_match_std() {
    for s in ["", "  ", " a b\t\nc ", "\u{a0}x\u{3000}", "a\r\nb\n\nc\r", "\n", "x\r", "\r\n"] {
        assert_eq!(trimmed(s), s.trim());
        let w: Vec<&str> = s.split_whitespace().collect();
        assert_eq!(words_of(s), w);
        let l: Vec<&str> = s.lines().collect();
        assert_eq!(lines_of(&chars_of(s)), l);
    }
    let parts = vec!["a".to_string(), "b".to_string()];
    assert_eq!(joined(&parts, ", "), "a, b");
    assert_eq!(joined(&[], ", "), "");
}

#[test]
fn runs_are_maximal() {
    let s: Vec<char> = "abcd".chars().collect();
    assert_eq!(runs_of(&s, &[true, true, false, true]), vec!["ab", "d"]);
    assert!(runs_of(&s, &[false; 4]).is_empty());
}

#[test]
fn searching_matches_std() {
    for (s, t) in [("hello", "ll"), ("hello", ""), ("", ""), ("", "a"), ("aaab", "aab"), ("é", "e")] {
        assert_eq!(text_contains(s, t), s.contains(t));
        assert_eq!(text_starts(s, t), s.starts_with(t));
        assert_eq!(find_chars(&chars_of(s), &chars_of(t)), s.find(t));
        assert_eq!(same_text(s, t), s == t);
        assert_eq!(comes_before(s, t), s < t);
        assert_eq!(comes_before(t, s), t < s);
    }
    assert_eq!(text_before_last("a.b.c", '.'), "a.b");
    assert_eq!(text_before_last("abc", '.'), "abc");
    assert_eq!(text_before_last(".abc", '.'), "");
    assert_eq!(text_strip_end("a//", '/'), "a");
    assert_eq!(text_strip_end("//", '/'), "");
}

#[test]
fn the_order_of_texts_is_that_of_std() {
    let mut v: Vec<String> =
        ["b", "a", "B", "", "ab", "é", "z", "\u{10000}", "\u{ffff}", "a"]
            .iter()
            .map(|s| s.to_string())
            .collect();
    let set = set_of_texts(&v);
    v.sort();
    v.dedup();
    assert_eq!(set, v);
}

#[test]
fn sorting_is_stable() {
    let hit = |id: usize, s: f32| Hit {
        text: String::new(),
        source: String::new(),
        score: Score { bits: s.to_bits() },
        document_id: String::new(),
        chunk_id: id,
        retrieval: HitSource::Keyword,
    };
    let v = stable_sort(vec![hit(0, 1.0), hit(1, 2.0), hit(2, 1.0), hit(3, 2.0)]);
    let ids: Vec<usize> = v.iter().map(|h| h.chunk_id).collect();
    assert_eq!(ids, vec![1, 3, 0, 2]);
}

#[test]
fn ids_are_fnv1a_hashes() {
    // Published values of the 64-bit FNV-1a hash.
    assert_eq!(hash_text(""), 0xcbf29ce484222325);
    assert_eq!(hash_text("a"), 0xaf63dc4c8601ec8c);
    assert_eq!(hash_text("foobar"), 0x85944171f73967e8);
    assert_eq!(stable_id("a"), "af63dc4c8601ec8c");
    assert_eq!(stable_id("robot.txt").len(), 16);
}

#[test]
fn clocks_before_the_epoch_read_zero() {
    assert_eq!(seconds_of(None), 0);
    assert_eq!(seconds_of(Some(12)), 12);
}

#[test]
fn numbers_are_written() {
    assert_eq!(decimal_text(0), "0");
    assert_eq!(decimal_text(u64::MAX), u64::MAX.to_string());
    let signed = |n: i64| {
        let mut s = String::new();
        push_signed(&mut s, n);
        s
    };
    for n in [0, -1, 42, i64::MIN, i64::MAX] {
        assert_eq!(signed(n), n.to_string());
    }
    let grouped = |n: u64| {
        let mut s = String::new();
        push_grouped(&mut s, n);
        s
    };
    assert_eq!(grouped(0), "0");
    assert_eq!(grouped(999), "999");
    assert_eq!(grouped(1000), "1,000");
    assert_eq!(grouped(1002003), "1,002,003");
    assert_eq!(grouped(u64::MAX), "18,446,744,073,709,551,615");
    for n in [0u32, 9, 10, 255, 0xabcdef] {
        let mut s = String::new();
        push_hex_upper(&mut s, n);
        assert_eq!(s, format!("{n:X}"));
    }
}

#[test]
fn numbers_are_read_as_std_reads_them() {
    for s in ["", "0", "00", "+7", "-7", "--7", "+", "-", "9223372036854775807",
        "9223372036854775808", "-9223372036854775808", "-9223372036854775809", "1a", " 1", "٣"]
    {
        assert_eq!(parse_signed(s), s.parse::<i64>().ok(), "{s}");
        assert_eq!(parse_unsigned(s, u64::MAX), s.parse::<u64>().ok(), "{s}");
        assert_eq!(
            parse_unsigned(s, 65535).map(|n| n as u16),
            s.parse::<u16>().ok(),
            "{s}"
        );
    }
    for s in ["", ".", "1", "1.", ".5", "1.5", "1..5", "12.34.5", "007"] {
        let cs: Vec<char> = s.chars().collect();
        assert_eq!(reads_as_fraction(&cs), s.parse::<f64>().is_ok(), "{s}");
    }
}
