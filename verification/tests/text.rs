use nix_process::number::{decimal_text, parse_unsigned, signed_text, IntError};
use nix_process::text::{
    after_prefix, comes_before, find_first, find_last, is_blank, is_white, line_one, line_text,
    same_text, text_of, trimmed, word_at,
};

const SAMPLES: [&str; 14] = [
    "", "a", "b", "ab", "a b", " a", "a ", "\u{a0}x\u{3000}", "é", "éa", "z", "\u{10ffff}", "\t\n",
    "nix-process",
];

#[test]
fn whitespace_is_that_of_unicode() {
    for u in 0..0x11_0000u32 {
        if let Some(c) = char::from_u32(u) {
            assert_eq!(is_white(c), c.is_whitespace(), "{:x}", u);
        }
    }
}

#[test]
fn order_and_equality_are_those_of_strings() {
    for a in SAMPLES {
        for b in SAMPLES {
            assert_eq!(comes_before(a, b), a < b);
            assert_eq!(same_text(a, b), a == b);
        }
    }
}

#[test]
fn trimming_takes_whitespace_from_both_ends() {
    for s in SAMPLES {
        assert_eq!(trimmed(s), s.trim());
        assert_eq!(is_blank(s), s.trim().is_empty());
    }
    assert_eq!(trimmed("\u{2003} a  b \r\n"), "a  b");
}

#[test]
fn words_are_counted_from_zero() {
    let s = "  one\ttwo \u{3000}three ";
    assert_eq!(word_at(s, 0), Some("one"));
    assert_eq!(word_at(s, 1), Some("two"));
    assert_eq!(word_at(s, 2), Some("three"));
    assert_eq!(word_at(s, 3), None);
    for t in SAMPLES {
        for n in 0..3 {
            assert_eq!(word_at(t, n), t.split_whitespace().nth(n));
        }
    }
}

#[test]
fn first_line_loses_its_ending() {
    for s in ["", "a", "a\nb", "a\r\nb", "\r\n", "\n", "a\rb", "a\r", "x\r\r\ny"] {
        assert_eq!(line_one(s), s.lines().next().unwrap_or(""));
    }
}

#[test]
fn searching_finds_both_ends() {
    let cs: Vec<char> = "a:b:c".chars().collect();
    assert_eq!(find_first(&cs, ':'), 1);
    assert_eq!(find_last(&cs, ':'), Some(3));
    assert_eq!(find_first(&cs, '/'), 5);
    assert_eq!(find_last(&cs, '/'), None);
    assert_eq!(after_prefix("http://x", "http://"), Some("x"));
    assert_eq!(after_prefix("https://x", "http://"), None);
    assert_eq!(after_prefix("ht", "http://"), None);
}

#[test]
fn integers_print_in_decimal() {
    for n in [0u64, 7, 10, 99, 12345, u64::MAX] {
        assert_eq!(decimal_text(n), n.to_string());
    }
    for i in [0i32, -1, 42, -99, i32::MAX, i32::MIN] {
        assert_eq!(signed_text(i), i.to_string());
    }
}

#[test]
fn printed_integers_read_back() {
    for n in [0u64, 9, 10, 80, 65535, u64::MAX] {
        assert_eq!(parse_unsigned(&decimal_text(n), u64::MAX), Ok(n));
    }
}

#[test]
fn integers_read_as_the_standard_library_reads_them() {
    let texts = [
        "", "+", "-", "0", "00", "+5", "++5", "-5", "65535", "65536", "065535", "99999x", "9999x",
        "12a", " 1", "1 ", "18446744073709551615", "18446744073709551616", "99999999999999999999",
        "٣", "1é",
    ];
    for t in texts {
        match t.parse::<u16>() {
            Ok(v) => assert_eq!(parse_unsigned(t, 65535), Ok(v as u64)),
            Err(e) => assert_eq!(parse_unsigned(t, 65535).unwrap_err().message(), e.to_string()),
        }
        match t.parse::<u64>() {
            Ok(v) => assert_eq!(parse_unsigned(t, u64::MAX), Ok(v)),
            Err(e) => assert_eq!(parse_unsigned(t, u64::MAX).unwrap_err().message(), e.to_string()),
        }
    }
    assert_eq!(parse_unsigned("", 9), Err(IntError::Empty));
    assert_eq!(parse_unsigned("x", 9), Err(IntError::InvalidDigit));
    assert_eq!(parse_unsigned("10", 9), Err(IntError::TooLarge));
    assert_eq!(parse_unsigned("9", 5), Err(IntError::TooLarge));
}

#[test]
fn lines_of_output_lose_their_ending() {
    assert_eq!(line_text(b"up\n"), "up");
    assert_eq!(line_text(b"up\r\n"), "up");
    assert_eq!(line_text(b"up\r\r\n"), "up\r");
    assert_eq!(line_text(b"up\r"), "up\r");
    assert_eq!(line_text(b"\n"), "");
    assert_eq!(line_text(b"\r\n"), "");
    assert_eq!(line_text(b""), "");
    assert_eq!(line_text(b"a\xffb\n"), "a\u{fffd}b");
}

#[test]
fn bytes_read_as_the_text_they_hold() {
    assert_eq!(text_of("né\u{10ffff}".as_bytes()), "né\u{10ffff}");
    assert_eq!(text_of(b"\xc3("), "\u{fffd}(");
}
