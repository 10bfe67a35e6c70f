//! Text and byte helpers, and the line normaliser.
use differential::lang::generic::{normalize_line, trim_ascii};
use differential::seqs::{
    bytes_less, join_bytes, join_texts, sort_set, sort_texts, split_bytes, str_less,
};
use differential::text::{
    integer_string, latin_string, lines_of, pad, parse_unsigned, push_decimal, replace,
    split_text, trimmed_text, white,
};

fn owned(parts: &[&str]) -> Vec<String> {
    parts.iter().map(|s| s.to_string()).collect()
}

#[test]
fn a_line_is_normalised_to_its_shape() {
    assert_eq!(
        normalize_line(b"\tlet total_count = retry(5, \"backoff\");  "),
        b"let I = I(N, \"S\");"
    );
    assert_eq!(normalize_line(b"x = 'a' + `b`"), b"x = \"S\" + \"S\"");
    assert_eq!(normalize_line(b"   "), b"");
    assert_eq!(normalize_line(b"a1 12b 12"), b"a1 12b N");
    assert_eq!(trim_ascii(b" \t a b \r\n"), b"a b");
}

#[test]
fn numbers_are_read_and_written_in_decimal() {
    let mut s = "n=".to_string();
    push_decimal(&mut s, 18446744073709551615);
    assert_eq!(s, "n=18446744073709551615");
    assert_eq!(parse_unsigned("007", 100), Some(7));
    assert_eq!(parse_unsigned("100", 100), Some(100));
    assert_eq!(parse_unsigned("101", 100), None);
    for bad in ["", "-1", "1 ", "x"] {
        assert_eq!(parse_unsigned(bad, 100), None, "{bad:?}");
    }
    assert_eq!(integer_string(-42), "-42");
    assert_eq!(integer_string(i64::MIN), "-9223372036854775808");
}

#[test]
fn text_is_cut_replaced_and_padded() {
    assert_eq!(replace("a{{X}}b{{X}}", "{{X}}", "-"), "a-b-");
    assert_eq!(replace("aaa", "aa", "b"), "ba");
    assert_eq!(split_text("a,b,,c", ','), owned(&["a", "b", "", "c"]));
    assert_eq!(lines_of("a\nb\r\nc"), owned(&["a", "b", "c"]));
    assert_eq!(lines_of("a\n"), owned(&["a"]));
    assert!(lines_of("").is_empty());
    assert_eq!(trimmed_text(" \u{a0}a b\u{2003}\n"), "a b");
    assert!(white('\u{3000}') && !white('x'));
    assert_eq!(pad("ab", 4), "ab  ");
    assert_eq!(pad("abcde", 4), "abcde");
    assert_eq!(latin_string(b"M 100"), "M 100");
}

#[test]
fn bytes_and_texts_are_ordered_like_their_bytes() {
    assert!(bytes_less(b"a", b"ab") && !bytes_less(b"ab", b"a") && !bytes_less(b"a", b"a"));
    assert!(str_less("Z", "a") && str_less("a", "é"));
    assert_eq!(sort_texts(&owned(&["b", "a", "b"])), owned(&["a", "b", "b"]));
    assert_eq!(sort_set(&owned(&["b", "a", "b"])), owned(&["a", "b"]));
    assert_eq!(join_texts(&owned(&["a", "b"]), ' '), "a b");
    assert_eq!(split_bytes(b"a\0b\0", 0), vec![b"a".to_vec(), b"b".to_vec(), b"".to_vec()]);
    assert_eq!(join_bytes(&split_bytes(b"a\0b\0", 0), 0), b"a\0b\0");
}
