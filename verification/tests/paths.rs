//! Paths of patch headers.
use differential::paths::{parse_diff_git_path, unquote_c};

#[test]
fn plain_path() {
    assert_eq!(
        parse_diff_git_path(b"a/src/main.rs b/src/main.rs").unwrap(),
        b"src/main.rs"
    );
}

#[test]
fn path_with_spaces() {
    assert_eq!(
        parse_diff_git_path(b"a/docs/my file.md b/docs/my file.md").unwrap(),
        b"docs/my file.md"
    );
}

#[test]
fn adversarial_space_b_slash() {
    // A path containing " b/" itself: symmetric matching still finds the
    // unique split where both halves agree.
    assert_eq!(parse_diff_git_path(b"a/x b/y b/x b/y").unwrap(), b"x b/y");
}

#[test]
fn quoted_path() {
    assert_eq!(
        parse_diff_git_path(br#""a/t\tab.txt" "b/t\tab.txt""#).unwrap(),
        b"t\tab.txt"
    );
}

#[test]
fn quoted_octal() {
    let (v, rest) = unquote_c(br#""\303\251.txt" tail"#).unwrap();
    assert_eq!(v, "é.txt".as_bytes());
    assert_eq!(rest, b" tail");
}

#[test]
fn mismatched_halves_rejected() {
    assert!(parse_diff_git_path(b"a/one b/two").is_none());
}
