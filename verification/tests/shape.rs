//! Shape classes and digests.
use differential::lang::{Generic, Language};
use differential::model::Hunk;
use differential::shape::{hunk_digest, pure_substitution, shape_hash};

const G: &Generic = &Generic;

fn hunk(removed: &[&[u8]], added: &[&[u8]]) -> Hunk {
    Hunk {
        file: 0,
        old_start: 1,
        old_count: removed.len() as u32,
        new_start: 1,
        new_count: added.len() as u32,
        removed: removed.iter().map(|l| l.to_vec()).collect(),
        added: added.iter().map(|l| l.to_vec()).collect(),
        nonl_old: false,
        nonl_new: false,
    }
}

#[test]
fn identifier_renames_share_a_shape() {
    let a = hunk(
        &[b"    let total_count = compute_total(items);"],
        &[b"    let total_count = compute_sum(items);"],
    );
    let b = hunk(
        &[b"  let grand_total = derive_total(rows);"],
        &[b"  let grand_total = derive_result(rows);"],
    );
    assert_eq!(
        shape_hash(&a, b'M', false, G),
        shape_hash(&b, b'M', false, G)
    );
}

#[test]
fn literals_are_normalised() {
    let a = hunk(
        &[br#"    retry(5, "backoff")"#],
        &[br#"    retry(9, "linear")"#],
    );
    let b = hunk(&[br#"  retry(12, "other")"#], &[br#"  retry(3, "words")"#]);
    assert_eq!(
        shape_hash(&a, b'M', false, G),
        shape_hash(&b, b'M', false, G)
    );
}

#[test]
fn deletion_only_hunks_with_different_content_differ() {
    // Both sides contribute; different deletions are not one shape.
    let a = hunk(&[b"fn compute_interest(rate: f64) -> f64 {"], &[]);
    let b = hunk(&[b"const RETRY_LIMIT: usize = 5;"], &[]);
    assert_ne!(
        shape_hash(&a, b'M', false, G),
        shape_hash(&b, b'M', false, G)
    );
}

#[test]
fn disposition_is_part_of_the_key() {
    let a = hunk(&[], &[b"content line here"]);
    assert_ne!(
        shape_hash(&a, b'A', false, G),
        shape_hash(&a, b'M', false, G)
    );
}

#[test]
fn a_generated_file_never_shares_a_class_with_a_source_file() {
    // Identical text, one side generated: the noise tier routes whole classes, so
    // a class is wholly generated or not at all.
    let a = hunk(&[b"old = 1"], &[b"new = 2"]);
    assert_ne!(
        shape_hash(&a, b'M', true, G),
        shape_hash(&a, b'M', false, G)
    );
}

#[test]
fn crlf_agnostic_normalisation() {
    let unix = hunk(&[b"old_value_name = 1"], &[b"new_value_name = 1"]);
    let dos = hunk(&[b"old_value_name = 1\r"], &[b"new_value_name = 1\r"]);
    assert_eq!(
        shape_hash(&unix, b'M', false, G),
        shape_hash(&dos, b'M', false, G)
    );
}

#[test]
fn short_identifiers_survive_normalisation() {
    // The identifier regex needs length >= 4; `x` and `y` stay distinct.
    let a = hunk(&[b"x = 1"], &[b"y = 1"]);
    let b = hunk(&[b"y = 1"], &[b"x = 1"]);
    assert_ne!(
        shape_hash(&a, b'M', false, G),
        shape_hash(&b, b'M', false, G)
    );
}

#[test]
fn pure_substitution_detects_rename() {
    let h = hunk(
        &[b"if !self.mail_service.is_enabled() {"],
        &[b"if !self.system_notifier.is_enabled() {"],
    );
    assert!(pure_substitution(&h, G));
}

#[test]
fn structural_change_is_not_pure() {
    let h = hunk(
        &[b"send(user_address)"],
        &[b"send(user_address, RetryPolicy::default())"],
    );
    assert!(!pure_substitution(&h, G));
}

#[test]
fn insertion_only_is_never_pure() {
    let h = hunk(&[], &[b"brand_new_line()"]);
    assert!(!pure_substitution(&h, G));
}

#[test]
fn digest_is_exact_not_normalised() {
    let a = hunk(&[b"alpha_name = 1"], &[b"beta_name = 1"]);
    let b = hunk(&[b"gamma_name = 1"], &[b"delta_name = 1"]);
    // Same shape, different digests.
    assert_eq!(
        shape_hash(&a, b'M', false, G),
        shape_hash(&b, b'M', false, G)
    );
    assert_ne!(hunk_digest(&a), hunk_digest(&b));
}

#[test]
fn digest_covers_nonl_flags() {
    let a = hunk(&[b"line"], &[b"line"]);
    let mut b = a.clone();
    b.nonl_new = true;
    assert_ne!(hunk_digest(&a), hunk_digest(&b));
}

#[test]
fn language_override_changes_classification_but_not_digest() {
    struct Flattener;
    impl Language for Flattener {
        fn id(&self) -> &'static str {
            "flatten-v1"
        }
        fn claims(&self, _p: &[u8]) -> bool {
            true
        }
        fn normalize_line(&self, _l: &[u8]) -> Vec<u8> {
            b"X".to_vec()
        }
    }
    let a = hunk(&[b"completely unlike"], &[b"anything else at all"]);
    let b = hunk(&[b"nothing shared here"], &[b"with the other hunk"]);
    // Generic: different shapes. Flattener: same shape. Digests: unmoved.
    assert_ne!(
        shape_hash(&a, b'M', false, G),
        shape_hash(&b, b'M', false, G)
    );
    assert_eq!(
        shape_hash(&a, b'M', false, &Flattener),
        shape_hash(&b, b'M', false, &Flattener)
    );
    assert_ne!(hunk_digest(&a), hunk_digest(&b));
}

#[test]
fn a_pure_substitution_compares_heaps_of_lines() {
    let lines: [&[u8]; 2] = [b"    let total_count = compute_total(items);", b"drop_all(items);"];
    let renamed: [&[u8]; 2] = [b"clear_rows(items);", b"    let grand_total = derive_result(items);"];
    let h = hunk(&lines, &renamed);
    assert!(pure_substitution(&h, G));
    assert!(pure_substitution(&hunk(&renamed, &lines), G));
    assert!(pure_substitution(&hunk(&[lines[1], lines[0]], &renamed), G));
    // The same lines, but one of them more often.
    let twice = hunk(&[lines[0], lines[0], lines[1]], &[lines[0], lines[1], lines[1]]);
    assert!(!pure_substitution(&twice, G));
    let exchanged = hunk(&[lines[0], lines[1], lines[1]], &[lines[0], lines[0], lines[1]]);
    assert!(!pure_substitution(&exchanged, G));
    assert!(!pure_substitution(&hunk(&lines, &[]), G));
    assert!(!pure_substitution(&hunk(&[], &lines), G));
}
