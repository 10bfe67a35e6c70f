//! Raw git output in, a view out.
use differential::plan::enumerate::attr_marks_generated;

#[test]
fn only_a_positive_attribute_value_declares_generated() {
    for no in [&b"unspecified"[..], b"unset", b"false"] {
        assert!(
            !attr_marks_generated(no),
            "{:?}",
            String::from_utf8_lossy(no)
        );
    }
    for yes in [&b"true"[..], b"linguist-generated", b"1", b""] {
        assert!(
            attr_marks_generated(yes),
            "{:?}",
            String::from_utf8_lossy(yes)
        );
    }
}
