//! The language seam.
use differential::lang::{FileSymbols, Language, LanguageRegistry};

struct FakeToml;
impl Language for FakeToml {
    fn id(&self) -> &'static str {
        "fake-toml-v1"
    }
    fn claims(&self, path: &[u8]) -> bool {
        path.ends_with(b".toml")
    }
    fn normalize_line(&self, _line: &[u8]) -> Vec<u8> {
        b"T".to_vec()
    }
}

#[test]
fn fallback_claims_everything() {
    let reg = LanguageRegistry::builtin();
    assert_eq!(reg.detect(b"whatever.xyz").id(), "generic-v1");
    assert_eq!(reg.fingerprint(), "generic-v1");
}

#[test]
fn registered_language_wins_for_its_files_only() {
    let mut reg = LanguageRegistry::builtin();
    reg.register(Box::new(FakeToml));
    assert_eq!(reg.detect(b"Cargo.toml").id(), "fake-toml-v1");
    assert_eq!(reg.detect(b"src/main.rs").id(), "generic-v1");
    assert_eq!(reg.fingerprint(), "fake-toml-v1+generic-v1");
}

#[test]
fn symbols_are_read_by_line_number() {
    let symbols = FileSymbols {
        defines: vec![vec![b"A".to_vec()], vec![]],
        references: vec![vec![], vec![b"B".to_vec()]],
    };
    assert_eq!(symbols.defines_at(1), [b"A".to_vec()]);
    assert_eq!(symbols.references_at(2), [b"B".to_vec()]);
    for line in [0, 3] {
        assert!(symbols.defines_at(line).is_empty());
        assert!(symbols.references_at(line).is_empty());
    }
}
