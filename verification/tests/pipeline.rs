//! The pipeline on a repository that lives in memory.
use std::cell::RefCell;
use std::collections::BTreeMap;
use std::sync::Mutex;

use differential::artefact::symbols::{FileSymbols, Scope, Symbol};
use differential::config::{Config, RawConfig};
use differential::gitio::{AttrValue, IndexEntry};
use differential::grouping::fetch::{GroupingOptions, Progress};
use differential::grouping::parse::{RawGroup, RawGroups};
use differential::grouping::stage::group_document;
use differential::hash::sha1_hex;
use differential::invariants::{check_all, check_fidelity, check_tree};
use differential::lang::LanguageRegistry;
use differential::llm::{LlmBackend, LlmError};
use differential::model::DiffView;
use differential::pipeline::{
    attr_marked_paths, run_core_with_progress, run_grouped_pipeline, run_pipeline, CoreOptions,
    StageOptions,
};
use differential::plan::enumerate::{build_view, Enumeration};
use differential::ports::{
    ArtefactStore, AttributeSource, DiffSource, GroupingCache, IndexSession, ObjectReader,
    ObjectWriter, RangeResolver, RecountSource, SymbolReader, TreeBuilder, TreeResolver,
};
use differential::schema::{GeneratedBy, PlanDocument, Role, SourceKind};
use differential::tree::build_tree;
use differential::EngineError;

type Files = BTreeMap<String, String>;

/// Two revisions, `base` and `head`; every file that differs is changed as a whole.
struct Repo {
    base: Files,
    head: Files,
    written: RefCell<BTreeMap<String, String>>,
    built: RefCell<Option<Files>>,
    /// What git says of the attribute on every path.
    attr: &'static str,
    broken: bool,
}

fn repo(base: &[(&str, &str)], head: &[(&str, &str)]) -> Repo {
    let files = |list: &[(&str, &str)]| {
        list.iter().map(|(p, c)| (p.to_string(), c.to_string())).collect::<Files>()
    };
    Repo {
        base: files(base),
        head: files(head),
        written: RefCell::new(BTreeMap::new()),
        built: RefCell::new(None),
        attr: "unspecified",
        broken: false,
    }
}

fn oid(content: &str) -> String {
    sha1_hex(content.as_bytes())
}

fn tree_id(files: &Files) -> String {
    let listing: Vec<String> =
        files.iter().map(|(p, c)| format!("{p} {}", oid(c))).collect();
    sha1_hex(listing.join("\n").as_bytes())
}

fn refused(what: &str) -> EngineError {
    EngineError::GitSpawn { msg: what.to_string() }
}

/// The changed paths, with what each holds on both sides.
fn changes<'a>(old: &'a Files, new: &'a Files) -> Vec<(&'a str, Option<&'a str>, Option<&'a str>)> {
    let mut paths: Vec<&String> = old.keys().chain(new.keys()).collect();
    paths.sort();
    paths.dedup();
    paths
        .into_iter()
        .map(|p| (p.as_str(), old.get(p).map(String::as_str), new.get(p).map(String::as_str)))
        .filter(|(_, a, b)| a != b)
        .collect()
}

fn patch(old: &Files, new: &Files) -> Vec<u8> {
    let mut out = String::new();
    for (path, before, after) in changes(old, new) {
        out.push_str(&format!("diff --git a/{path} b/{path}\n"));
        match (before, after) {
            (None, _) => out.push_str("new file mode 100644\n"),
            (_, None) => out.push_str("deleted file mode 100644\n"),
            _ => out.push_str("index 1..2 100644\n"),
        }
        let a: Vec<&str> = before.unwrap_or("").lines().collect();
        let b: Vec<&str> = after.unwrap_or("").lines().collect();
        let range = |n: usize| if n == 0 { "0,0".to_string() } else { format!("1,{n}") };
        out.push_str(&format!("@@ -{} +{} @@\n", range(a.len()), range(b.len())));
        for l in a {
            out.push_str(&format!("-{l}\n"));
        }
        for l in b {
            out.push_str(&format!("+{l}\n"));
        }
    }
    out.into_bytes()
}

impl Repo {
    fn side(&self, rev: &str) -> Result<&Files, EngineError> {
        match rev {
            "base" => Ok(&self.base),
            "head" => Ok(&self.head),
            other => Err(refused(other)),
        }
    }
}

impl RangeResolver for Repo {
    fn merge_base(&self, _a: &str, _b: &str) -> Result<String, EngineError> {
        Ok("base".into())
    }
    fn resolve_endpoint(&self, rev: &str) -> Result<String, EngineError> {
        self.side(rev).map(|_| rev.to_string())
    }
}

impl DiffSource for Repo {
    fn raw_records(&self, base: &str, head: &str) -> Result<Vec<u8>, EngineError> {
        let mut out = String::new();
        for (path, a, b) in changes(self.side(base)?, self.side(head)?) {
            let side = |c: Option<&str>| match c {
                Some(c) => ("100644", oid(c)),
                None => ("000000", "0".repeat(40)),
            };
            let status = match (a, b) {
                (None, _) => "A",
                (_, None) => "D",
                _ => "M",
            };
            let ((am, ao), (bm, bo)) = (side(a), side(b));
            out.push_str(&format!(":{am} {bm} {ao} {bo} {status}\0{path}\0"));
        }
        Ok(out.into_bytes())
    }
    fn canonical_patch(&self, base: &str, head: &str) -> Result<Vec<u8>, EngineError> {
        Ok(patch(self.side(base)?, self.side(head)?))
    }
    fn rename_records(&self, _base: &str, _head: &str) -> Result<Vec<u8>, EngineError> {
        Ok(vec![])
    }
}

impl RecountSource for Repo {
    fn recount_patch(&self, from: &str, _to: &str) -> Result<Vec<u8>, EngineError> {
        Ok(patch(self.side(from)?, self.built.borrow().as_ref().unwrap()))
    }
}

impl ObjectReader for Repo {
    fn blob(&self, rev: &str, path: &[u8]) -> Result<Option<Vec<u8>>, EngineError> {
        let path = String::from_utf8_lossy(path).into_owned();
        let mut content = self.side(rev)?.get(&path).map(|c| c.clone().into_bytes());
        if self.broken && rev == "head" {
            content = Some(b"something else\n".to_vec());
        }
        Ok(content)
    }
    fn require_object(&self, oid: &str) -> Result<(), EngineError> {
        Err(refused(oid))
    }
}

impl ObjectWriter for Repo {
    fn write_blob(&self, content: &[u8]) -> Result<String, EngineError> {
        let text = String::from_utf8(content.to_vec()).unwrap();
        let id = oid(&text);
        self.written.borrow_mut().insert(id.clone(), text);
        Ok(id)
    }
}

impl TreeResolver for Repo {
    fn tree_of(&self, rev: &str) -> Result<String, EngineError> {
        self.side(rev).map(tree_id)
    }
}

impl AttributeSource for Repo {
    fn check_attr(&self, _attr: &str, paths: &[&[u8]]) -> Result<Vec<AttrValue>, EngineError> {
        let value = self.attr.as_bytes().to_vec();
        Ok(paths.iter().map(|p| AttrValue { path: p.to_vec(), value: value.clone() }).collect())
    }
}

struct Session<'a> {
    repo: &'a Repo,
    files: Files,
}

impl IndexSession for Session<'_> {
    fn stage(mut self, entries: &Vec<IndexEntry>) -> Result<Self, EngineError> {
        for e in entries {
            match e {
                IndexEntry::Put { oid, path, .. } => {
                    let path = String::from_utf8(path.clone()).unwrap();
                    let content = self.repo.written.borrow()[oid].clone();
                    self.files.insert(path, content);
                }
                IndexEntry::Remove { path } => {
                    self.files.remove(std::str::from_utf8(path).unwrap());
                }
            }
        }
        Ok(self)
    }
    fn stage_from_worktree(self, _nul_paths: &[u8]) -> Result<Self, EngineError> {
        Ok(self)
    }
    fn write_tree(&self) -> Result<String, EngineError> {
        *self.repo.built.borrow_mut() = Some(self.files.clone());
        Ok(tree_id(&self.files))
    }
}

impl<'a> TreeBuilder for &'a Repo {
    type Session = Session<'a>;
    fn begin_from_tree(&self, tree_ish: &str) -> Result<Session<'a>, EngineError> {
        Ok(Session { repo: self, files: self.side(tree_ish)?.clone() })
    }
    fn begin_from_current_index(&self) -> Result<Session<'a>, EngineError> {
        Err(refused("no index"))
    }
}

impl RangeResolver for &Repo {
    fn merge_base(&self, a: &str, b: &str) -> Result<String, EngineError> {
        (**self).merge_base(a, b)
    }
    fn resolve_endpoint(&self, rev: &str) -> Result<String, EngineError> {
        (**self).resolve_endpoint(rev)
    }
}

impl DiffSource for &Repo {
    fn raw_records(&self, base: &str, head: &str) -> Result<Vec<u8>, EngineError> {
        (**self).raw_records(base, head)
    }
    fn canonical_patch(&self, base: &str, head: &str) -> Result<Vec<u8>, EngineError> {
        (**self).canonical_patch(base, head)
    }
    fn rename_records(&self, base: &str, head: &str) -> Result<Vec<u8>, EngineError> {
        (**self).rename_records(base, head)
    }
}

impl RecountSource for &Repo {
    fn recount_patch(&self, from: &str, to: &str) -> Result<Vec<u8>, EngineError> {
        (**self).recount_patch(from, to)
    }
}

impl ObjectReader for &Repo {
    fn blob(&self, rev: &str, path: &[u8]) -> Result<Option<Vec<u8>>, EngineError> {
        (**self).blob(rev, path)
    }
    fn require_object(&self, oid: &str) -> Result<(), EngineError> {
        (**self).require_object(oid)
    }
}

impl ObjectWriter for &Repo {
    fn write_blob(&self, content: &[u8]) -> Result<String, EngineError> {
        (**self).write_blob(content)
    }
}

impl TreeResolver for &Repo {
    fn tree_of(&self, rev: &str) -> Result<String, EngineError> {
        (**self).tree_of(rev)
    }
}

impl AttributeSource for &Repo {
    fn check_attr(&self, attr: &str, paths: &[&[u8]]) -> Result<Vec<AttrValue>, EngineError> {
        (**self).check_attr(attr, paths)
    }
}

/// Finds `def NAME` and `use NAME`.
struct Words;

impl SymbolReader for Words {
    fn of_file(&self, _path: &[u8], content: &[u8]) -> Option<FileSymbols> {
        let text = String::from_utf8_lossy(content).into_owned();
        let row = |line: &str, word: &str| {
            line.strip_prefix(word)
                .map(|n| Symbol { name: n.as_bytes().to_vec(), scope: Scope::Global })
                .into_iter()
                .collect::<Vec<Symbol>>()
        };
        Some(FileSymbols {
            defines: text.lines().map(|l| row(l, "def ")).collect(),
            references: text.lines().map(|l| row(l, "use ")).collect(),
        })
    }
}

struct Agent(Mutex<Vec<String>>);

impl LlmBackend for Agent {
    fn name(&self) -> &str {
        "agent"
    }
    fn complete(&self, prompt: &str) -> Result<String, LlmError> {
        self.0.lock().unwrap().push(prompt.to_string());
        Ok("one group each".into())
    }
}

struct NoCache;

impl GroupingCache for NoCache {
    fn get(&self, _key: &str) -> Result<Option<String>, EngineError> {
        Ok(None)
    }
    fn put(&self, _key: &str, _response: &str) -> Result<(), EngineError> {
        Ok(())
    }
}

struct Shelf;

impl ArtefactStore for Shelf {
    fn make_readable(&self, doc: &PlanDocument) -> Result<String, EngineError> {
        Ok(format!("{}-classes.json", doc.classes.len()))
    }
}

fn options<'a>(config: &'a Config, langs: &'a LanguageRegistry) -> CoreOptions<'a, Words> {
    CoreOptions { kind: SourceKind::Range, config, langs, symbols: &Words, version: "9" }
}

fn view_of(r: &Repo) -> DiffView {
    build_view(&Enumeration {
        raw_records: &r.raw_records("base", "head").unwrap(),
        canonical_patch: &r.canonical_patch("base", "head").unwrap(),
        rename_records: b"",
    })
    .unwrap()
}

fn sample() -> Repo {
    repo(
        &[("core.txt", "old\n"), ("user.txt", "a\nb\n"), ("gone.txt", "x\n"), ("same.txt", "s\n")],
        &[
            ("core.txt", "def Widget\n"),
            ("user.txt", "use Widget\nmore lines here\n"),
            ("new.txt", "y\n"),
            ("same.txt", "s\n"),
        ],
    )
}

#[test]
fn a_range_that_checks_out_becomes_a_document() {
    let r = sample();
    let (config, langs) = (Config::default(), LanguageRegistry::builtin());
    let out = run_pipeline(&&r, "base", "head", &options(&config, &langs)).unwrap();
    assert!(out.report.all_ok(), "{}", out.report.to_string());
    let doc = out.document.unwrap();
    assert_eq!(doc.generator.version, "9");
    assert_eq!((doc.source.base.as_str(), doc.source.head.as_str()), ("base", "head"));
    assert_eq!(doc.stats.files, 4);
    assert_eq!(doc.stats.hunks, 4);
    assert_eq!(doc.audit.recount, 4);
    assert_eq!(doc.audit.applier_exact, "4/4");
    assert!(doc.groups.is_none());
    let paths: Vec<&str> = doc.files.iter().map(|f| f.path.as_str()).collect();
    assert_eq!(paths, ["core.txt", "gone.txt", "new.txt", "user.txt"]);
    // The class that uses the name depends on the one that defines it.
    let user = doc.classes.iter().find(|c| !c.depends_on.is_empty()).unwrap();
    assert_eq!(user.depends_on[0].via, vec!["Widget"]);
}

#[test]
fn no_document_on_a_violation() {
    let mut r = sample();
    r.broken = true;
    let (config, langs) = (Config::default(), LanguageRegistry::builtin());
    let out = run_pipeline(&&r, "base", "head", &options(&config, &langs)).unwrap();
    assert!(!out.report.all_ok());
    assert!(out.document.is_none());
    assert_eq!(out.report.applier_mismatches.len(), 3);
    let tree = out.report.tree.unwrap();
    assert!(tree.built_tree.is_none(), "no tree on a broken applier");
}

#[test]
fn a_refusal_of_git_is_handed_on() {
    let r = sample();
    let (config, langs) = (Config::default(), LanguageRegistry::builtin());
    let e = run_pipeline(&&r, "base", "nowhere", &options(&config, &langs)).unwrap_err();
    assert_eq!(e, refused("nowhere"));
}

#[test]
fn stages_are_told_in_order() {
    let r = sample();
    let (config, langs) = (Config::default(), LanguageRegistry::builtin());
    let seen = RefCell::new(vec![]);
    let tell = |p: Progress| seen.borrow_mut().push(p);
    run_core_with_progress(&&r, "base", "head", &options(&config, &langs), &tell).unwrap();
    assert_eq!(*seen.borrow(), vec![Progress::Enumerating, Progress::Classifying]);
}

#[test]
fn the_built_tree_is_the_heads() {
    let r = sample();
    let view = view_of(&r);
    assert_eq!(build_tree(&&r, "base", &view).unwrap(), tree_id(&r.head));
    let report = check_fidelity(&&r, "base", "head", &view).unwrap();
    assert!(report.fidelity_ok() && !report.all_ok());
    let tree = check_tree(&&r, "base", "head", &view, &report).unwrap();
    assert!(tree.tree_ok && tree.recount_ok);
    assert_eq!(tree.recount, 4);
    assert!(check_all(&&r, "base", "head", &view).unwrap().all_ok());
}

#[test]
fn hunks_that_do_not_fit_are_an_error() {
    let r = sample();
    let mut view = view_of(&r);
    view.hunks[0].old_start = 40;
    let e = check_fidelity(&&r, "base", "head", &view).unwrap_err();
    assert!(e.message().contains("core.txt do not fit its base"), "{}", e.message());
    assert!(build_tree(&&r, "base", &view).is_err());
}

#[test]
fn a_missing_binary_object_is_an_error() {
    let r = sample();
    let mut view = view_of(&r);
    view.files[0].binary = true;
    let e = check_fidelity(&&r, "base", "head", &view).unwrap_err();
    assert_eq!(e, refused(view.files[0].new_oid.as_ref().unwrap()));
}

#[test]
fn attributes_and_globs_mark_files_but_remove_none() {
    let mut r = sample();
    let raw = RawConfig {
        generated: vec![],
        not_generated: vec!["core.txt".into()],
        attributes: None,
        has_grouping: false,
    };
    let config = Config::from_raw(raw, "test").unwrap();
    let langs = LanguageRegistry::builtin();
    assert!(attr_marked_paths(&&r, &config, &view_of(&r)).unwrap().is_empty());
    r.attr = "set";
    assert_eq!(attr_marked_paths(&&r, &config, &view_of(&r)).unwrap().len(), 4);
    let doc = run_pipeline(&&r, "base", "head", &options(&config, &langs))
        .unwrap()
        .document
        .unwrap();
    assert_eq!(doc.stats.files, 4);
    let marked: Vec<Option<GeneratedBy>> = doc.files.iter().map(|f| f.generated_by).collect();
    let by = Some(GeneratedBy::Attr);
    assert_eq!(marked, vec![None, by, by, by], "an override wins");
}

fn one_group_each(doc: &PlanDocument) -> RawGroups {
    RawGroups {
        groups: doc
            .classes
            .iter()
            .map(|c| RawGroup {
                label: format!("about {}", c.id),
                description: "d".into(),
                classes: vec![c.id.clone()],
                effort: "focus".into(),
                reason: "r".into(),
            })
            .collect(),
    }
}

#[test]
fn the_grouped_pipeline_reads_definitions_first() {
    let r = sample();
    let (config, langs) = (Config::default(), LanguageRegistry::builtin());
    let core = run_pipeline(&&r, "base", "head", &options(&config, &langs)).unwrap();
    let answer = one_group_each(&core.document.unwrap());
    let agent = Agent(Mutex::new(vec![]));
    let stage = StageOptions {
        grouping: GroupingOptions { backend: &agent, cache: &NoCache, fetch: "dfr" },
        artefacts: &Shelf,
        template: "{{FETCH}} {{DOC}} {{CLASS_IDS}}",
    };
    let seen = RefCell::new(vec![]);
    let out = run_grouped_pipeline(
        &&r,
        "base",
        "head",
        &options(&config, &langs),
        &stage,
        &|_: &str| Ok(answer.clone()),
        &|p| seen.borrow_mut().push(p),
    )
    .unwrap();
    assert_eq!(agent.0.lock().unwrap().len(), 1);
    assert!(agent.0.lock().unwrap()[0].starts_with("dfr "));
    assert_eq!(seen.borrow().last(), Some(&Progress::Done));

    let doc = out.document.unwrap();
    let groups = doc.groups.unwrap();
    assert_eq!(groups.len(), doc.classes.len());
    let foundation = groups.iter().position(|g| g.role == Some(Role::Foundation)).unwrap();
    let consumer = groups.iter().position(|g| g.role == Some(Role::Consumer)).unwrap();
    assert!(foundation < consumer);
    assert_eq!(groups[consumer].depends_on, vec![groups[foundation].id.clone()]);
    assert_eq!(doc.audit.classes_missing, Some(0));
    assert_eq!(doc.generator.stages, vec!["enumerate", "classify", "group", "order"]);
}

#[test]
fn an_answer_that_cannot_be_read_is_an_error() {
    let r = sample();
    let (config, langs) = (Config::default(), LanguageRegistry::builtin());
    let doc =
        run_pipeline(&&r, "base", "head", &options(&config, &langs)).unwrap().document.unwrap();
    let agent = Agent(Mutex::new(vec![]));
    let grouping = GroupingOptions { backend: &agent, cache: &NoCache, fetch: "dfr" };
    let bad = |text: &str| Err(differential::grouping::parse::err("unreadable", text));
    let e = group_document(doc, "t", &Shelf, &grouping, "generic-v1", &bad, &|_| {}).unwrap_err();
    assert_eq!(
        e,
        EngineError::GroupingParse { msg: "unreadable".into(), sample: "one group each".into() }
    );
}

#[test]
fn nobody_is_asked_about_generated_files_alone() {
    let r = repo(&[("Cargo.lock", "a\n")], &[("Cargo.lock", "b\n")]);
    let (config, langs) = (Config::default(), LanguageRegistry::builtin());
    let agent = Agent(Mutex::new(vec![]));
    let stage = StageOptions {
        grouping: GroupingOptions { backend: &agent, cache: &NoCache, fetch: "dfr" },
        artefacts: &Shelf,
        template: "t",
    };
    let out = run_grouped_pipeline(
        &&r,
        "base",
        "head",
        &options(&config, &langs),
        &stage,
        &|_: &str| panic!("nothing to read"),
        &|_| {},
    )
    .unwrap();
    assert!(agent.0.lock().unwrap().is_empty());
    let doc = out.document.unwrap();
    assert_eq!(doc.groups.unwrap()[0].label, "Generated files");
}
