//! Configuration, split by ownership:
//!
//! - Repo-level `.differential.toml` at the repo's root: classification hints
//!   only, shared by everyone reviewing the repo.
//! - User-level `~/.config/differential/config.toml`: which agent CLI to run and
//!   its timeout, and how much context the screen shows around a hunk.
//!
//! Config tunes classification hints and tool behaviour. It can never remove a
//! file or hunk from enumeration.
use globset::{Glob, GlobSet, GlobSetBuilder};
use vstd::prelude::*;

use crate::model::GeneratedBy;
use crate::plan::identity::{join_path, under};
use crate::seqs::texts;
use crate::text::{debug_text, push_str, quoted};
use crate::EngineError;

verus! {

pub const CONFIG_FILE_NAME: &'static str = ".differential.toml";

pub const USER_CONFIG_DIR: &'static str = "differential";

pub const USER_CONFIG_FILE_NAME: &'static str = "config.toml";

/// The attribute that declares a file generated where the config names none.
pub const DEFAULT_ATTRIBUTE: &'static str = "linguist-generated";

/// A parsed glob pattern of the `globset` crate.
#[verifier::external_type_specification]
#[verifier::external_body]
pub struct ExGlob(globset::Glob);

/// A set of globs in the making, of the `globset` crate.
#[verifier::external_type_specification]
#[verifier::external_body]
pub struct ExGlobSetBuilder(globset::GlobSetBuilder);

/// A set of globs of the `globset` crate.
#[verifier::external_type_specification]
#[verifier::external_body]
pub struct ExGlobSet(globset::GlobSet);

/// The pattern that a glob was parsed from.
pub uninterp spec fn glob_pattern(glob: Glob) -> Seq<char>;

/// The patterns that were added to a builder, in order.
pub uninterp spec fn builder_patterns(builder: GlobSetBuilder) -> Seq<Seq<char>>;

/// The patterns that a set of globs holds, in order.
pub uninterp spec fn set_patterns(set: GlobSet) -> Seq<Seq<char>>;

/// What is wrong with a glob pattern, if anything.
pub uninterp spec fn glob_error(pattern: Seq<char>) -> Option<Seq<char>>;

/// What is wrong with a set of patterns, if anything.
pub uninterp spec fn set_error(patterns: Seq<Seq<char>>) -> Option<Seq<char>>;

/// Whether some pattern of a set matches a path.
pub uninterp spec fn globs_match(patterns: Seq<Seq<char>>, path: Seq<char>) -> bool;

/// `globset::Glob::new`: whether a pattern parses, and the message where it does
/// not, depend on the pattern alone (what separates path components is fixed for
/// the platform that the library is built for). A glob keeps its pattern.
#[verifier::external_body]
fn parse_glob(pattern: &str) -> (r: Result<Glob, String>)
    ensures
        match r {
            Ok(glob) => glob_error(pattern@) is None && glob_pattern(glob) == pattern@,
            Err(msg) => glob_error(pattern@) == Some(msg@),
        },
{
    Glob::new(pattern).map_err(|e| e.to_string())
}

/// `globset::GlobSetBuilder::new`: a new builder holds no pattern.
#[verifier::external_body]
fn new_builder() -> (r: GlobSetBuilder)
    ensures
        builder_patterns(r) == Seq::<Seq<char>>::empty(),
{
    GlobSetBuilder::new()
}

/// `globset::GlobSetBuilder::add`: the glob is added behind the others.
#[verifier::external_body]
fn add_glob(builder: &mut GlobSetBuilder, glob: Glob)
    ensures
        builder_patterns(*final(builder)) == builder_patterns(*old(builder)).push(
            glob_pattern(glob),
        ),
{
    builder.add(glob);
}

/// `globset::GlobSetBuilder::build`: the set holds the builder's patterns; whether
/// it can be built, and the message where it cannot, depend on them alone.
#[verifier::external_body]
fn build_set(builder: &GlobSetBuilder) -> (r: Result<GlobSet, String>)
    ensures
        match r {
            Ok(set) => set_error(builder_patterns(*builder)) is None && set_patterns(set)
                == builder_patterns(*builder),
            Err(msg) => set_error(builder_patterns(*builder)) == Some(msg@),
        },
{
    builder.build().map_err(|e| e.to_string())
}

/// `globset::GlobSet::empty`: a set without patterns.
#[verifier::external_body]
fn empty_set() -> (r: GlobSet)
    ensures
        set_patterns(r) == Seq::<Seq<char>>::empty(),
{
    GlobSet::empty()
}

/// `globset::GlobSet::is_match`: the answer depends on the patterns and the path
/// alone; a set without patterns matches nothing.
#[verifier::external_body]
fn matches_set(set: &GlobSet, path: &str) -> (r: bool)
    ensures
        r == globs_match(set_patterns(*set), path@),
        set_patterns(*set).len() == 0 ==> !r,
{
    set.is_match(path)
}

/// Everything that the user-level file says.
#[derive(Debug)]
pub struct UserConfig {
    pub grouping: GroupingConfig,
    pub review: ReviewConfig,
}

impl Default for UserConfig {
    fn default() -> (r: Self)
        ensures
            r.grouping.command is None,
            r.grouping.timeout_secs is None,
            r.review == (ReviewConfig { context: 3, context_step: 10 }),
    {
        UserConfig { grouping: GroupingConfig::default(), review: ReviewConfig::default() }
    }
}

/// Which agent is run.
#[derive(Debug, Clone)]
pub struct GroupingConfig {
    /// Backend argv (prompt on stdin, completion on stdout).
    pub command: Option<Vec<String>>,
    pub timeout_secs: Option<u64>,
}

impl Default for GroupingConfig {
    fn default() -> (r: Self)
        ensures
            r.command is None,
            r.timeout_secs is None,
    {
        GroupingConfig { command: None, timeout_secs: None }
    }
}

/// How much of a file the screen shows around a hunk. Presentation
/// only.
#[derive(Debug, Clone, Copy, PartialEq, Eq, Structural)]
pub struct ReviewConfig {
    /// Context lines shown either side of a hunk before any expansion.
    pub context: usize,
    /// Lines one expansion at a context boundary pulls in.
    pub context_step: usize,
}

impl Default for ReviewConfig {
    fn default() -> (r: Self)
        ensures
            r == (ReviewConfig { context: 3, context_step: 10 }),
    {
        ReviewConfig { context: 3, context_step: 10 }
    }
}

/// What the repo-level file says.
#[derive(Debug, Clone)]
pub struct RawConfig {
    pub generated: Vec<String>,
    pub not_generated: Vec<String>,
    pub attributes: Option<Vec<String>>,
    /// Whether there is a `[grouping]` table, which belongs into the user file.
    pub has_grouping: bool,
}

/// The configuration in force.
#[derive(Debug)]
pub struct Config {
    /// Additive globs marking files as generated (noise-tier hint).
    pub generated: GlobSet,
    /// Overrides: never mark these generated. Wins over everything.
    pub not_generated: GlobSet,
    /// gitattributes attribute names honoured as "generated" declarations.
    pub attributes: Vec<String>,
    /// From the user config, never the repo (agents differ per user).
    pub grouping: GroupingConfig,
    /// From the user config: how much context the screen shows.
    pub review: ReviewConfig,
}

impl Default for Config {
    fn default() -> (r: Self)
        ensures
            set_patterns(r.generated).len() == 0,
            set_patterns(r.not_generated).len() == 0,
            texts(r.attributes@) == seq![DEFAULT_ATTRIBUTE@],
            r.grouping.command is None,
            r.grouping.timeout_secs is None,
            r.review == (ReviewConfig { context: 3, context_step: 10 }),
    {
        Config {
            generated: empty_set(),
            not_generated: empty_set(),
            attributes: default_attributes(),
            grouping: GroupingConfig::default(),
            review: ReviewConfig::default(),
        }
    }
}

fn default_attributes() -> (r: Vec<String>)
    ensures
        texts(r@) == seq![DEFAULT_ATTRIBUTE@],
{
    let mut out: Vec<String> = Vec::new();
    out.push(DEFAULT_ATTRIBUTE.to_owned());
    assert(texts(out@) =~= seq![DEFAULT_ATTRIBUTE@]);
    out
}

/// `<user config dir>/differential/config.toml`.
pub fn user_config_path(user_config_dir: Option<&str>) -> (r: Option<String>)
    ensures
        match user_config_dir {
            Some(dir) => r matches Some(p) && p@ == under(
                under(dir@, USER_CONFIG_DIR@),
                USER_CONFIG_FILE_NAME@,
            ),
            None => r is None,
        },
{
    match user_config_dir {
        Some(dir) => Some(join_path(&join_path(dir, USER_CONFIG_DIR), USER_CONFIG_FILE_NAME)),
        None => None,
    }
}

/// `<repo root>/.differential.toml`.
pub fn repo_config_path(repo_root: &str) -> (r: String)
    ensures
        r@ == under(repo_root@, CONFIG_FILE_NAME@),
{
    join_path(repo_root, CONFIG_FILE_NAME)
}

/// Which file is read, and whether it must be there.
#[derive(Debug, Clone, PartialEq, Eq)]
pub enum Lookup {
    /// An explicit path: a missing file is an error.
    Required(String),
    /// The default location: a missing file means defaults.
    Optional(String),
    /// There is no place to look.
    Nowhere,
}

/// Explicit path before default location before defaults. A missing default is
/// fine, a missing explicit path is not.
pub fn resolve(explicit: Option<&str>, default: Option<&str>) -> (r: Lookup)
    ensures
        match (explicit, default) {
            (Some(p), _) => r matches Lookup::Required(q) && q@ == p@,
            (None, Some(p)) => r matches Lookup::Optional(q) && q@ == p@,
            (None, None) => r is Nowhere,
        },
{
    match (explicit, default) {
        (Some(p), _) => Lookup::Required(p.to_owned()),
        (None, Some(p)) => Lookup::Optional(p.to_owned()),
        (None, None) => Lookup::Nowhere,
    }
}

/// The configuration that two files make: the repo's hints, and the user's
/// choices. Defaults stand in for an absent file.
pub fn compose(repo: Option<Config>, user: Option<UserConfig>) -> (r: Config)
    ensures
        match repo {
            Some(c) => r.generated == c.generated && r.not_generated == c.not_generated
                && r.attributes == c.attributes,
            None => set_patterns(r.generated).len() == 0 && set_patterns(r.not_generated).len() == 0
                && texts(r.attributes@) == seq![DEFAULT_ATTRIBUTE@],
        },
        match (user, repo) {
            (Some(u), _) => r.grouping == u.grouping && r.review == u.review,
            (None, Some(c)) => r.grouping == c.grouping && r.review == c.review,
            (None, None) => r.grouping.command is None && r.grouping.timeout_secs is None
                && r.review == (ReviewConfig { context: 3, context_step: 10 }),
        },
{
    let mut config = match repo {
        Some(c) => c,
        None => Config::default(),
    };
    if let Some(u) = user {
        config.grouping = u.grouping;
        config.review = u.review;
    }
    config
}

/// What is said of a bad glob.
pub open spec fn bad_glob(pattern: Seq<char>, why: Seq<char>) -> Seq<char> {
    "bad glob "@ + debug_text(pattern) + ": "@ + why
}

/// What is wrong with the first bad one of some patterns, from place `from` on; if
/// all parse, what is wrong with the set.
pub open spec fn globs_fault(patterns: Seq<Seq<char>>, from: int) -> Option<Seq<char>>
    decreases patterns.len() - from,
{
    if from >= patterns.len() {
        set_error(patterns)
    } else {
        match glob_error(patterns[from]) {
            Some(why) => Some(bad_glob(patterns[from], why)),
            None => globs_fault(patterns, from + 1),
        }
    }
}

/// Whether an error is about a configuration file, with a message.
pub open spec fn is_config_error(e: EngineError, origin: Seq<char>, why: Seq<char>) -> bool {
    e matches EngineError::Config { path, msg } && path@ == origin && msg@ == why
}

/// The set of some patterns.
pub fn build_globs(patterns: &Vec<String>, origin: &str) -> (r: Result<GlobSet, EngineError>)
    ensures
        match r {
            Ok(set) => globs_fault(texts(patterns@), 0) is None && set_patterns(set) == texts(
                patterns@,
            ),
            Err(e) => globs_fault(texts(patterns@), 0) matches Some(why) && is_config_error(
                e,
                origin@,
                why,
            ),
        },
{
    let ghost all = texts(patterns@);
    let mut builder = new_builder();
    assert(all.take(0) =~= Seq::<Seq<char>>::empty());
    for i in 0..patterns.len()
        invariant
            all == texts(patterns@),
            builder_patterns(builder) == all.take(i as int),
            globs_fault(all, 0) == globs_fault(all, i as int),
    {
        assert(all.take(i + 1) =~= all.take(i as int).push(all[i as int]));
        match parse_glob(&patterns[i]) {
            Ok(glob) => {
                add_glob(&mut builder, glob);
            },
            Err(why) => {
                let mut msg = String::new();
                push_str(&mut msg, "bad glob ");
                push_str(&mut msg, &quoted(&patterns[i]));
                push_str(&mut msg, ": ");
                push_str(&mut msg, &why);
                assert(msg@ =~= bad_glob(all[i as int], why@));
                return Err(EngineError::Config { path: origin.to_owned(), msg });
            },
        }
    }
    assert(all.take(all.len() as int) =~= all);
    match build_set(&builder) {
        Ok(set) => Ok(set),
        Err(msg) => Err(EngineError::Config { path: origin.to_owned(), msg }),
    }
}

/// What is said of a `[grouping]` table in the repo file.
pub open spec fn moved_hint() -> Seq<char> {
    "[grouping] moved to the user config (~/.config/differential/config.toml): the agent command is a per-user choice, not a repo setting"@
}

/// What is wrong with what the repo-level file says, if anything.
pub open spec fn repo_fault(raw: RawConfig) -> Option<Seq<char>> {
    if raw.has_grouping {
        Some(moved_hint())
    } else {
        match globs_fault(texts(raw.generated@), 0) {
            Some(why) => Some(why),
            None => globs_fault(texts(raw.not_generated@), 0),
        }
    }
}

impl Config {
    /// The configuration that the repo-level file states: classification hints
    /// only. A `[grouping]` table there is a hard error with a pointer to its
    /// home.
    pub fn from_raw(raw: RawConfig, origin: &str) -> (r: Result<Config, EngineError>)
        ensures
            match r {
                Ok(c) => {
                    &&& repo_fault(raw) is None
                    &&& set_patterns(c.generated) == texts(raw.generated@)
                    &&& set_patterns(c.not_generated) == texts(raw.not_generated@)
                    &&& match raw.attributes {
                        Some(list) => c.attributes == list,
                        None => texts(c.attributes@) == seq![DEFAULT_ATTRIBUTE@],
                    }
                    &&& c.grouping.command is None
                    &&& c.grouping.timeout_secs is None
                    &&& c.review == (ReviewConfig { context: 3, context_step: 10 })
                },
                Err(e) => repo_fault(raw) matches Some(why) && is_config_error(e, origin@, why),
            },
    {
        if raw.has_grouping {
            return Err(
                EngineError::Config {
                    path: origin.to_owned(),
                    msg:
                        "[grouping] moved to the user config (~/.config/differential/config.toml): the agent command is a per-user choice, not a repo setting".to_owned(),
                },
            );
        }
        let generated = match build_globs(&raw.generated, origin) {
            Ok(set) => set,
            Err(e) => {
                return Err(e);
            },
        };
        let not_generated = match build_globs(&raw.not_generated, origin) {
            Ok(set) => set,
            Err(e) => {
                return Err(e);
            },
        };
        let attributes = match raw.attributes {
            Some(list) => list,
            None => default_attributes(),
        };
        Ok(
            Config {
                generated,
                not_generated,
                attributes,
                grouping: GroupingConfig::default(),
                review: ReviewConfig::default(),
            },
        )
    }

    /// Who declares a file generated: the overrides win over everything; then the
    /// built-in list, the attributes, and the additive globs are asked.
    pub open spec fn declared(&self, path: Seq<char>, builtin: bool, attr: bool) -> Option<
        GeneratedBy,
    > {
        if globs_match(set_patterns(self.not_generated), path) {
            None
        } else if builtin {
            Some(GeneratedBy::Builtin)
        } else if attr {
            Some(GeneratedBy::Attr)
        } else if globs_match(set_patterns(self.generated), path) {
            Some(GeneratedBy::Config)
        } else {
            None
        }
    }

    /// Who declares a file generated.
    pub fn generated_by(&self, path: &str, builtin: bool, attr: bool) -> (r: Option<GeneratedBy>)
        ensures
            r == self.declared(path@, builtin, attr),
            r == generated_rule(
                globs_match(set_patterns(self.not_generated), path@),
                builtin,
                attr,
                globs_match(set_patterns(self.generated), path@),
            ),
    {
        let excluded = matches_set(&self.not_generated, path);
        let included = matches_set(&self.generated, path);
        decide_generated(excluded, builtin, attr, included)
    }
}

/// The rule on generated files, by what was found.
pub open spec fn generated_rule(excluded: bool, builtin: bool, attr: bool, included: bool) -> Option<
    GeneratedBy,
> {
    if excluded {
        None
    } else if builtin {
        Some(GeneratedBy::Builtin)
    } else if attr {
        Some(GeneratedBy::Attr)
    } else if included {
        Some(GeneratedBy::Config)
    } else {
        None
    }
}

/// The rule on generated files, by what was found: an override wins over
/// everything.
pub fn decide_generated(excluded: bool, builtin: bool, attr: bool, included: bool) -> (r: Option<
    GeneratedBy,
>)
    ensures
        r == generated_rule(excluded, builtin, attr, included),
{
    if excluded {
        None
    } else if builtin {
        Some(GeneratedBy::Builtin)
    } else if attr {
        Some(GeneratedBy::Attr)
    } else if included {
        Some(GeneratedBy::Config)
    } else {
        None
    }
}

/// A file is generated where the built-in list, an attribute or a pattern says so, in
/// this order, and no override says otherwise.
pub proof fn law_an_override_wins_over_every_mark(
    config: &Config,
    path: &str,
    builtin: bool,
    attr: bool,
    r: Option<GeneratedBy>,
)
    requires
        call_ensures(Config::generated_by, (config, path, builtin, attr), r),
    ensures
        r is Some <==> !globs_match(set_patterns(config.not_generated), path@) && (builtin || attr
            || globs_match(set_patterns(config.generated), path@)),
        r is Some && builtin ==> r == Some(GeneratedBy::Builtin),
        r is Some && !builtin && attr ==> r == Some(GeneratedBy::Attr),
        r is Some && !builtin && !attr ==> r == Some(GeneratedBy::Config),
{
}

/// The rule depends on the overrides before everything, and on a source only where those
/// before it are silent.
pub proof fn law_the_rule_asks_in_order(
    excluded: bool,
    builtin: bool,
    attr: bool,
    included: bool,
    r: Option<GeneratedBy>,
)
    requires
        call_ensures(decide_generated, (excluded, builtin, attr, included), r),
    ensures
        r is Some <==> !excluded && (builtin || attr || included),
        r == Some(GeneratedBy::Builtin) <==> !excluded && builtin,
        r == Some(GeneratedBy::Attr) <==> !excluded && !builtin && attr,
        r == Some(GeneratedBy::Config) <==> !excluded && !builtin && !attr && included,
{
}

/// What classifies comes from the repo and from nowhere else; what a user chooses comes
/// from the user's file where there is one.
pub proof fn law_each_file_says_its_own_part(repo: Config, user: UserConfig, r: Config, s: Config)
    requires
        call_ensures(compose, (Some(repo), Some(user)), r),
        call_ensures(compose, (None::<Config>, Some(user)), s),
    ensures
        r.generated == repo.generated,
        r.not_generated == repo.not_generated,
        r.attributes == repo.attributes,
        r.grouping == user.grouping,
        r.review == user.review,
        s.grouping == user.grouping,
        s.review == user.review,
        set_patterns(s.generated).len() == 0,
        set_patterns(s.not_generated).len() == 0,
        s.attributes@.len() == 1 && s.attributes@[0]@ == "linguist-generated"@,
{
    assert(texts(s.attributes@).len() == 1);
    assert(texts(s.attributes@)[0] == s.attributes@[0]@);
}

} // verus!
