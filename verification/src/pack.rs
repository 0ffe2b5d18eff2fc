//! Language pack model and loading.
//!
//! A pack is a directory containing:
//! ```text
//! pack.toml            # manifest: detection, grammar, mapping, scaffold config
//! queries/tests.scm    # tree-sitter query extracting blocks and tests
//! templates/test.jinja # scaffold template
//! ```
//!
//! Resolution order for a pack named `foo`:
//!   1. `<project>/.btt/packs/foo/`           (vendored / project-local)
//!   2. `$XDG_CONFIG_HOME/btt/packs/foo/`     (user-global)
//!   3. `~/.btt/packs/foo/`                   (user-global, legacy location)
//!   4. packs embedded in the binary          (rust, typescript)
//!
//! Packs are data-only: a manifest, a tree-sitter query or a lexical profile,
//! and templates. They never contain executable code, so vendoring one is as
//! reviewable as any other config change.

use vstd::prelude::*;
use crate::check::is_among;
use crate::error::Error;
use crate::lexical;
use crate::mapping::Mapping;
use crate::paths::{components, extension, file_name, join_path, starts_with_path, Component};
use crate::text::{concat3, contains, less, owned, same, split_once, strip_prefix};
use crate::versions::{allows, requirement_error, version_error};

verus! {

use crate::error::ErrorView;
use crate::lexical::profile_fault;
use crate::mapping::MappingView;
use crate::paths::{components_of, extension_of, file_name_of, is_within, joined_path, Part};
use crate::text::{cut_once, debug_of, has_part, lemma_less_total, lemma_less_transitive, opt_view, text_less, views};
use crate::versions::{requirement_allows, requirement_fault, version_fault};

broadcast use vstd::string::group_string_axioms;

/// The manifest format this library understands.
pub const FORMAT: u32 = 1;

/// Identity section of a pack manifest.
#[derive(Debug)]
pub struct PackMeta {
    /// Pack name (matches its directory name).
    pub name: String,
    /// Pack version.
    pub version: String,
    /// One-line description shown by `btt packs`.
    pub description: String,
}

/// Compatibility section of a pack manifest.
#[derive(Debug)]
pub struct Compat {
    /// The btt versions the pack works with, as a version requirement.
    pub btt: String,
}

/// How files are routed to this pack.
#[derive(Debug)]
pub struct Detect {
    /// File extensions this pack's language uses, e.g. `["rs"]`.
    pub extensions: Vec<String>,
    /// Candidate test-file names for a tree file, tried in order.
    /// `{stem}` is the tree file's stem: `map.tree` -> `map`.
    pub targets: Vec<String>,
}

/// Where a pack's grammar comes from.
#[derive(Debug, Clone)]
pub enum GrammarSource {
    /// A grammar compiled into the core binary (`builtin:<name>`).
    Builtin(String),
    /// A sandboxed WASM grammar shipped with the pack (`wasm:<file>`).
    Wasm(String),
    /// No grammar: the manifest's lexical profile (`lexical`).
    Lexical,
}

/// The model of a [`GrammarSource`].
pub enum GrammarSourceView {
    Builtin(Seq<char>),
    Wasm(Seq<char>),
    Lexical,
}

impl View for GrammarSource {
    type V = GrammarSourceView;

    open spec fn view(&self) -> GrammarSourceView {
        match *self {
            GrammarSource::Builtin(name) => GrammarSourceView::Builtin(name@),
            GrammarSource::Wasm(file) => GrammarSourceView::Wasm(file@),
            GrammarSource::Lexical => GrammarSourceView::Lexical,
        }
    }
}

/// The grammar source that a manifest's text names.
pub open spec fn grammar_source_of(s: Seq<char>) -> Option<GrammarSourceView> {
    if "builtin:"@.is_prefix_of(s) {
        Some(GrammarSourceView::Builtin(s.skip("builtin:"@.len() as int)))
    } else if "wasm:"@.is_prefix_of(s) {
        Some(GrammarSourceView::Wasm(s.skip("wasm:"@.len() as int)))
    } else if s == "lexical"@ {
        Some(GrammarSourceView::Lexical)
    } else {
        None
    }
}

/// Read the grammar source that a manifest's text names.
pub fn parse_grammar_source(s: &str) -> (out: Result<GrammarSource, String>)
    ensures
        match out {
            Ok(source) => grammar_source_of(s@) == Some(source@),
            Err(message) => grammar_source_of(s@) is None && message@
                == "grammar source must be `builtin:<name>`, `wasm:<file>`, or `lexical`, got "@
                + debug_of(s@),
        },
{
    if let Some(name) = strip_prefix(s, "builtin:") {
        return Ok(GrammarSource::Builtin(name));
    }
    if let Some(file) = strip_prefix(s, "wasm:") {
        return Ok(GrammarSource::Wasm(file));
    }
    if same(s, "lexical") {
        return Ok(GrammarSource::Lexical);
    }
    let mut message = owned(
        "grammar source must be `builtin:<name>`, `wasm:<file>`, or `lexical`, got ",
    );
    message.append(crate::text::debug(s).as_str());
    Err(message)
}

/// Grammar section of a pack manifest.
#[derive(Debug)]
pub struct GrammarConfig {
    /// Grammar source.
    pub source: GrammarSource,
    /// Language symbol exported by a WASM grammar (`tree_sitter_<symbol>`).
    /// Defaults to the pack name.
    pub symbol: Option<String>,
}

/// How captured names decode to titles.
#[derive(Debug, Clone, Copy, PartialEq, Eq, Structural)]
pub enum NameSyntax {
    /// The text is the name (identifiers).
    Raw,
    /// The text is a JS-style string literal: the name is its value.
    JsString,
}

impl Default for NameSyntax {
    fn default() -> (out: Self)
        ensures
            out == NameSyntax::Raw,
    {
        NameSyntax::Raw
    }
}

/// Extraction section of a pack manifest.
#[derive(Debug)]
pub struct Extract {
    /// Path (within the pack) of the tree-sitter query file.
    pub query: Option<String>,
    /// If true, a `@test` capture only counts as a test when a
    /// `@test.marker` capture (e.g. a `#[test]` attribute) directly
    /// precedes it among its siblings.
    pub test_requires_marker: bool,
    /// How captured names decode to titles.
    pub name_syntax: NameSyntax,
    /// The functions that a source may bind to other names. Where the pack's
    /// query or patterns hold `{function}`, a call under any of those names
    /// counts.
    pub aliases: Vec<String>,
    /// The tree-sitter query that finds what a source binds, with the captures
    /// `@alias.name` and `@alias.value`.
    pub alias_query: Option<String>,
}

/// Scaffold section of a pack manifest.
#[derive(Debug)]
pub struct Scaffold {
    /// Path (within the pack) of the scaffold template.
    pub template: String,
    /// Output file name pattern, e.g. `{stem}.test.ts`.
    pub output: String,
    /// Indentation unit used by the template's `indent` values.
    pub indent: String,
}

/// The indentation unit of a manifest that names none: four spaces.
pub fn default_indent() -> (out: String)
    ensures
        out@ == "    "@,
{
    owned("    ")
}

/// A string syntax of a lexical profile.
#[derive(Debug)]
pub struct StringRule {
    /// What opens and closes the string.
    pub delim: String,
    /// What makes the next byte part of the string, if anything does.
    pub escape: Option<String>,
}

/// The model of a [`StringRule`].
pub struct StringRuleView {
    pub delim: Seq<char>,
    pub escape: Option<Seq<char>>,
}

impl View for StringRule {
    type V = StringRuleView;

    open spec fn view(&self) -> StringRuleView {
        StringRuleView { delim: self.delim@, escape: opt_view(self.escape) }
    }
}

/// A pattern of a lexical profile.
#[derive(Debug)]
pub struct Opener {
    /// The regular expression.
    pub open: String,
}

/// The lexical profile of a pack: just enough syntax to tell code from
/// comments and strings, and what a block and a test look like.
#[derive(Debug)]
pub struct Lexical {
    /// Line-comment opener; runs to the end of the line.
    pub line_comment: Option<String>,
    /// Opener and closer of block comments, which do not nest.
    pub block_comment: Option<(String, String)>,
    /// String syntaxes, tried in order.
    pub strings: Vec<StringRule>,
    /// Bracket pairs that define nesting spans.
    pub nest: Vec<(String, String)>,
    /// What opens a block.
    pub block: Opener,
    /// What opens a test.
    pub test: Opener,
    /// What cannot be represented, if the profile recognizes it.
    pub unsupported: Option<Opener>,
    /// What binds a name to a value, if the profile recognizes it.
    pub alias: Option<Opener>,
}

/// The model of a [`Lexical`] profile.
pub struct LexicalView {
    pub line_comment: Option<Seq<char>>,
    pub block_comment: Option<(Seq<char>, Seq<char>)>,
    pub strings: Seq<StringRuleView>,
    pub nest: Seq<(Seq<char>, Seq<char>)>,
    pub block: Seq<char>,
    pub test: Seq<char>,
    pub unsupported: Option<Seq<char>>,
    pub alias: Option<Seq<char>>,
}

/// Pairs of texts.
pub open spec fn pair_views(pairs: Seq<(String, String)>) -> Seq<(Seq<char>, Seq<char>)> {
    pairs.map_values(|pair: (String, String)| (pair.0@, pair.1@))
}

impl View for Lexical {
    type V = LexicalView;

    open spec fn view(&self) -> LexicalView {
        LexicalView {
            line_comment: opt_view(self.line_comment),
            block_comment: match self.block_comment {
                Some((open, close)) => Some((open@, close@)),
                None => None,
            },
            strings: views(self.strings@),
            nest: pair_views(self.nest@),
            block: self.block.open@,
            test: self.test.open@,
            unsupported: match self.unsupported {
                Some(opener) => Some(opener.open@),
                None => None,
            },
            alias: match self.alias {
                Some(opener) => Some(opener.open@),
                None => None,
            },
        }
    }
}

/// A parsed `pack.toml`.
#[derive(Debug)]
pub struct Manifest {
    /// Version of the manifest format.
    pub format: u32,
    /// Identity.
    pub pack: PackMeta,
    /// Compatibility.
    pub compat: Compat,
    /// File routing.
    pub detect: Detect,
    /// Grammar source.
    pub grammar: GrammarConfig,
    /// Extraction query configuration.
    pub extract: Extract,
    /// Node-text-to-identifier rules.
    pub mapping: Mapping,
    /// Scaffold template configuration.
    pub scaffold: Scaffold,
    /// Lexical profile.
    pub lexical: Option<Lexical>,
}

/// The model of a [`Manifest`].
pub struct ManifestView {
    pub format: u32,
    pub name: Seq<char>,
    pub version: Seq<char>,
    pub description: Seq<char>,
    pub btt: Seq<char>,
    pub extensions: Seq<Seq<char>>,
    pub targets: Seq<Seq<char>>,
    pub source: GrammarSourceView,
    pub symbol: Option<Seq<char>>,
    pub query: Option<Seq<char>>,
    pub test_requires_marker: bool,
    pub name_syntax: NameSyntax,
    pub aliases: Seq<Seq<char>>,
    pub alias_query: Option<Seq<char>>,
    pub mapping: MappingView,
    pub template: Seq<char>,
    pub output: Seq<char>,
    pub indent: Seq<char>,
    pub lexical: Option<LexicalView>,
}

impl View for Manifest {
    type V = ManifestView;

    open spec fn view(&self) -> ManifestView {
        ManifestView {
            format: self.format,
            name: self.pack.name@,
            version: self.pack.version@,
            description: self.pack.description@,
            btt: self.compat.btt@,
            extensions: views(self.detect.extensions@),
            targets: views(self.detect.targets@),
            source: self.grammar.source@,
            symbol: opt_view(self.grammar.symbol),
            query: opt_view(self.extract.query),
            test_requires_marker: self.extract.test_requires_marker,
            name_syntax: self.extract.name_syntax,
            aliases: views(self.extract.aliases@),
            alias_query: opt_view(self.extract.alias_query),
            mapping: self.mapping@,
            template: self.scaffold.template@,
            output: self.scaffold.output@,
            indent: self.scaffold.indent@,
            lexical: match self.lexical {
                Some(profile) => Some(profile@),
                None => None,
            },
        }
    }
}

/// Where a loaded pack was resolved from.
#[derive(Debug, Clone, PartialEq, Eq)]
pub enum Origin {
    /// Embedded in the btt binary.
    Builtin,
    /// A user-global pack directory.
    User(String),
    /// `<project>/.btt/packs/<name>`.
    Project(String),
}

/// The model of an [`Origin`].
pub enum OriginView {
    Builtin,
    User(Seq<char>),
    Project(Seq<char>),
}

impl View for Origin {
    type V = OriginView;

    open spec fn view(&self) -> OriginView {
        match *self {
            Origin::Builtin => OriginView::Builtin,
            Origin::User(dir) => OriginView::User(dir@),
            Origin::Project(dir) => OriginView::Project(dir@),
        }
    }
}

/// The word that stands for an origin.
pub open spec fn origin_label(origin: OriginView) -> Seq<char> {
    match origin {
        OriginView::Builtin => "builtin"@,
        OriginView::User(_) => "user"@,
        OriginView::Project(_) => "project"@,
    }
}

impl Origin {
    /// The word that stands for this origin.
    pub fn to_string(&self) -> (out: String)
        ensures
            out@ == origin_label(self@),
    {
        match self {
            Origin::Builtin => owned("builtin"),
            Origin::User(_) => owned("user"),
            Origin::Project(_) => owned("project"),
        }
    }
}

/// A fully loaded pack: manifest plus the file contents it references.
#[derive(Debug)]
pub struct Pack {
    /// The parsed manifest.
    pub manifest: Manifest,
    /// Contents of the extraction query file.
    pub query: String,
    /// Contents of the scaffold template.
    pub template: String,
    /// Bytes of the pack's WASM grammar, when it ships one.
    pub wasm_grammar: Option<Vec<u8>>,
    /// Where this pack was resolved from.
    pub origin: Origin,
}

/// Whether a text is among the given ones.
pub open spec fn lists(items: Seq<Seq<char>>, text: Seq<char>) -> bool {
    items.contains(text)
}

impl Pack {
    /// The pack's name.
    #[must_use]
    pub fn name(&self) -> (out: &str)
        ensures
            out@ == self.manifest@.name,
    {
        self.manifest.pack.name.as_str()
    }

    /// Whether this pack's language uses the given file extension.
    #[must_use]
    pub fn matches_extension(&self, ext: &str) -> (yes: bool)
        ensures
            yes == lists(self.manifest@.extensions, ext@),
    {
        is_among(&self.manifest.detect.extensions, ext)
    }
}

/// The names of the packs embedded in the binary.
pub open spec fn embedded_names() -> Seq<Seq<char>> {
    seq!["rust"@, "typescript"@]
}

/// Names of the packs embedded in this binary.
#[must_use]
pub fn builtin_names() -> (out: Vec<String>)
    ensures
        views(out@) == embedded_names(),
{
    let mut out: Vec<String> = Vec::new();
    out.push(owned("rust"));
    out.push(owned("typescript"));
    assert(views(out@) =~= embedded_names());
    out
}

/// Whether a pack name is one plain path component that is not hidden.
pub open spec fn is_plain_name(name: Seq<char>) -> bool {
    components_of(name) == seq![Part::Normal(name)] && name[0] != '.'
}

/// Whether a pack name can safely become a directory name.
pub fn is_safe_name(name: &str) -> (yes: bool)
    ensures
        yes == is_plain_name(name@),
{
    let parts = components(name);
    let ghost all = components_of(name@);
    assert(all.len() == parts@.len());
    if parts.len() != 1 {
        return false;
    }
    assert(all[0] == parts@[0]@);
    match &parts[0] {
        Component::Normal(part) => {
            if !same(part.as_str(), name) {
                return false;
            }
            assert(all =~= seq![Part::Normal(name@)]);
            proof {
                lemma_plain_name_nonempty(name@);
            }
            name.get_char(0) != '.'
        },
        _ => false,
    }
}

proof fn lemma_plain_name_nonempty(name: Seq<char>)
    requires
        components_of(name) == seq![Part::Normal(name)],
    ensures
        name.len() > 0,
{
    if name.len() == 0 {
        let all = crate::text::pieces(name, '/');
        assert(all =~= seq![Seq::<char>::empty()]);
        reveal_strlit(".");
        assert(all.drop_last() =~= Seq::empty());
        assert(crate::paths::parts_of(all.drop_last()) =~= Seq::empty());
        assert(all.last().len() == 0);
        assert(crate::paths::parts_of(all) =~= Seq::empty());
        assert(all[0].len() == 0 && "."@.len() == 1);
        assert(components_of(name).len() == 0);
    }
}

/// Whether a manifest path stays inside the pack: relative, without `..`.
pub open spec fn is_confined(path: Seq<char>) -> bool {
    forall|i: int|
        0 <= i < components_of(path).len() ==> {
            let part = #[trigger] components_of(path)[i];
            !(part is Root) && !(part is Parent)
        }
}

/// Whether a manifest path stays inside the pack.
pub fn stays_inside(path: &str) -> (yes: bool)
    ensures
        yes == is_confined(path@),
{
    let parts = components(path);
    let ghost all = components_of(path@);
    assert(all == views(parts@));
    let mut i: usize = 0;
    while i < parts.len()
        invariant
            i <= parts@.len(),
            all == views(parts@),
            all == components_of(path@),
            forall|j: int| 0 <= j < i ==> !((#[trigger] all[j]) is Root) && !(all[j] is Parent),
        decreases parts@.len() - i,
    {
        assert(all[i as int] == parts@[i as int]@);
        match &parts[i] {
            Component::Root => {
                assert(components_of(path@)[i as int] is Root);
                return false;
            },
            Component::Parent => {
                assert(components_of(path@)[i as int] is Parent);
                return false;
            },
            _ => {},
        }
        i += 1;
    }
    true
}

/// Whether forward and reverse routing agree on a target pattern: it holds
/// `{stem}` exactly once and no directory separator.
pub open spec fn is_target_pattern(pattern: Seq<char>) -> bool {
    match cut_once(pattern, "{stem}"@) {
        Some((_, after)) => !has_part(after, "{stem}"@) && !has_part(pattern, "/"@) && !has_part(
            pattern,
            "\\"@,
        ),
        None => false,
    }
}

/// Whether forward and reverse routing agree on a target pattern.
pub fn is_reversible(pattern: &str) -> (yes: bool)
    ensures
        yes == is_target_pattern(pattern@),
{
    match split_once(pattern, "{stem}") {
        Some((_, after)) => !contains(after.as_str(), "{stem}") && !contains(pattern, "/")
            && !contains(pattern, "\\"),
        None => false,
    }
}

/// The first target pattern that routing cannot use.
pub open spec fn bad_target(targets: Seq<Seq<char>>) -> Option<Seq<char>>
    decreases targets.len(),
{
    if targets.len() == 0 {
        None
    } else {
        match bad_target(targets.drop_last()) {
            Some(pattern) => Some(pattern),
            None => if is_target_pattern(targets.last()) {
                None
            } else {
                Some(targets.last())
            },
        }
    }
}

fn find_bad_target(targets: &Vec<String>) -> (out: Option<String>)
    ensures
        opt_view(out) == bad_target(views(targets@)),
{
    let ghost all = views(targets@);
    let mut i: usize = 0;
    assert(all.take(0) =~= Seq::empty());
    while i < targets.len()
        invariant
            i <= targets@.len(),
            all == views(targets@),
            bad_target(all.take(i as int)) is None,
        decreases targets@.len() - i,
    {
        assert(all.take(i + 1).drop_last() =~= all.take(i as int));
        assert(all.take(i + 1).last() == targets@[i as int]@);
        if !is_reversible(targets[i].as_str()) {
            proof {
                lemma_bad_target_stays(all, i + 1);
            }
            return Some(targets[i].clone());
        }
        i += 1;
    }
    assert(all.take(i as int) =~= all);
    None
}

proof fn lemma_bad_target_stays(all: Seq<Seq<char>>, n: int)
    requires
        0 <= n <= all.len(),
        bad_target(all.take(n)) is Some,
    ensures
        bad_target(all) == bad_target(all.take(n)),
    decreases all.len() - n,
{
    if n < all.len() {
        assert(all.take(n + 1).drop_last() =~= all.take(n));
        lemma_bad_target_stays(all, n + 1);
    } else {
        assert(all.take(n) =~= all);
    }
}

/// The outcome of reading a requirement, a pack's version and the running
/// version: the message of the first that does not parse, or whether the
/// running version is accepted.
pub open spec fn version_fault_of(
    m: ManifestView,
    current: Seq<char>,
    version_fault: Option<Seq<char>>,
    requirement_fault: Option<Seq<char>>,
    current_fault: Option<Seq<char>>,
    allowed: bool,
) -> Option<ErrorView> {
    if version_fault is Some {
        Some(
            ErrorView::Manifest {
                pack: m.name,
                message: "pack.version `"@ + m.version + "` is not a semantic version: "@
                    + version_fault->0,
            },
        )
    } else if requirement_fault is Some {
        Some(
            ErrorView::Manifest {
                pack: m.name,
                message: "compat.btt `"@ + m.btt + "` is not a version requirement: "@
                    + requirement_fault->0,
            },
        )
    } else if current_fault is Some {
        Some(
            ErrorView::Manifest {
                pack: m.name,
                message: "the running btt version `"@ + current + "` is not a semantic version: "@
                    + current_fault->0,
            },
        )
    } else if !allowed {
        Some(
            ErrorView::IncompatibleBtt {
                pack: m.name,
                version: m.version,
                requirement: m.btt,
                current,
            },
        )
    } else {
        None
    }
}

/// Say what is wrong with a manifest's versions, given what reading them
/// came to.
pub fn judge_versions(
    manifest: &Manifest,
    current: &str,
    version_fault: Option<String>,
    requirement_fault: Option<String>,
    current_fault: Option<String>,
    allowed: bool,
) -> (out: Option<Error>)
    ensures
        error_view(out) == version_fault_of(
            manifest@,
            current@,
            opt_view(version_fault),
            opt_view(requirement_fault),
            opt_view(current_fault),
            allowed,
        ),
{
    let pack = manifest.pack.name.clone();
    if let Some(fault) = version_fault {
        let mut message = concat3("pack.version `", manifest.pack.version.as_str(), "` is not a semantic version: ");
        message.append(fault.as_str());
        return Some(Error::Manifest { pack, message });
    }
    if let Some(fault) = requirement_fault {
        let mut message = concat3("compat.btt `", manifest.compat.btt.as_str(), "` is not a version requirement: ");
        message.append(fault.as_str());
        return Some(Error::Manifest { pack, message });
    }
    if let Some(fault) = current_fault {
        let mut message = concat3("the running btt version `", current, "` is not a semantic version: ");
        message.append(fault.as_str());
        return Some(Error::Manifest { pack, message });
    }
    if !allowed {
        return Some(
            Error::IncompatibleBtt {
                pack,
                version: manifest.pack.version.clone(),
                requirement: manifest.compat.btt.clone(),
                current: owned(current),
            },
        );
    }
    None
}

/// An optional error by its model.
pub open spec fn error_view(e: Option<Error>) -> Option<ErrorView> {
    match e {
        Some(e) => Some(e@),
        None => None,
    }
}

/// What is wrong with the versions that a manifest declares.
pub open spec fn compat_fault(m: ManifestView, current: Seq<char>) -> Option<ErrorView> {
    version_fault_of(
        m,
        current,
        version_fault(m.version),
        requirement_fault(m.btt),
        version_fault(current),
        requirement_allows(m.btt, current),
    )
}

fn check_compat(manifest: &Manifest, current: &str) -> (out: Option<Error>)
    ensures
        error_view(out) == compat_fault(manifest@, current@),
{
    let version = version_error(manifest.pack.version.as_str());
    let requirement = requirement_error(manifest.compat.btt.as_str());
    let running = version_error(current);
    let allowed = requirement.is_none() && running.is_none() && allows(
        manifest.compat.btt.as_str(),
        current,
    );
    judge_versions(manifest, current, version, requirement, running, allowed)
}

/// The first path of a manifest that could leave the pack directory, with
/// the field that holds it.
pub open spec fn escaping_path(m: ManifestView) -> Option<(Seq<char>, Seq<char>)> {
    if m.query matches Some(query) && !is_confined(query) {
        Some(("extract.query"@, m.query->0))
    } else if !is_confined(m.template) {
        Some(("scaffold.template"@, m.template))
    } else if !is_confined(m.output) {
        Some(("scaffold.output"@, m.output))
    } else if m.source matches GrammarSourceView::Wasm(file) && !is_confined(file) {
        Some(("grammar.source"@, m.source->Wasm_0))
    } else {
        None
    }
}

fn find_escaping_path(manifest: &Manifest) -> (out: Option<(String, String)>)
    ensures
        match out {
            Some((field, value)) => escaping_path(manifest@) == Some((field@, value@)),
            None => escaping_path(manifest@) is None,
        },
{
    if let Some(query) = &manifest.extract.query {
        if !stays_inside(query.as_str()) {
            return Some((owned("extract.query"), query.clone()));
        }
    }
    if !stays_inside(manifest.scaffold.template.as_str()) {
        return Some((owned("scaffold.template"), manifest.scaffold.template.clone()));
    }
    if !stays_inside(manifest.scaffold.output.as_str()) {
        return Some((owned("scaffold.output"), manifest.scaffold.output.clone()));
    }
    if let GrammarSource::Wasm(file) = &manifest.grammar.source {
        if !stays_inside(file.as_str()) {
            return Some((owned("grammar.source"), file.clone()));
        }
    }
    None
}

/// What is inconsistent between the sections of a manifest: a lexical pack
/// has a profile and neither a query nor markers; every other pack has a
/// query.
pub open spec fn section_fault(m: ManifestView) -> Option<Seq<char>> {
    if m.source is Lexical {
        if m.lexical is None {
            Some("grammar source `lexical` requires a [lexical] section"@)
        } else if m.query is Some {
            Some("lexical packs do not use extract.query"@)
        } else if m.test_requires_marker {
            Some("lexical packs do not use extract.test_requires_marker"@)
        } else {
            None
        }
    } else if m.query is None {
        Some("grammar-backed packs require extract.query"@)
    } else {
        None
    }
}

fn check_sections(manifest: &Manifest) -> (out: Option<String>)
    ensures
        opt_view(out) == section_fault(manifest@),
{
    match &manifest.grammar.source {
        GrammarSource::Lexical => {
            if manifest.lexical.is_none() {
                Some(owned("grammar source `lexical` requires a [lexical] section"))
            } else if manifest.extract.query.is_some() {
                Some(owned("lexical packs do not use extract.query"))
            } else if manifest.extract.test_requires_marker {
                Some(owned("lexical packs do not use extract.test_requires_marker"))
            } else {
                None
            }
        },
        _ => {
            if manifest.extract.query.is_none() {
                Some(owned("grammar-backed packs require extract.query"))
            } else {
                None
            }
        },
    }
}

/// The first thing that is wrong with a manifest: its format is checked
/// before anything else in it.
pub open spec fn manifest_fault(m: ManifestView, current: Seq<char>) -> Option<ErrorView> {
    if m.format != FORMAT {
        Some(
            ErrorView::UnsupportedPackFormat { pack: m.name, format: m.format, supported: FORMAT },
        )
    } else if compat_fault(m, current) is Some {
        compat_fault(m, current)
    } else if escaping_path(m) is Some {
        let (field, value) = escaping_path(m)->0;
        Some(ErrorView::UnsafePath { pack: m.name, field, value })
    } else if bad_target(m.targets) is Some {
        Some(ErrorView::InvalidTargetPattern { pack: m.name, pattern: bad_target(m.targets)->0 })
    } else if section_fault(m) is Some {
        Some(ErrorView::Manifest { pack: m.name, message: section_fault(m)->0 })
    } else if m.lexical matches Some(profile) && profile_fault(profile, m.aliases) is Some {
        Some(
            ErrorView::Lexical {
                pack: m.name,
                message: profile_fault(m.lexical->0, m.aliases)->0,
            },
        )
    } else {
        None
    }
}

/// Validate a parsed manifest against the running version `current`: its
/// format and versions, the confinement of its paths, its target patterns,
/// its cross-field rules and its lexical profile.
///
/// # Errors
///
/// The first rule that the manifest breaks.
pub fn validate(manifest: &Manifest, current: &str) -> (out: Result<(), Error>)
    ensures
        match out {
            Ok(_) => manifest_fault(manifest@, current@) is None,
            Err(e) => manifest_fault(manifest@, current@) == Some(e@),
        },
{
    let pack = manifest.pack.name.clone();
    if manifest.format != FORMAT {
        return Err(
            Error::UnsupportedPackFormat { pack, format: manifest.format, supported: FORMAT },
        );
    }
    if let Some(e) = check_compat(manifest, current) {
        return Err(e);
    }
    if let Some((field, value)) = find_escaping_path(manifest) {
        return Err(Error::UnsafePath { pack, field, value });
    }
    if let Some(pattern) = find_bad_target(&manifest.detect.targets) {
        return Err(Error::InvalidTargetPattern { pack, pattern });
    }
    if let Some(message) = check_sections(manifest) {
        return Err(Error::Manifest { pack, message });
    }
    if let Some(profile) = &manifest.lexical {
        if let Err(message) = lexical::validate_profile(profile, &manifest.extract.aliases) {
            return Err(Error::Lexical { pack, message });
        }
    }
    Ok(())
}

/// The model of a [`Pack`].
#[verifier::ext_equal]
pub struct PackView {
    pub manifest: ManifestView,
    pub query: Seq<char>,
    pub template: Seq<char>,
    pub wasm_grammar: Option<Seq<u8>>,
    pub origin: OriginView,
}

/// Optional bytes.
pub open spec fn bytes_view(bytes: Option<Vec<u8>>) -> Option<Seq<u8>> {
    match bytes {
        Some(bytes) => Some(bytes@),
        None => None,
    }
}

impl View for Pack {
    type V = PackView;

    open spec fn view(&self) -> PackView {
        PackView {
            manifest: self.manifest@,
            query: self.query@,
            template: self.template@,
            wasm_grammar: bytes_view(self.wasm_grammar),
            origin: self.origin@,
        }
    }
}

/// What reading a file of a pack came to.
#[derive(Debug)]
pub enum FileRead {
    /// The file was read.
    Text {
        /// Where the file really is, with all links followed.
        place: String,
        /// Its contents.
        text: String,
    },
    /// The file could not be read as text.
    Failed {
        /// Why.
        message: String,
    },
}

/// The model of a [`FileRead`].
pub enum FileReadView {
    Text { place: Seq<char>, text: Seq<char> },
    Failed { message: Seq<char> },
}

impl View for FileRead {
    type V = FileReadView;

    open spec fn view(&self) -> FileReadView {
        match *self {
            FileRead::Text { place, text } => FileReadView::Text { place: place@, text: text@ },
            FileRead::Failed { message } => FileReadView::Failed { message: message@ },
        }
    }
}

/// What was found at one place of the resolution order.
#[derive(Debug)]
pub struct PackSource {
    /// The place.
    pub origin: Origin,
    /// Where the pack directory really is, with all links followed.
    pub root: String,
    /// The parsed manifest.
    pub manifest: Manifest,
    /// The query file that the manifest names.
    pub query: FileRead,
    /// The template file that the manifest names.
    pub template: FileRead,
    /// Where the WASM grammar that the manifest names really is, and its
    /// bytes, where it could be read.
    pub wasm_grammar: Option<(String, Vec<u8>)>,
}

/// The model of a [`PackSource`].
pub struct PackSourceView {
    pub origin: OriginView,
    pub root: Seq<char>,
    pub manifest: ManifestView,
    pub query: FileReadView,
    pub template: FileReadView,
    pub wasm_grammar: Option<(Seq<char>, Seq<u8>)>,
}

impl View for PackSource {
    type V = PackSourceView;

    open spec fn view(&self) -> PackSourceView {
        PackSourceView {
            origin: self.origin@,
            root: self.root@,
            manifest: self.manifest@,
            query: self.query@,
            template: self.template@,
            wasm_grammar: match self.wasm_grammar {
                Some((place, bytes)) => Some((place@, bytes@)),
                None => None,
            },
        }
    }
}

/// The text of a file that a manifest names, or why the pack cannot have it.
/// A file of a pack directory must really lie inside it; an embedded file is
/// where it is.
pub open spec fn file_text(
    pack: Seq<char>,
    origin: OriginView,
    root: Seq<char>,
    field: Seq<char>,
    file: Seq<char>,
    read: FileReadView,
) -> Result<Seq<char>, ErrorView> {
    match (origin, read) {
        (OriginView::Builtin, FileReadView::Text { text, .. }) => Ok(text),
        (OriginView::Builtin, FileReadView::Failed { .. }) => Err(
            ErrorView::PackFile { pack, file },
        ),
        (_, FileReadView::Failed { message }) => Err(
            ErrorView::Io { path: joined_path(origin_dir(origin), file), message },
        ),
        (_, FileReadView::Text { place, text }) => if is_within(place, root) {
            Ok(text)
        } else {
            Err(ErrorView::UnsafePath { pack, field, value: file })
        },
    }
}

/// The directory of a pack that has one.
pub open spec fn origin_dir(origin: OriginView) -> Seq<char> {
    match origin {
        OriginView::Builtin => Seq::empty(),
        OriginView::User(dir) => dir,
        OriginView::Project(dir) => dir,
    }
}

fn take_file(
    pack: &str,
    origin: &Origin,
    root: &str,
    field: &str,
    file: &str,
    read: FileRead,
) -> (out: Result<String, Error>)
    ensures
        match out {
            Ok(text) => file_text(pack@, origin@, root@, field@, file@, read@) == Ok::<
                Seq<char>,
                ErrorView,
            >(text@),
            Err(e) => file_text(pack@, origin@, root@, field@, file@, read@) == Err::<
                Seq<char>,
                ErrorView,
            >(e@),
        },
{
    let dir = match origin {
        Origin::Builtin => {
            return match read {
                FileRead::Text { text, .. } => Ok(text),
                FileRead::Failed { .. } => Err(
                    Error::PackFile { pack: owned(pack), file: owned(file) },
                ),
            };
        },
        Origin::User(dir) => dir,
        Origin::Project(dir) => dir,
    };
    match read {
        FileRead::Failed { message } => Err(
            Error::Io { path: join_path(dir.as_str(), file), message },
        ),
        FileRead::Text { place, text } => {
            if starts_with_path(place.as_str(), root) {
                Ok(text)
            } else {
                Err(
                    Error::UnsafePath {
                        pack: owned(pack),
                        field: owned(field),
                        value: owned(file),
                    },
                )
            }
        },
    }
}

/// The bytes of the WASM grammar of a pack that has one. A grammar file that
/// could not be read is left out.
pub open spec fn wasm_bytes(source: PackSourceView) -> Result<Option<Seq<u8>>, ErrorView> {
    match (source.manifest.source, source.wasm_grammar) {
        (GrammarSourceView::Wasm(file), Some((place, bytes))) => if source.origin is Builtin
            || is_within(place, source.root) {
            Ok(Some(bytes))
        } else {
            Err(
                ErrorView::UnsafePath {
                    pack: source.manifest.name,
                    field: "grammar.source"@,
                    value: file,
                },
            )
        },
        _ => Ok(None),
    }
}

/// The pack that a place of the resolution order provides, or why it cannot.
pub open spec fn assembled(source: PackSourceView, current: Seq<char>) -> Result<
    PackView,
    ErrorView,
> {
    let m = source.manifest;
    if manifest_fault(m, current) is Some {
        Err(manifest_fault(m, current)->0)
    } else {
        let query = match m.query {
            Some(file) => file_text(
                m.name,
                source.origin,
                source.root,
                "extract.query"@,
                file,
                source.query,
            ),
            None => Ok(Seq::empty()),
        };
        let template = file_text(
            m.name,
            source.origin,
            source.root,
            "scaffold.template"@,
            m.template,
            source.template,
        );
        match (query, template, wasm_bytes(source)) {
            (Err(e), _, _) => Err(e),
            (_, Err(e), _) => Err(e),
            (_, _, Err(e)) => Err(e),
            (Ok(query), Ok(template), Ok(wasm_grammar)) => Ok(
                PackView { manifest: m, query, template, wasm_grammar, origin: source.origin },
            ),
        }
    }
}

/// Turn what was found at a place of the resolution order into a pack. An
/// unreadable grammar file is not an error here: it surfaces per file when a
/// source is parsed, so one broken pack cannot abort a whole run.
///
/// # Errors
///
/// The first rule that the manifest breaks, or the file that cannot be had.
pub fn assemble(source: PackSource, current: &str) -> (out: Result<Pack, Error>)
    ensures
        match out {
            Ok(pack) => assembled(source@, current@) == Ok::<PackView, ErrorView>(pack@),
            Err(e) => assembled(source@, current@) == Err::<PackView, ErrorView>(e@),
        },
{
    let PackSource { origin, root, manifest, query, template, wasm_grammar } = source;
    validate(&manifest, current)?;
    let name = manifest.pack.name.as_str();
    let query = match &manifest.extract.query {
        Some(file) => take_file(
            name,
            &origin,
            root.as_str(),
            "extract.query",
            file.as_str(),
            query,
        )?,
        None => String::new(),
    };
    let template = take_file(
        name,
        &origin,
        root.as_str(),
        "scaffold.template",
        manifest.scaffold.template.as_str(),
        template,
    )?;
    let embedded = match &origin {
        Origin::Builtin => true,
        _ => false,
    };
    let wasm_grammar = match (&manifest.grammar.source, wasm_grammar) {
        (GrammarSource::Wasm(file), Some((place, bytes))) => {
            if !embedded && !starts_with_path(place.as_str(), root.as_str()) {
                return Err(
                    Error::UnsafePath {
                        pack: manifest.pack.name.clone(),
                        field: owned("grammar.source"),
                        value: file.clone(),
                    },
                );
            }
            Some(bytes)
        },
        _ => None,
    };
    Ok(Pack { manifest, query, template, wasm_grammar, origin })
}

/// Load a pack from an explicit directory, bypassing the resolution order:
/// what was found in it, as the project's own pack.
///
/// # Errors
///
/// Fails if the directory does not contain a valid pack.
pub fn load_dir(dir: &str, source: PackSource, current: &str) -> (out: Result<Pack, Error>)
    ensures
        ({
            let found = PackSourceView { origin: OriginView::Project(dir@), ..source@ };
            match out {
                Ok(pack) => assembled(found, current@) == Ok::<PackView, ErrorView>(pack@),
                Err(e) => assembled(found, current@) == Err::<PackView, ErrorView>(e@),
            }
        }),
{
    let PackSource { origin: _, root, manifest, query, template, wasm_grammar } = source;
    let found = PackSource {
        origin: Origin::Project(owned(dir)),
        root,
        manifest,
        query,
        template,
        wasm_grammar,
    };
    assemble(found, current)
}

/// The places where a pack of a name is looked for, in order: the project,
/// the user's directories, the packs embedded in the binary.
pub open spec fn places_for(
    name: Seq<char>,
    project_root: Seq<char>,
    config_home: Option<Seq<char>>,
    home: Option<Seq<char>>,
) -> Seq<OriginView> {
    let project = seq![
        OriginView::Project(joined_path(joined_path(project_root, ".btt/packs"@), name)),
    ];
    let config = match config_home {
        Some(dir) => seq![OriginView::User(joined_path(joined_path(dir, "btt/packs"@), name))],
        None => Seq::empty(),
    };
    let legacy = match home {
        Some(dir) => seq![OriginView::User(joined_path(joined_path(dir, ".btt/packs"@), name))],
        None => Seq::empty(),
    };
    let embedded = if embedded_names().contains(name) {
        seq![OriginView::Builtin]
    } else {
        Seq::empty()
    };
    project + config + legacy + embedded
}

/// The places where a pack of a name is looked for, in order.
///
/// # Errors
///
/// A name that is not one plain path component.
pub fn search_places(
    name: &str,
    project_root: &str,
    config_home: Option<&str>,
    home: Option<&str>,
) -> (out: Result<Vec<Origin>, Error>)
    ensures
        match out {
            Ok(places) => is_plain_name(name@) && views(places@) == places_for(
                name@,
                project_root@,
                str_view(config_home),
                str_view(home),
            ),
            Err(e) => !is_plain_name(name@) && e@ == unsafe_name(name@),
        },
{
    if !is_safe_name(name) {
        return Err(
            Error::UnsafePath { pack: owned(name), field: owned("pack name"), value: owned(name) },
        );
    }
    let mut places: Vec<Origin> = Vec::new();
    places.push(
        Origin::Project(join_path(join_path(project_root, ".btt/packs").as_str(), name)),
    );
    if let Some(dir) = config_home {
        places.push(Origin::User(join_path(join_path(dir, "btt/packs").as_str(), name)));
    }
    if let Some(dir) = home {
        places.push(Origin::User(join_path(join_path(dir, ".btt/packs").as_str(), name)));
    }
    if is_among(&builtin_names(), name) {
        places.push(Origin::Builtin);
    }
    assert(views(places@) =~= places_for(
        name@,
        project_root@,
        str_view(config_home),
        str_view(home),
    ));
    Ok(places)
}

/// An optional text.
pub open spec fn str_view(s: Option<&str>) -> Option<Seq<char>> {
    match s {
        Some(s) => Some(s@),
        None => None,
    }
}

/// The error of a pack name that is not one plain path component.
pub open spec fn unsafe_name(name: Seq<char>) -> ErrorView {
    ErrorView::UnsafePath { pack: name, field: "pack name"@, value: name }
}

/// What a name resolves to, given what was found at the places of the
/// resolution order: the first place that holds a pack wins.
pub open spec fn loaded(
    name: Seq<char>,
    found: Seq<Option<PackSourceView>>,
    current: Seq<char>,
) -> Result<PackView, ErrorView>
    decreases found.len(),
{
    if !is_plain_name(name) {
        Err(unsafe_name(name))
    } else if found.len() == 0 {
        Err(ErrorView::PackNotFound { name, builtins: embedded_names() })
    } else {
        match found[0] {
            Some(source) => assembled(source, current),
            None => loaded(name, found.drop_first(), current),
        }
    }
}

/// What was found at places of the resolution order.
pub open spec fn source_views(found: Seq<Option<PackSource>>) -> Seq<Option<PackSourceView>> {
    found.map_values(
        |source: Option<PackSource>|
            match source {
                Some(source) => Some(source@),
                None => None,
            },
    )
}

/// Load a pack by name, given what was found at the places of the resolution
/// order ([`search_places`]), in their order.
///
/// # Errors
///
/// Returns [`Error::PackNotFound`] if no source provides the pack, or an
/// error describing the broken file if a pack exists but fails to load.
pub fn load(name: &str, found: Vec<Option<PackSource>>, current: &str) -> (out: Result<Pack, Error>)
    ensures
        match out {
            Ok(pack) => loaded(name@, source_views(found@), current@) == Ok::<PackView, ErrorView>(
                pack@,
            ),
            Err(e) => loaded(name@, source_views(found@), current@) == Err::<PackView, ErrorView>(
                e@,
            ),
        },
{
    if !is_safe_name(name) {
        return Err(
            Error::UnsafePath { pack: owned(name), field: owned("pack name"), value: owned(name) },
        );
    }
    let ghost all = source_views(found@);
    assert(all.skip(0) =~= all);
    for source in it: found
        invariant
            it.seq() == found@,
            all == source_views(found@),
            is_plain_name(name@),
            loaded(name@, all.skip(it.index() as int), current@) == loaded(name@, all, current@),
    {
        proof {
            let k = it.index() as int;
            assert(all.skip(k)[0] == all[k]);
            assert(all.skip(k).drop_first() =~= all.skip(k + 1));
        }
        if let Some(source) = source {
            return assemble(source, current);
        }
    }
    assert(all.skip(all.len() as int).len() == 0);
    Err(Error::PackNotFound { name: owned(name), builtins: builtin_names() })
}

/// Load a pack that is embedded in the binary, given its embedded files.
///
/// # Errors
///
/// Returns [`Error::PackNotFound`] if the binary does not embed the pack, or
/// an error describing its broken file.
pub fn load_builtin(name: &str, found: Option<PackSource>, current: &str) -> (out: Result<
    Pack,
    Error,
>)
    ensures
        match (out, found) {
            (Ok(pack), Some(source)) => assembled(source@, current@) == Ok::<PackView, ErrorView>(
                pack@,
            ),
            (Err(e), Some(source)) => assembled(source@, current@) == Err::<PackView, ErrorView>(
                e@,
            ),
            (Ok(_), None) => false,
            (Err(e), None) => e@ == (ErrorView::PackNotFound {
                name: name@,
                builtins: embedded_names(),
            }),
        },
{
    match found {
        Some(source) => assemble(source, current),
        None => Err(Error::PackNotFound { name: owned(name), builtins: builtin_names() }),
    }
}

/// The names of the packs that a project activates: those that its config
/// names, or the embedded ones where it names none.
pub open spec fn active(configured: Seq<Seq<char>>) -> Seq<Seq<char>> {
    if configured.len() == 0 {
        embedded_names()
    } else {
        configured
    }
}

/// The names of the packs that a project activates. Project and user packs
/// control what is parsed and how: presence in a directory is never
/// activation, the config must name them.
pub fn active_names(configured: &Vec<String>) -> (out: Vec<String>)
    ensures
        views(out@) == active(views(configured@)),
{
    assert(views(configured@).len() == configured@.len());
    if configured.len() == 0 {
        builtin_names()
    } else {
        let out = configured.clone();
        assert(views(out@) =~= views(configured@));
        out
    }
}

/// Found packs by name, with `entry` in its place; a name that is already
/// there stays as it is.
pub open spec fn insert_entry(
    entries: Seq<(Seq<char>, OriginView)>,
    entry: (Seq<char>, OriginView),
) -> Seq<(Seq<char>, OriginView)>
    decreases entries.len(),
{
    if entries.len() == 0 || text_less(entries.last().0, entry.0) {
        entries.push(entry)
    } else if entries.last().0 == entry.0 {
        entries
    } else {
        insert_entry(entries.drop_last(), entry).push(entries.last())
    }
}

/// Found packs by name, each name once, with its first origin.
pub open spec fn first_by_name(entries: Seq<(Seq<char>, OriginView)>) -> Seq<
    (Seq<char>, OriginView),
>
    decreases entries.len(),
{
    if entries.len() == 0 {
        Seq::empty()
    } else {
        insert_entry(first_by_name(entries.drop_last()), entries.last())
    }
}

/// The name and place of each pack directory; the name is that of the
/// directory.
pub open spec fn named(dirs: Seq<OriginView>) -> Seq<(Seq<char>, OriginView)>
    decreases dirs.len(),
{
    if dirs.len() == 0 {
        Seq::empty()
    } else {
        let before = named(dirs.drop_last());
        match file_name_of(origin_dir(dirs.last())) {
            Some(name) => before.push((name, dirs.last())),
            None => before,
        }
    }
}

/// The embedded packs, by name.
pub open spec fn embedded() -> Seq<(Seq<char>, OriginView)> {
    seq![("rust"@, OriginView::Builtin), ("typescript"@, OriginView::Builtin)]
}

/// All packs that are visible: those of the given directories, in resolution
/// order, and the embedded ones.
pub open spec fn visible(dirs: Seq<OriginView>) -> Seq<(Seq<char>, OriginView)> {
    named(dirs) + embedded()
}

/// Entries by their models.
pub open spec fn entry_views(entries: Seq<(String, Origin)>) -> Seq<(Seq<char>, OriginView)> {
    entries.map_values(|entry: (String, Origin)| (entry.0@, entry.1@))
}

fn put_entry(entries: &mut Vec<(String, Origin)>, name: String, origin: Origin)
    ensures
        entry_views(final(entries)@) == insert_entry(entry_views(old(entries)@), (name@, origin@)),
{
    let ghost before = entry_views(entries@);
    let ghost entry = (name@, origin@);
    let mut at: usize = entries.len();
    assert(before.take(at as int) =~= before);
    assert(insert_entry(before, entry) + before.skip(at as int) =~= insert_entry(before, entry));
    while at > 0 && !less(entries[at - 1].0.as_str(), name.as_str())
        invariant
            at <= entries@.len(),
            before == entry_views(entries@),
            entry == (name@, origin@),
            insert_entry(before, entry) == insert_entry(before.take(at as int), entry)
                + before.skip(at as int),
        decreases at,
    {
        let ghost head = before.take(at as int);
        assert(head.last() == (entries@[at - 1].0@, entries@[at - 1].1@));
        if same(entries[at - 1].0.as_str(), name.as_str()) {
            assert(head + before.skip(at as int) =~= before);
            return;
        }
        proof {
            assert(head.drop_last() =~= before.take(at - 1));
            assert(insert_entry(head.drop_last(), entry).push(head.last()) + before.skip(at as int)
                =~= insert_entry(before.take(at - 1), entry) + before.skip(at - 1));
        }
        at -= 1;
    }
    proof {
        if at > 0 {
            assert(before.take(at as int).last() == (entries@[at - 1].0@, entries@[at - 1].1@));
        }
    }
    entries.insert(at, (name, origin));
    assert(entry_views(entries@) =~= before.take(at as int).push(entry) + before.skip(at as int));
}

/// Names of all packs visible from a project, with their winning origin,
/// sorted by name. `dirs` are the pack directories of the project and of the
/// user that hold a manifest, in resolution order.
#[must_use]
pub fn available(dirs: Vec<Origin>) -> (out: Vec<(String, Origin)>)
    ensures
        entry_views(out@) == first_by_name(visible(views(dirs@))),
{
    let mut out: Vec<(String, Origin)> = Vec::new();
    let ghost all = views(dirs@);
    assert(all.take(0) =~= Seq::empty());
    assert(entry_views(out@) =~= Seq::empty());
    for origin in it: dirs
        invariant
            it.seq() == dirs@,
            all == views(dirs@),
            entry_views(out@) == first_by_name(named(all.take(it.index() as int))),
    {
        let ghost k = it.index() as int;
        proof {
            assert(all.take(k + 1).drop_last() =~= all.take(k));
            assert(all.take(k + 1).last() == origin@);
            let before = named(all.take(k));
            assert(before.push((Seq::empty(), origin@)).drop_last() =~= before);
        }
        let name = match &origin {
            Origin::Builtin => file_name(""),
            Origin::User(dir) => file_name(dir.as_str()),
            Origin::Project(dir) => file_name(dir.as_str()),
        };
        proof {
            reveal_strlit("");
            assert(""@ =~= Seq::<char>::empty());
        }
        if let Some(name) = name {
            proof {
                let before = named(all.take(k));
                let entry = (name@, origin@);
                assert(before.push(entry).drop_last() =~= before);
            }
            put_entry(&mut out, name, origin);
        }
    }
    assert(all.take(all.len() as int) =~= all);
    proof {
        let found = named(all);
        let one = found.push(("rust"@, OriginView::Builtin));
        assert(one.drop_last() =~= found);
        let two = one.push(("typescript"@, OriginView::Builtin));
        assert(two.drop_last() =~= one);
        assert(visible(all) =~= two);
        reveal_with_fuel(first_by_name, 3);
    }
    put_entry(&mut out, owned("rust"), Origin::Builtin);
    put_entry(&mut out, owned("typescript"), Origin::Builtin);
    out
}

/// The first origin listed for a name.
pub open spec fn origin_in(entries: Seq<(Seq<char>, OriginView)>, name: Seq<char>) -> Option<
    OriginView,
>
    decreases entries.len(),
{
    if entries.len() == 0 {
        None
    } else {
        match origin_in(entries.drop_last(), name) {
            Some(origin) => Some(origin),
            None => if entries.last().0 == name {
                Some(entries.last().1)
            } else {
                None
            },
        }
    }
}

/// Whether entries stand in ascending order of their names, each name once.
pub open spec fn by_name(entries: Seq<(Seq<char>, OriginView)>) -> bool {
    forall|i: int, j: int|
        0 <= i < j < entries.len() ==> text_less(
            (#[trigger] entries[i]).0,
            (#[trigger] entries[j]).0,
        )
}

proof fn lemma_origin_listed(entries: Seq<(Seq<char>, OriginView)>, name: Seq<char>)
    ensures
        origin_in(entries, name) is Some ==> exists|i: int|
            0 <= i < entries.len() && (#[trigger] entries[i]).0 == name,
    decreases entries.len(),
{
    if entries.len() > 0 {
        lemma_origin_listed(entries.drop_last(), name);
        if origin_in(entries.drop_last(), name) is Some {
            let i = choose|i: int|
                0 <= i < entries.len() - 1 && (#[trigger] entries.drop_last()[i]).0 == name;
            assert(entries[i].0 == name);
        } else if entries.last().0 == name {
            assert(entries[entries.len() - 1].0 == name);
        }
    }
}

proof fn lemma_insert_entry(entries: Seq<(Seq<char>, OriginView)>, entry: (Seq<char>, OriginView))
    requires
        by_name(entries),
    ensures
        by_name(insert_entry(entries, entry)),
        forall|i: int|
            0 <= i < insert_entry(entries, entry).len() ==> (#[trigger] insert_entry(
                entries,
                entry,
            )[i]) == entry || entries.contains(insert_entry(entries, entry)[i]),
        forall|name: Seq<char>| #[trigger]
            origin_in(insert_entry(entries, entry), name) == if origin_in(entries, name) is None
                && name == entry.0 {
                Some(entry.1)
            } else {
                origin_in(entries, name)
            },
    decreases entries.len(),
{
    let out = insert_entry(entries, entry);
    if entries.len() == 0 || text_less(entries.last().0, entry.0) {
        assert(out.drop_last() =~= entries);
        assert forall|i: int, j: int| 0 <= i < j < out.len() implies text_less(
            (#[trigger] out[i]).0,
            (#[trigger] out[j]).0,
        ) by {
            if j == entries.len() && i < entries.len() - 1 {
                assert(text_less(entries[i].0, entries[entries.len() - 1].0));
                lemma_less_transitive(entries[i].0, entries.last().0, entry.0);
            }
        }
        assert forall|i: int| 0 <= i < out.len() implies (#[trigger] out[i]) == entry
            || entries.contains(out[i]) by {
            if i < entries.len() {
                assert(entries[i] == out[i]);
            }
        }
    } else if entries.last().0 == entry.0 {
        assert(origin_in(entries, entry.0) is Some);
        assert forall|i: int| 0 <= i < out.len() implies (#[trigger] out[i]) == entry
            || entries.contains(out[i]) by {
            assert(entries[i] == out[i]);
        }
    } else {
        let front = entries.drop_last();
        let last = entries.last();
        assert(by_name(front));
        lemma_insert_entry(front, entry);
        let inner = insert_entry(front, entry);
        assert(out.drop_last() =~= inner);
        lemma_less_total(last.0, entry.0);
        assert forall|i: int, j: int| 0 <= i < j < out.len() implies text_less(
            (#[trigger] out[i]).0,
            (#[trigger] out[j]).0,
        ) by {
            if j == inner.len() {
                if inner[i] != entry {
                    let k = choose|k: int| 0 <= k < front.len() && front[k] == inner[i];
                    assert(text_less(entries[k].0, entries[entries.len() - 1].0));
                }
            } else {
                assert(text_less(inner[i].0, inner[j].0));
            }
        }
        assert forall|i: int| 0 <= i < out.len() implies (#[trigger] out[i]) == entry
            || entries.contains(out[i]) by {
            if i < inner.len() {
                if inner[i] != entry {
                    let k = choose|k: int| 0 <= k < front.len() && front[k] == inner[i];
                    assert(entries[k] == out[i]);
                }
            } else {
                assert(entries[entries.len() - 1] == out[i]);
            }
        }
        assert forall|name: Seq<char>| #[trigger] origin_in(out, name) == if origin_in(
            entries,
            name,
        ) is None && name == entry.0 {
            Some(entry.1)
        } else {
            origin_in(entries, name)
        } by {
            assert(origin_in(inner, name) == if origin_in(front, name) is None && name == entry.0 {
                Some(entry.1)
            } else {
                origin_in(front, name)
            });
        }
    }
}

/// The listing of packs is in ascending order of names and has each name
/// once, and a name has the origin that comes first in resolution order: a
/// higher entry shadows a lower one with the same name.
pub proof fn law_first_origin_wins(entries: Seq<(Seq<char>, OriginView)>, name: Seq<char>)
    ensures
        by_name(first_by_name(entries)),
        origin_in(first_by_name(entries), name) == origin_in(entries, name),
    decreases entries.len(),
{
    if entries.len() > 0 {
        law_first_origin_wins(entries.drop_last(), name);
        lemma_insert_entry(first_by_name(entries.drop_last()), entries.last());
    }
}

/// The symbol that a pack's WASM grammar exports: the manifest's, or the
/// pack's name.
pub open spec fn symbol_of(m: ManifestView) -> Seq<char> {
    match m.symbol {
        Some(symbol) => symbol,
        None => m.name,
    }
}

/// The first pack that ships a WASM grammar under a symbol.
pub open spec fn first_claim(packs: Seq<PackView>, symbol: Seq<char>) -> Option<PackView>
    decreases packs.len(),
{
    if packs.len() == 0 {
        None
    } else {
        match first_claim(packs.drop_last(), symbol) {
            Some(pack) => Some(pack),
            None => if packs.last().wasm_grammar is Some && symbol_of(packs.last().manifest)
                == symbol {
                Some(packs.last())
            } else {
                None
            },
        }
    }
}

/// The first pack that ships another WASM grammar under a symbol than the
/// pack that claimed it first.
pub open spec fn collision(packs: Seq<PackView>) -> Option<ErrorView>
    decreases packs.len(),
{
    if packs.len() == 0 {
        None
    } else {
        let last = packs.last();
        let symbol = symbol_of(last.manifest);
        let claim = first_claim(packs.drop_last(), symbol);
        if collision(packs.drop_last()) is Some {
            collision(packs.drop_last())
        } else if last.wasm_grammar is Some && claim is Some && (claim->0).wasm_grammar
            != last.wasm_grammar {
            Some(
                ErrorView::GrammarSymbolCollision {
                    symbol,
                    first: (claim->0).manifest.name,
                    second: last.manifest.name,
                },
            )
        } else {
            None
        }
    }
}

proof fn lemma_collision_stays(packs: Seq<PackView>, n: int)
    requires
        0 <= n <= packs.len(),
        collision(packs.take(n)) is Some,
    ensures
        collision(packs) == collision(packs.take(n)),
    decreases packs.len() - n,
{
    if n < packs.len() {
        assert(packs.take(n + 1).drop_last() =~= packs.take(n));
        lemma_collision_stays(packs, n + 1);
    } else {
        assert(packs.take(n) =~= packs);
    }
}

proof fn lemma_claim_stays(packs: Seq<PackView>, symbol: Seq<char>, n: int)
    requires
        0 <= n <= packs.len(),
        first_claim(packs.take(n), symbol) is Some,
    ensures
        first_claim(packs, symbol) == first_claim(packs.take(n), symbol),
    decreases packs.len() - n,
{
    if n < packs.len() {
        assert(packs.take(n + 1).drop_last() =~= packs.take(n));
        lemma_claim_stays(packs, symbol, n + 1);
    } else {
        assert(packs.take(n) =~= packs);
    }
}

/// The symbol that a manifest's WASM grammar exports.
fn symbol_for(manifest: &Manifest) -> (out: &str)
    ensures
        out@ == symbol_of(manifest@),
{
    match &manifest.grammar.symbol {
        Some(symbol) => symbol.as_str(),
        None => manifest.pack.name.as_str(),
    }
}

fn find_claim<'a>(packs: &'a Vec<Pack>, to: usize, symbol: &str) -> (out: Option<&'a Pack>)
    requires
        to <= packs@.len(),
    ensures
        match out {
            Some(pack) => first_claim(views(packs@).take(to as int), symbol@) == Some(pack@),
            None => first_claim(views(packs@).take(to as int), symbol@) is None,
        },
{
    let ghost all = views(packs@).take(to as int);
    let mut i: usize = 0;
    assert(all.take(0) =~= Seq::empty());
    while i < to
        invariant
            i <= to <= packs@.len(),
            all == views(packs@).take(to as int),
            first_claim(all.take(i as int), symbol@) is None,
        decreases to - i,
    {
        assert(all.take(i + 1).drop_last() =~= all.take(i as int));
        assert(all.take(i + 1).last() == packs@[i as int]@);
        if packs[i].wasm_grammar.is_some() && same(symbol_for(&packs[i].manifest), symbol) {
            proof {
                lemma_claim_stays(all, symbol@, i + 1);
            }
            return Some(&packs[i]);
        }
        i += 1;
    }
    assert(all.take(i as int) =~= all);
    None
}

/// Whether two byte sequences are the same.
fn same_bytes(a: &[u8], b: &[u8]) -> (yes: bool)
    ensures
        yes == (a@ == b@),
{
    if a.len() != b.len() {
        return false;
    }
    let mut i: usize = 0;
    while i < a.len()
        invariant
            i <= a@.len(),
            a@.len() == b@.len(),
            forall|j: int| 0 <= j < i ==> a@[j] == b@[j],
        decreases a@.len() - i,
    {
        if a[i] != b[i] {
            return false;
        }
        i += 1;
    }
    assert(a@ =~= b@);
    true
}

/// Check that no two packs ship different WASM grammars under one symbol.
///
/// # Errors
///
/// The first pack that collides with the one that claimed its symbol first.
pub fn validate_set(packs: &Vec<Pack>) -> (out: Result<(), Error>)
    ensures
        match out {
            Ok(_) => collision(views(packs@)) is None,
            Err(e) => collision(views(packs@)) == Some(e@),
        },
{
    let ghost all = views(packs@);
    let mut i: usize = 0;
    assert(all.take(0) =~= Seq::empty());
    while i < packs.len()
        invariant
            i <= packs@.len(),
            all == views(packs@),
            collision(all.take(i as int)) is None,
        decreases packs@.len() - i,
    {
        assert(all.take(i + 1).drop_last() =~= all.take(i as int));
        assert(all.take(i + 1).last() == packs@[i as int]@);
        let pack = &packs[i];
        if let Some(bytes) = &pack.wasm_grammar {
            let symbol = symbol_for(&pack.manifest);
            if let Some(claim) = find_claim(packs, i, symbol) {
                let agrees = match &claim.wasm_grammar {
                    Some(claimed) => same_bytes(claimed.as_slice(), bytes.as_slice()),
                    None => false,
                };
                if !agrees {
                    proof {
                        lemma_collision_stays(all, i + 1);
                    }
                    return Err(
                        Error::GrammarSymbolCollision {
                            symbol: owned(symbol),
                            first: claim.manifest.pack.name.clone(),
                            second: pack.manifest.pack.name.clone(),
                        },
                    );
                }
            }
        }
        i += 1;
    }
    assert(all.take(i as int) =~= all);
    Ok(())
}

/// In a set of packs without a collision, the packs that ship a WASM grammar
/// under one symbol ship the same grammar.
pub proof fn law_one_grammar_for_a_symbol(packs: Seq<PackView>, i: int, j: int)
    requires
        collision(packs) is None,
        0 <= i < packs.len(),
        0 <= j < packs.len(),
        packs[i].wasm_grammar is Some,
        packs[j].wasm_grammar is Some,
        symbol_of(packs[i].manifest) == symbol_of(packs[j].manifest),
    ensures
        packs[i].wasm_grammar == packs[j].wasm_grammar,
{
    lemma_claimed(packs, i);
    lemma_claimed(packs, j);
}

proof fn lemma_claimed(packs: Seq<PackView>, i: int)
    requires
        collision(packs) is None,
        0 <= i < packs.len(),
        packs[i].wasm_grammar is Some,
    ensures
        first_claim(packs, symbol_of(packs[i].manifest)) matches Some(claim) && claim.wasm_grammar
            == packs[i].wasm_grammar,
    decreases packs.len(),
{
    let front = packs.drop_last();
    if i < front.len() {
        assert(front[i] == packs[i]);
        lemma_claimed(front, i);
    } else {
        assert(packs[i] == packs.last());
    }
}

/// A grammar compiled into this binary.
#[derive(Debug, Clone, Copy, PartialEq, Eq, Structural)]
pub enum NativeGrammar {
    /// Rust.
    Rust,
    /// TypeScript.
    TypeScript,
    /// TypeScript with JSX.
    Tsx,
}

/// A pack's grammar, resolved for a specific target file.
#[derive(Debug)]
pub enum Grammar<'a> {
    /// A grammar compiled into this binary.
    Native(NativeGrammar),
    /// A sandboxed WASM grammar shipped by the pack.
    Wasm {
        /// The language symbol the module exports (`tree_sitter_<symbol>`).
        symbol: &'a str,
        /// The compiled grammar module.
        bytes: &'a [u8],
    },
}

/// The model of a [`Grammar`].
pub enum GrammarView {
    Native(NativeGrammar),
    Wasm { symbol: Seq<char>, bytes: Seq<u8> },
}

impl<'a> View for Grammar<'a> {
    type V = GrammarView;

    open spec fn view(&self) -> GrammarView {
        match *self {
            Grammar::Native(grammar) => GrammarView::Native(grammar),
            Grammar::Wasm { symbol, bytes } => GrammarView::Wasm {
                symbol: symbol@,
                bytes: bytes@,
            },
        }
    }
}

/// The grammar that a pack parses a target with.
pub open spec fn grammar_of(pack: PackView, target: Seq<char>) -> Result<GrammarView, ErrorView> {
    let unknown = |name: Seq<char>| ErrorView::UnknownGrammar { pack: pack.manifest.name, name };
    match pack.manifest.source {
        GrammarSourceView::Wasm(file) => match pack.wasm_grammar {
            Some(bytes) => Ok(GrammarView::Wasm { symbol: symbol_of(pack.manifest), bytes }),
            None => Err(ErrorView::PackFile { pack: pack.manifest.name, file }),
        },
        GrammarSourceView::Lexical => Err(unknown("lexical"@)),
        GrammarSourceView::Builtin(name) => if name == "rust"@ {
            Ok(GrammarView::Native(NativeGrammar::Rust))
        } else if name == "typescript"@ {
            if extension_of(target) == Some("tsx"@) || extension_of(target) == Some("jsx"@) {
                Ok(GrammarView::Native(NativeGrammar::Tsx))
            } else {
                Ok(GrammarView::Native(NativeGrammar::TypeScript))
            }
        } else {
            Err(unknown(name))
        },
    }
}

/// Resolve the grammar for a pack + target file.
///
/// # Errors
///
/// Fails if the pack references an unknown builtin grammar or ships a
/// `wasm:` grammar whose file was not loaded.
pub fn grammar_for<'a>(pack: &'a Pack, target: &str) -> (out: Result<Grammar<'a>, Error>)
    ensures
        match out {
            Ok(grammar) => grammar_of(pack@, target@) == Ok::<GrammarView, ErrorView>(grammar@),
            Err(e) => grammar_of(pack@, target@) == Err::<GrammarView, ErrorView>(e@),
        },
{
    let name = pack.manifest.pack.name.clone();
    match &pack.manifest.grammar.source {
        GrammarSource::Wasm(file) => match &pack.wasm_grammar {
            Some(bytes) => Ok(
                Grammar::Wasm { symbol: symbol_for(&pack.manifest), bytes: bytes.as_slice() },
            ),
            None => Err(Error::PackFile { pack: name, file: file.clone() }),
        },
        GrammarSource::Lexical => Err(
            Error::UnknownGrammar { pack: name, name: owned("lexical") },
        ),
        GrammarSource::Builtin(builtin) => {
            if same(builtin.as_str(), "rust") {
                Ok(Grammar::Native(NativeGrammar::Rust))
            } else if same(builtin.as_str(), "typescript") {
                let jsx = match extension(target) {
                    Some(ext) => same(ext.as_str(), "tsx") || same(ext.as_str(), "jsx"),
                    None => false,
                };
                if jsx {
                    Ok(Grammar::Native(NativeGrammar::Tsx))
                } else {
                    Ok(Grammar::Native(NativeGrammar::TypeScript))
                }
            } else {
                Err(Error::UnknownGrammar { pack: name, name: builtin.clone() })
            }
        },
    }
}

/// A manifest is accepted exactly where its format is the supported one, its
/// versions are well formed and allow the running one, every file that it names
/// lies in the pack, every target pattern has one stem and no directory, and it
/// has the sections that its grammar needs and no others.
pub proof fn law_manifests_are_accepted(m: ManifestView, current: Seq<char>)
    ensures
        manifest_fault(m, current) is None <==> {
            &&& m.format == 1
            &&& version_fault(m.version) is None
            &&& requirement_fault(m.btt) is None
            &&& version_fault(current) is None
            &&& requirement_allows(m.btt, current)
            &&& m.query matches Some(file) ==> is_confined(file)
            &&& is_confined(m.template)
            &&& is_confined(m.output)
            &&& m.source matches GrammarSourceView::Wasm(file) ==> is_confined(file)
            &&& forall|i: int|
                0 <= i < m.targets.len() ==> is_target_pattern(#[trigger] m.targets[i])
            &&& m.source is Lexical ==> m.lexical is Some && m.query is None
                && !m.test_requires_marker
            &&& !(m.source is Lexical) ==> m.query is Some
            &&& m.lexical matches Some(profile) ==> profile_fault(profile, m.aliases) is None
        },
{
    lemma_targets(m.targets);
}

proof fn lemma_targets(targets: Seq<Seq<char>>)
    ensures
        bad_target(targets) is None <==> forall|i: int|
            0 <= i < targets.len() ==> is_target_pattern(#[trigger] targets[i]),
    decreases targets.len(),
{
    if targets.len() > 0 {
        let front = targets.drop_last();
        lemma_targets(front);
        assert(targets[targets.len() - 1] == targets.last());
        assert(forall|i: int| 0 <= i < front.len() ==> #[trigger] front[i] == targets[i]);
        if forall|i: int| 0 <= i < front.len() ==> is_target_pattern(#[trigger] front[i]) {
            assert forall|i: int| 0 <= i < front.len() implies is_target_pattern(
                #[trigger] targets[i],
            ) by {
                assert(front[i] == targets[i]);
            }
        }
    }
}

/// A target pattern has the placeholder once and names no directory.
pub proof fn law_target_patterns_have_one_stem(before: Seq<char>, after: Seq<char>)
    requires
        cut_once(before + "{stem}"@ + after, "{stem}"@) == Some((before, after)),
    ensures
        is_target_pattern(before + "{stem}"@ + after) <==> !has_part(after, "{stem}"@) && !has_part(
            before + "{stem}"@ + after,
            "/"@,
        ) && !has_part(before + "{stem}"@ + after, "\\"@),
{
}

/// A text names a grammar that is compiled in, one that the pack ships, or
/// none; any other text names nothing.
pub proof fn law_grammar_sources_are_named(name: Seq<char>)
    ensures
        grammar_source_of("builtin:"@ + name) == Some(GrammarSourceView::Builtin(name)),
        grammar_source_of("wasm:"@ + name) == Some(GrammarSourceView::Wasm(name)),
        grammar_source_of("lexical"@) == Some(GrammarSourceView::Lexical),
        grammar_source_of(name) is Some ==> "builtin:"@.is_prefix_of(name) || "wasm:"@.is_prefix_of(
            name,
        ) || name == "lexical"@,
{
    reveal_strlit("builtin:");
    reveal_strlit("wasm:");
    reveal_strlit("lexical");
    let a = "builtin:"@ + name;
    assert(a.take(8) =~= "builtin:"@);
    assert(a.skip(8) =~= name);
    let b = "wasm:"@ + name;
    assert(b.take(5) =~= "wasm:"@);
    assert(b.skip(5) =~= name);
    assert(b[0] == 'w');
    assert(!"builtin:"@.is_prefix_of(b)) by {
        if "builtin:"@.is_prefix_of(b) {
            assert(b.take(8)[0] == b[0]);
        }
    }
    let c = "lexical"@;
    assert(!"builtin:"@.is_prefix_of(c));
    assert(!"wasm:"@.is_prefix_of(c)) by {
        if "wasm:"@.is_prefix_of(c) {
            assert(c.take(5)[0] == c[0]);
        }
    }
}

/// A pack is taken from the first place that has it; a name that is no plain
/// name is refused whatever is there, and where no place has it, it is not
/// found.
pub proof fn law_the_first_place_with_the_pack_counts(
    name: Seq<char>,
    found: Seq<Option<PackSourceView>>,
    current: Seq<char>,
    k: int,
)
    requires
        0 <= k <= found.len(),
        forall|j: int| 0 <= j < k ==> #[trigger] found[j] is None,
    ensures
        !is_plain_name(name) ==> loaded(name, found, current) == Err::<PackView, ErrorView>(
            ErrorView::UnsafePath { pack: name, field: "pack name"@, value: name },
        ),
        is_plain_name(name) && k == found.len() ==> loaded(name, found, current) == Err::<
            PackView,
            ErrorView,
        >(ErrorView::PackNotFound { name, builtins: embedded_names() }),
        is_plain_name(name) && k < found.len() && found[k] is Some ==> loaded(name, found, current)
            == assembled(found[k]->0, current),
    decreases found.len(),
{
    if found.len() > 0 && k > 0 {
        let rest = found.drop_first();
        assert(found[0] is None);
        assert forall|j: int| 0 <= j < k - 1 implies #[trigger] rest[j] is None by {
            assert(rest[j] == found[j + 1]);
        }
        law_the_first_place_with_the_pack_counts(name, rest, current, k - 1);
        if k < found.len() {
            assert(rest[k - 1] == found[k]);
        }
    }
}

/// A pack is looked for in the project first, then in the directories of the
/// user, and then among those that are compiled in.
pub proof fn law_projects_come_before_users(
    name: Seq<char>,
    project_root: Seq<char>,
    config_home: Seq<char>,
    home: Seq<char>,
)
    ensures
        ({
            let places = places_for(name, project_root, Some(config_home), Some(home));
            &&& places.len() == if name == "rust"@ || name == "typescript"@ {
                4int
            } else {
                3
            }
            &&& places[0] == OriginView::Project(
                joined_path(joined_path(project_root, ".btt/packs"@), name),
            )
            &&& places[1] == OriginView::User(
                joined_path(joined_path(config_home, "btt/packs"@), name),
            )
            &&& places[2] == OriginView::User(joined_path(joined_path(home, ".btt/packs"@), name))
            &&& name == "rust"@ || name == "typescript"@ ==> places[3] == OriginView::Builtin
        }),
        places_for(name, project_root, None, None).len() == if name == "rust"@ || name
            == "typescript"@ {
            2int
        } else {
            1
        },
{
    let names = embedded_names();
    assert(names[0] == "rust"@ && names[1] == "typescript"@);
    assert(names.contains(name) <==> name == "rust"@ || name == "typescript"@) by {
        if name == "rust"@ {
            assert(names[0] == name);
        }
        if name == "typescript"@ {
            assert(names[1] == name);
        }
    }
}

/// What a pack names is read from within the pack alone: a file of it that
/// resolves elsewhere is refused.
pub proof fn law_pack_files_lie_in_the_pack(
    pack: Seq<char>,
    origin: OriginView,
    root: Seq<char>,
    field: Seq<char>,
    file: Seq<char>,
    place: Seq<char>,
    text: Seq<char>,
)
    requires
        !(origin is Builtin),
    ensures
        file_text(pack, origin, root, field, file, FileReadView::Text { place, text })
            == if is_within(place, root) {
            Ok::<Seq<char>, ErrorView>(text)
        } else {
            Err::<Seq<char>, ErrorView>(ErrorView::UnsafePath { pack, field, value: file })
        },
        file_text(
            pack,
            OriginView::Builtin,
            root,
            field,
            file,
            FileReadView::Text { place, text },
        ) == Ok::<Seq<char>, ErrorView>(text),
{
}

/// The grammar of a target: that of the pack's name for it, with the variant
/// for embedded markup where the file is of such a kind; a grammar that the
/// pack ships goes by its symbol, or by the pack's name where it has none.
pub proof fn law_grammars_follow_the_manifest(pack: PackView, target: Seq<char>, name: Seq<char>)
    ensures
        pack.manifest.source == GrammarSourceView::Builtin("rust"@) ==> grammar_of(pack, target)
            == Ok::<GrammarView, ErrorView>(GrammarView::Native(NativeGrammar::Rust)),
        pack.manifest.source == GrammarSourceView::Builtin("typescript"@) && (extension_of(target)
            == Some("tsx"@) || extension_of(target) == Some("jsx"@)) ==> grammar_of(pack, target)
            == Ok::<GrammarView, ErrorView>(GrammarView::Native(NativeGrammar::Tsx)),
        pack.manifest.source == GrammarSourceView::Builtin("typescript"@) && extension_of(target)
            != Some("tsx"@) && extension_of(target) != Some("jsx"@) ==> grammar_of(pack, target)
            == Ok::<GrammarView, ErrorView>(GrammarView::Native(NativeGrammar::TypeScript)),
        pack.manifest.source == GrammarSourceView::Builtin(name) && name != "rust"@ && name
            != "typescript"@ ==> grammar_of(pack, target) is Err,
        pack.manifest.source is Wasm && pack.wasm_grammar is Some ==> grammar_of(pack, target)
            == Ok::<GrammarView, ErrorView>(
            GrammarView::Wasm {
                symbol: match pack.manifest.symbol {
                    Some(symbol) => symbol,
                    None => pack.manifest.name,
                },
                bytes: pack.wasm_grammar->0,
            },
        ),
{
    reveal_strlit("rust");
    reveal_strlit("typescript");
    assert("rust"@.len() != "typescript"@.len());
}

/// Packs that ship the same grammar wherever they ship one under the same
/// symbol do not collide.
pub proof fn law_shared_grammars_do_not_collide(packs: Seq<PackView>)
    requires
        forall|i: int, j: int|
            0 <= i < packs.len() && 0 <= j < packs.len() && (#[trigger] packs[i]).wasm_grammar
                is Some && (#[trigger] packs[j]).wasm_grammar is Some && symbol_of(
                packs[i].manifest,
            ) == symbol_of(packs[j].manifest) ==> packs[i].wasm_grammar == packs[j].wasm_grammar,
    ensures
        collision(packs) is None,
    decreases packs.len(),
{
    if packs.len() > 0 {
        let front = packs.drop_last();
        assert forall|i: int, j: int|
            0 <= i < front.len() && 0 <= j < front.len() && (#[trigger] front[i]).wasm_grammar
                is Some && (#[trigger] front[j]).wasm_grammar is Some && symbol_of(
                front[i].manifest,
            ) == symbol_of(
                front[j].manifest,
            ) implies front[i].wasm_grammar == front[j].wasm_grammar by {
            assert(front[i] == packs[i] && front[j] == packs[j]);
        }
        law_shared_grammars_do_not_collide(front);
        let symbol = symbol_of(packs.last().manifest);
        lemma_claim(front, symbol);
        if let Some(claim) = first_claim(front, symbol) {
            let k = choose|k: int|
                0 <= k < front.len() && front[k] == claim && claim.wasm_grammar is Some
                    && symbol_of(claim.manifest) == symbol;
            assert(packs[k] == claim);
            assert(packs[packs.len() - 1] == packs.last());
        }
    }
}

proof fn lemma_claim(packs: Seq<PackView>, symbol: Seq<char>)
    ensures
        first_claim(packs, symbol) matches Some(claim) ==> exists|k: int|
            0 <= k < packs.len() && packs[k] == claim && claim.wasm_grammar is Some && symbol_of(
                claim.manifest,
            ) == symbol,
    decreases packs.len(),
{
    if packs.len() > 0 {
        let front = packs.drop_last();
        lemma_claim(front, symbol);
        if let Some(claim) = first_claim(front, symbol) {
            let k = choose|k: int|
                0 <= k < front.len() && front[k] == claim && claim.wasm_grammar is Some
                    && symbol_of(claim.manifest) == symbol;
            assert(packs[k] == claim);
        } else {
            assert(packs[packs.len() - 1] == packs.last());
        }
    }
}

/// A project that names packs has those active, in its order; one that names
/// none has those that are compiled in.
pub proof fn law_named_packs_are_active(configured: Seq<Seq<char>>)
    ensures
        configured.len() > 0 ==> active(configured) == configured,
        configured.len() == 0 ==> active(configured) == seq!["rust"@, "typescript"@],
{
}

/// The packs that can be seen are the directories of packs, each under its own
/// name and in the order in which they are looked through, and then those that
/// are compiled in.
pub proof fn law_visible_packs_come_in_resolution_order(
    dirs: Seq<OriginView>,
    origin: OriginView,
    name: Seq<char>,
)
    requires
        file_name_of(origin_dir(origin)) == Some(name),
    ensures
        named(Seq::empty()) == Seq::<(Seq<char>, OriginView)>::empty(),
        named(dirs.push(origin)) == named(dirs).push((name, origin)),
        visible(dirs) == named(dirs) + seq![
            ("rust"@, OriginView::Builtin),
            ("typescript"@, OriginView::Builtin),
        ],
{
    assert(dirs.push(origin).drop_last() =~= dirs);
}

/// A pack is put together from its manifest and the texts that it names; it is
/// refused where its manifest is, or where a text cannot be read.
pub proof fn law_packs_are_put_together(
    source: PackSourceView,
    current: Seq<char>,
    pack: PackView,
)
    requires
        assembled(source, current) == Ok::<PackView, ErrorView>(pack),
    ensures
        manifest_fault(source.manifest, current) is None,
        pack.manifest == source.manifest,
        pack.origin == source.origin,
        source.manifest.query is None ==> pack.query == Seq::<char>::empty(),
        source.manifest.query is Some ==> (source.query matches FileReadView::Text { text, .. }
            && pack.query == text),
        source.template matches FileReadView::Text { text, .. } && pack.template == text,
        pack.wasm_grammar is Some ==> source.manifest.source is Wasm && (
        source.wasm_grammar matches Some((place, bytes)) && pack.wasm_grammar == Some(bytes) && (
        source.origin is Builtin || is_within(place, source.root))),
        source.manifest.source is Wasm && source.wasm_grammar is Some ==> pack.wasm_grammar is Some,
{
}

} // verus!
