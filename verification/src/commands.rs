//! The decisions of the command line: which pack a scaffold uses and where it
//! goes, which parts of a project a check covers, and what is said.

use vstd::prelude::*;
use crate::check::expected_from_spec;
use crate::error::Error;
use crate::pack::{Origin, Pack};
use crate::paths::{components, file_stem, join_path, ordered_paths, same_path, starts_with_path, Component};
use crate::runner::count_tests;
use crate::scaffold::{merge, render};
use crate::text::{concat2, concat3, count_text, join, owned, replace, same};
use crate::tree::parse;

verus! {

use crate::check::expected_of;
use crate::config::tree_dir_of;
use crate::error::{message_of, ErrorView};
use crate::pack::{origin_label, str_view, OriginView, PackView};
use crate::paths::{components_of, file_stem_of, is_within, joined_path, path_set, Part};
use crate::runner::capped;
use crate::scaffold::{merged, rendered, test_count};
use crate::text::{decimal_of, joined, opt_view, replaced, views};
use crate::tree::parsed;

broadcast use vstd::string::group_string_axioms;

/// The pack that a scaffold uses.
#[derive(Debug)]
pub enum PackChoice {
    /// The pack that resolution finds for a name.
    Resolved(String),
    /// A pack embedded in the binary.
    Embedded(String),
}

/// The model of a [`PackChoice`].
pub enum PackChoiceView {
    Resolved(Seq<char>),
    Embedded(Seq<char>),
}

impl View for PackChoice {
    type V = PackChoiceView;

    open spec fn view(&self) -> PackChoiceView {
        match *self {
            PackChoice::Resolved(name) => PackChoiceView::Resolved(name@),
            PackChoice::Embedded(name) => PackChoiceView::Embedded(name@),
        }
    }
}

/// What is said where several packs could be meant.
pub open spec fn ambiguous(kind: Seq<char>, names: Seq<Seq<char>>) -> Seq<char> {
    "multiple packs "@ + kind + " ("@ + joined(names, ", "@) + "); pick one with --pack"@
}

/// The pack that a scaffold uses: the one that was asked for, or the only one
/// there is — of the embedded packs where the project configures none.
pub open spec fn pack_choice(
    requested: Option<Seq<char>>,
    configured: Seq<Seq<char>>,
    embedded: Seq<Seq<char>>,
) -> Result<PackChoiceView, Seq<char>> {
    match requested {
        Some(name) => Ok(PackChoiceView::Resolved(name)),
        None => if configured.len() == 0 {
            if embedded.len() == 1 {
                Ok(PackChoiceView::Embedded(embedded[0]))
            } else {
                Err(ambiguous("available"@, embedded))
            }
        } else if configured.len() == 1 {
            Ok(PackChoiceView::Resolved(configured[0]))
        } else {
            Err(ambiguous("configured"@, configured))
        },
    }
}

fn name_all(kind: &str, names: &Vec<String>) -> (out: String)
    ensures
        out@ == ambiguous(kind@, views(names@)),
{
    let mut out = concat3("multiple packs ", kind, " (");
    out.append(join(names.as_slice(), ", ").as_str());
    out.append("); pick one with --pack");
    out
}

/// The pack that a scaffold uses.
///
/// # Errors
///
/// Several packs could be meant.
pub fn choose_pack(requested: Option<&str>, configured: &Vec<String>, embedded: &Vec<String>) -> (out: Result<
    PackChoice,
    String,
>)
    ensures
        ({
            let choice = pack_choice(str_view(requested), views(configured@), views(embedded@));
            match out {
                Ok(pack) => choice == Ok::<PackChoiceView, Seq<char>>(pack@),
                Err(message) => choice == Err::<PackChoiceView, Seq<char>>(message@),
            }
        }),
{
    assert(views(configured@).len() == configured@.len());
    assert(views(embedded@).len() == embedded@.len());
    if let Some(name) = requested {
        return Ok(PackChoice::Resolved(owned(name)));
    }
    if configured.len() == 0 {
        if embedded.len() == 1 {
            assert(views(embedded@)[0] == embedded@[0]@);
            return Ok(PackChoice::Embedded(embedded[0].clone()));
        }
        return Err(name_all("available", embedded));
    }
    if configured.len() == 1 {
        assert(views(configured@)[0] == configured@[0]@);
        return Ok(PackChoice::Resolved(configured[0].clone()));
    }
    Err(name_all("configured", configured))
}

/// The stem of a tree file, for its scaffold.
pub open spec fn scaffold_stem_of(tree_path: Seq<char>) -> Seq<char> {
    match file_stem_of(tree_path) {
        Some(stem) => stem,
        None => "test"@,
    }
}

/// The stem of a tree file, for its scaffold.
pub fn scaffold_stem(tree_path: &str) -> (out: String)
    ensures
        out@ == scaffold_stem_of(tree_path@),
{
    match file_stem(tree_path) {
        Some(stem) => stem,
        None => owned("test"),
    }
}

/// Where a scaffold goes: where it was asked for, or next to the tree file by
/// the pack's output pattern.
pub open spec fn scaffold_path_of(
    tree_path: Seq<char>,
    requested: Option<Seq<char>>,
    pattern: Seq<char>,
) -> Seq<char> {
    match requested {
        Some(path) => path,
        None => joined_path(
            tree_dir_of(tree_path),
            replaced(pattern, "{stem}"@, scaffold_stem_of(tree_path)),
        ),
    }
}

/// Where a scaffold goes.
pub fn scaffold_path(tree_path: &str, requested: Option<&str>, pattern: &str) -> (out: String)
    ensures
        out@ == scaffold_path_of(tree_path@, str_view(requested), pattern@),
{
    match requested {
        Some(path) => owned(path),
        None => {
            proof {
                reveal_strlit("{stem}");
            }
            let name = replace(pattern, "{stem}", scaffold_stem(tree_path).as_str());
            join_path(crate::config::tree_dir(tree_path).as_str(), name.as_str())
        },
    }
}

/// Whether a path has a component `tests`.
pub open spec fn in_tests(path: Seq<char>) -> bool {
    components_of(path).contains(Part::Normal("tests"@))
}

/// Whether a path has a component `tests`: the output's location decides the
/// file's shape where a language has more than one.
pub fn is_in_tests(path: &str) -> (yes: bool)
    ensures
        yes == in_tests(path@),
{
    let parts = components(path);
    let ghost all = components_of(path@);
    assert(all == views(parts@));
    let mut i: usize = 0;
    while i < parts.len()
        invariant
            i <= parts@.len(),
            all == views(parts@),
            all == components_of(path@),
            forall|j: int| 0 <= j < i ==> all[j] != Part::Normal("tests"@),
        decreases parts@.len() - i,
    {
        assert(all[i as int] == parts@[i as int]@);
        if let Component::Normal(name) = &parts[i] {
            if same(name.as_str(), "tests") {
                assert(all.contains(Part::Normal("tests"@)));
                return true;
            }
        }
        i += 1;
    }
    false
}

/// Why a scaffold is not written over a file that is there.
pub open spec fn overwrite_refusal(path: Seq<char>, exists: bool, force: bool, merge: bool) -> Option<
    Seq<char>,
> {
    if exists && !force && !merge {
        Some(
            path
                + " already exists (use --force to overwrite, or --stdout to preview)"@,
        )
    } else {
        None
    }
}

/// Why a scaffold is not written over a file that is there.
pub fn refuse_overwrite(path: &str, exists: bool, force: bool, merge: bool) -> (out: Option<String>)
    ensures
        opt_view(out) == overwrite_refusal(path@, exists, force, merge),
{
    if exists && !force && !merge {
        Some(
            concat2(path, " already exists (use --force to overwrite, or --stdout to preview)"),
        )
    } else {
        None
    }
}

/// The note on a scaffold that was written.
pub open spec fn note_of(
    merge: bool,
    path: Seq<char>,
    tests: nat,
    tree_path: Seq<char>,
) -> Seq<char> {
    (if merge {
        "merged "@
    } else {
        "scaffolded "@
    }) + path + " ("@ + decimal_of(tests) + " tests) from "@ + tree_path
}

/// What is said of a scaffold that was written.
pub fn scaffold_note(merge: bool, path: &str, tests: usize, tree_path: &str) -> (out: String)
    ensures
        out@ == note_of(merge, path@, tests as nat, tree_path@),
        out@ == (if merge {
            "merged "@
        } else {
            "scaffolded "@
        }) + path@ + " ("@ + decimal_of(tests as nat) + " tests) from "@ + tree_path@,
{
    let mut out = if merge {
        owned("merged ")
    } else {
        owned("scaffolded ")
    };
    out.append(path);
    out.append(" (");
    out.append(count_text(tests).as_str());
    out.append(" tests) from ");
    out.append(tree_path);
    out
}

/// The line of a pack in the listing.
pub open spec fn pack_line_of(
    name: Seq<char>,
    origin: OriginView,
    loaded: Result<PackView, ErrorView>,
) -> Seq<char> {
    match loaded {
        Ok(pack) => name + "  v"@ + pack.manifest.version + "  ["@ + origin_label(origin) + "]  "@
            + pack.manifest.description,
        Err(e) => name + "  ["@ + origin_label(origin) + "]  (broken: "@ + message_of(e) + ")"@,
    }
}

/// The line of a pack in the listing.
pub fn pack_line(name: &str, origin: &Origin, loaded: &Result<Pack, Error>) -> (out: String)
    ensures
        out@ == pack_line_of(
            name@,
            origin@,
            match loaded {
                Ok(pack) => Ok(pack@),
                Err(e) => Err(e@),
            },
        ),
{
    let mut out = owned(name);
    match loaded {
        Ok(pack) => {
            out.append("  v");
            out.append(pack.manifest.pack.version.as_str());
            out.append("  [");
            out.append(origin.to_string().as_str());
            out.append("]  ");
            out.append(pack.manifest.pack.description.as_str());
        },
        Err(e) => {
            out.append("  [");
            out.append(origin.to_string().as_str());
            out.append("]  (broken: ");
            out.append(e.to_string().as_str());
            out.append(")");
        },
    }
    out
}

/// The packs of a listing that are not embedded, each with its origin.
pub open spec fn inactive(entries: Seq<(Seq<char>, OriginView)>) -> Seq<Seq<char>>
    decreases entries.len(),
{
    if entries.len() == 0 {
        Seq::empty()
    } else {
        let before = inactive(entries.drop_last());
        let (name, origin) = entries.last();
        if origin is Builtin {
            before
        } else {
            before.push(name + " ["@ + origin_label(origin) + "]"@)
        }
    }
}

/// What is said of the packs that an unconfigured run ignores: nothing where
/// there are none.
pub open spec fn inactive_note_of(entries: Seq<(Seq<char>, OriginView)>) -> Option<Seq<char>> {
    if inactive(entries).len() == 0 {
        None
    } else {
        Some(
            "note: ignoring "@ + joined(inactive(entries), ", "@)
                + " — packs are only active when btt.toml names them (packs = [...])"@,
        )
    }
}

/// An unconfigured run ignores project and user packs; say so instead of
/// silently not finding their tests.
pub fn inactive_note(entries: &Vec<(String, Origin)>) -> (out: Option<String>)
    ensures
        opt_view(out) == inactive_note_of(crate::pack::entry_views(entries@)),
{
    let ghost all = crate::pack::entry_views(entries@);
    let mut names: Vec<String> = Vec::new();
    let mut i: usize = 0;
    assert(all.take(0) =~= Seq::empty());
    assert(views(names@) =~= Seq::empty());
    while i < entries.len()
        invariant
            i <= entries@.len(),
            all == crate::pack::entry_views(entries@),
            views(names@) == inactive(all.take(i as int)),
        decreases entries@.len() - i,
    {
        let ghost before = views(names@);
        let (name, origin) = &entries[i];
        proof {
            assert(all.take(i + 1).drop_last() =~= all.take(i as int));
            assert(all.take(i + 1).last() == (name@, origin@));
        }
        let embedded = match origin {
            Origin::Builtin => true,
            _ => false,
        };
        if !embedded {
            let mut entry = concat2(name.as_str(), " [");
            entry.append(origin.to_string().as_str());
            entry.append("]");
            names.push(entry);
            assert(views(names@) =~= before.push(entry@));
        }
        i += 1;
    }
    assert(all.take(i as int) =~= all);
    assert(views(names@).len() == names@.len());
    if names.len() == 0 {
        return None;
    }
    let mut note = concat2("note: ignoring ", join(names.as_slice(), ", ").as_str());
    note.append(" — packs are only active when btt.toml names them (packs = [...])");
    Some(note)
}

/// The paths that lie in a root.
pub open spec fn inside(paths: Seq<Seq<char>>, root: Seq<char>) -> Seq<Seq<char>>
    decreases paths.len(),
{
    if paths.len() == 0 {
        Seq::empty()
    } else {
        let before = inside(paths.drop_last(), root);
        if is_within(paths.last(), root) {
            before.push(paths.last())
        } else {
            before
        }
    }
}

/// The roots of the subtrees that a check covers, in path order: those that
/// govern the tree files, those that govern the places searched, and those of
/// the configs found below, where they lie in the project.
pub fn subtree_roots(
    governing_trees: &Vec<String>,
    governing_search: &Vec<String>,
    found: &Vec<String>,
    root: &str,
) -> (out: Vec<String>)
    ensures
        views(out@) == path_set(
            views(governing_trees@) + views(governing_search@) + inside(views(found@), root@),
        ),
{
    let mut roots: Vec<String> = Vec::new();
    add_all(governing_trees, &mut roots);
    add_all(governing_search, &mut roots);
    let ghost start = views(roots@);
    let ghost all = views(found@);
    let mut i: usize = 0;
    assert(all.take(0) =~= Seq::empty());
    assert(views(roots@) =~= start + inside(all.take(0), root@));
    while i < found.len()
        invariant
            i <= found@.len(),
            all == views(found@),
            views(roots@) == start + inside(all.take(i as int), root@),
        decreases found@.len() - i,
    {
        let ghost before = views(roots@);
        proof {
            assert(all.take(i + 1).drop_last() =~= all.take(i as int));
            assert(all.take(i + 1).last() == found@[i as int]@);
        }
        if starts_with_path(found[i].as_str(), root) {
            roots.push(found[i].clone());
            assert(views(roots@) =~= before.push(found@[i as int]@));
            assert(views(roots@) =~= start + inside(all.take(i + 1), root@));
        }
        i += 1;
    }
    assert(all.take(i as int) =~= all);
    assert(views(roots@) =~= views(governing_trees@) + views(governing_search@) + inside(
        all,
        root@,
    ));
    ordered_paths(roots.as_slice())
}

fn add_all(items: &Vec<String>, out: &mut Vec<String>)
    ensures
        views(final(out)@) == views(old(out)@) + views(items@),
{
    let ghost start = views(out@);
    let ghost all = views(items@);
    let mut i: usize = 0;
    assert(views(out@) =~= start + all.take(0));
    while i < items.len()
        invariant
            i <= items@.len(),
            all == views(items@),
            views(out@) == start + all.take(i as int),
        decreases items@.len() - i,
    {
        let ghost before = views(out@);
        out.push(items[i].clone());
        proof {
            assert(all[i as int] == items@[i as int]@);
            assert(views(out@) =~= before.push(items@[i as int]@));
            assert(views(out@) =~= start + all.take(i + 1));
        }
        i += 1;
    }
    assert(all.take(i as int) =~= all);
}

/// The tree files that a root governs.
pub open spec fn governed_of(trees: Seq<(Seq<char>, Seq<char>)>, root: Seq<char>) -> Seq<Seq<char>>
    decreases trees.len(),
{
    if trees.len() == 0 {
        Seq::empty()
    } else {
        let before = governed_of(trees.drop_last(), root);
        if components_of(trees.last().1) == components_of(root) {
            before.push(trees.last().0)
        } else {
            before
        }
    }
}

/// The tree files that a root governs, given the governing root of each.
pub fn governed(trees: &Vec<(String, String)>, root: &str) -> (out: Vec<String>)
    ensures
        views(out@) == governed_of(crate::revisions::file_views(trees@), root@),
{
    let ghost all = crate::revisions::file_views(trees@);
    let mut out: Vec<String> = Vec::new();
    let mut i: usize = 0;
    assert(all.take(0) =~= Seq::empty());
    assert(views(out@) =~= Seq::empty());
    while i < trees.len()
        invariant
            i <= trees@.len(),
            all == crate::revisions::file_views(trees@),
            views(out@) == governed_of(all.take(i as int), root@),
        decreases trees@.len() - i,
    {
        let ghost before = views(out@);
        let (tree, governor) = &trees[i];
        proof {
            assert(all.take(i + 1).drop_last() =~= all.take(i as int));
            assert(all.take(i + 1).last() == (tree@, governor@));
        }
        if same_path(governor.as_str(), root) {
            out.push(tree.clone());
            assert(views(out@) =~= before.push(tree@));
        }
        i += 1;
    }
    assert(all.take(i as int) =~= all);
    out
}

/// What a project's config holds before anyone edits it.
pub fn default_config() -> (out: String)
    ensures
        out@ == default_config_text(),
{
    owned(
        "# btt — branch tree testing (https://github.com/Maddiaa0/btt)\n\n[project]\n# Packs this project uses, in routing-priority order. Only packs named here\n# are active (with no list, only builtins load). A named pack resolves from\n# .btt/packs/, then user dirs ($XDG_CONFIG_HOME/btt/packs, legacy\n# ~/.btt/packs), then the builtins.\npacks = [\"rust\"]\n\n[check]\n# Severity of tests present in the file but absent from the tree: error | warn | ignore\nextra = \"warn\"\n# Severity of sibling order differing between tree and file: error | warn | ignore\norder = \"warn\"\n# Severity of recognized constructs btt cannot represent: error | warn | ignore\nunsupported = \"error\"\n# Severity of scaffold markers left in test bodies: error | warn | ignore\ntodo = \"warn\"\n# Severity of test-bearing files with no .tree spec: error | warn | ignore\n# (warn while adopting; set to \"error\" in CI once every file has a tree)\nuncovered = \"warn\"\n",
    )
}

/// What a project's config holds before anyone edits it.
pub open spec fn default_config_text() -> Seq<char> {
    "# btt — branch tree testing (https://github.com/Maddiaa0/btt)\n\n[project]\n# Packs this project uses, in routing-priority order. Only packs named here\n# are active (with no list, only builtins load). A named pack resolves from\n# .btt/packs/, then user dirs ($XDG_CONFIG_HOME/btt/packs, legacy\n# ~/.btt/packs), then the builtins.\npacks = [\"rust\"]\n\n[check]\n# Severity of tests present in the file but absent from the tree: error | warn | ignore\nextra = \"warn\"\n# Severity of sibling order differing between tree and file: error | warn | ignore\norder = \"warn\"\n# Severity of recognized constructs btt cannot represent: error | warn | ignore\nunsupported = \"error\"\n# Severity of scaffold markers left in test bodies: error | warn | ignore\ntodo = \"warn\"\n# Severity of test-bearing files with no .tree spec: error | warn | ignore\n# (warn while adopting; set to \"error\" in CI once every file has a tree)\nuncovered = \"warn\"\n"@
}

/// What setting up a project does.
#[derive(Debug)]
pub struct InitPlan {
    /// Whether the config is written.
    pub write_config: bool,
    /// Whether the agent skill is written.
    pub write_skill: bool,
    /// What is said, in order.
    pub lines: Vec<String>,
}

/// What setting up a project says.
pub open spec fn init_lines(configured: bool, skill: Option<(Seq<char>, bool)>) -> Seq<Seq<char>> {
    seq![
        if configured {
            "btt.toml already exists, leaving it untouched"@
        } else {
            "wrote btt.toml — edit [project].packs for your languages"@
        },
        match skill {
            None => "tip: `btt init --skill` writes a skill teaching agents the tree-first workflow"@,
            Some((path, true)) => path + " already exists, leaving it untouched"@,
            Some((path, false)) => "wrote "@ + path,
        },
    ]
}

/// What setting up a project does: nothing that is there is overwritten.
/// `skill` is where the agent skill goes and whether it is there already.
pub fn plan_init(configured: bool, skill: Option<(&str, bool)>) -> (out: InitPlan)
    ensures
        out.write_config == !configured,
        out.write_skill == (skill matches Some((_, present)) && !present),
        views(out.lines@) == init_lines(
            configured,
            match skill {
                Some((path, present)) => Some((path@, present)),
                None => None,
            },
        ),
{
    let mut lines: Vec<String> = Vec::new();
    if configured {
        lines.push(owned("btt.toml already exists, leaving it untouched"));
    } else {
        lines.push(owned("wrote btt.toml — edit [project].packs for your languages"));
    }
    let mut write_skill = false;
    match skill {
        None => lines.push(
            owned(
                "tip: `btt init --skill` writes a skill teaching agents the tree-first workflow",
            ),
        ),
        Some((path, present)) => {
            if present {
                lines.push(concat2(path, " already exists, leaving it untouched"));
            } else {
                write_skill = true;
                lines.push(concat2("wrote ", path));
            }
        },
    }
    assert(views(lines@) =~= init_lines(
        configured,
        match skill {
            Some((path, present)) => Some((path@, present)),
            None => None,
        },
    ));
    InitPlan { write_config: !configured, write_skill, lines }
}

/// The text of a scaffold and the number of its tests: of a new file, or of an
/// existing one with what it lacks.
pub open spec fn scaffolded(
    pack: PackView,
    tree_path: Seq<char>,
    spec: Seq<char>,
    out_path: Seq<char>,
    existing: Option<Seq<char>>,
) -> Result<(Seq<char>, nat), ErrorView> {
    match parsed(spec) {
        Err(source) => Err(ErrorView::Parse { path: tree_path, source }),
        Ok(trees) => {
            let expected = expected_of(trees, pack.manifest.mapping);
            let stem = scaffold_stem_of(tree_path);
            let result = match existing {
                Some(text) => merged(pack, expected, out_path, text, stem, in_tests(out_path)),
                None => rendered(pack, expected, stem, in_tests(out_path)),
            };
            match result {
                Ok(text) => Ok((text, capped(test_count(expected)))),
                Err(e) => Err(e),
            }
        },
    }
}

/// The text of the scaffold of a spec and the number of its tests. `existing`
/// is the file that the scaffold is merged into, if it is.
///
/// # Errors
///
/// A spec that does not parse, a template that does not render, or a file that
/// cannot be merged into.
pub fn scaffold_file(
    pack: &Pack,
    tree_path: &str,
    spec: &str,
    out_path: &str,
    existing: Option<&str>,
) -> (out: Result<(String, usize), Error>)
    ensures
        ({
            let result = scaffolded(pack@, tree_path@, spec@, out_path@, str_view(existing));
            match out {
                Ok((text, tests)) => result == Ok::<(Seq<char>, nat), ErrorView>(
                    (text@, tests as nat),
                ),
                Err(e) => result == Err::<(Seq<char>, nat), ErrorView>(e@),
            }
        }),
{
    let trees = match parse(spec) {
        Ok(trees) => trees,
        Err(source) => {
            return Err(Error::Parse { path: owned(tree_path), source });
        },
    };
    let expected = expected_from_spec(trees.as_slice(), &pack.manifest.mapping);
    let stem = scaffold_stem(tree_path);
    let in_tests_dir = is_in_tests(out_path);
    let text = match existing {
        Some(text) => merge(
            pack,
            expected.as_slice(),
            out_path,
            text,
            stem.as_str(),
            in_tests_dir,
        )?,
        None => render(pack, expected.as_slice(), stem.as_str(), in_tests_dir)?,
    };
    Ok((text, count_tests(expected.as_slice())))
}

/// The pack of a command is the one asked for; without that, the only one that
/// the project has, or the only one that is compiled in where it names none;
/// where there are several, the choice is left to the user.
pub proof fn law_packs_are_chosen_by_request(
    name: Seq<char>,
    configured: Seq<Seq<char>>,
    embedded: Seq<Seq<char>>,
)
    ensures
        pack_choice(Some(name), configured, embedded) == Ok::<PackChoiceView, Seq<char>>(
            PackChoiceView::Resolved(name),
        ),
        pack_choice(None, seq![name], embedded) == Ok::<PackChoiceView, Seq<char>>(
            PackChoiceView::Resolved(name),
        ),
        pack_choice(None, Seq::empty(), seq![name]) == Ok::<PackChoiceView, Seq<char>>(
            PackChoiceView::Embedded(name),
        ),
        configured.len() > 1 ==> pack_choice(None, configured, embedded) is Err,
        embedded.len() > 1 ==> pack_choice(None, Seq::empty(), embedded) is Err,
{
}

/// A scaffold goes where it is asked to go; without that, next to its tree under
/// the name that the pattern makes of the tree's stem.
pub proof fn law_scaffolds_go_next_to_their_tree(
    tree_path: Seq<char>,
    path: Seq<char>,
    pattern: Seq<char>,
    stem: Seq<char>,
)
    ensures
        scaffold_path_of(tree_path, Some(path), pattern) == path,
        file_stem_of(tree_path) == Some(stem) ==> scaffold_path_of(tree_path, None, pattern)
            == joined_path(tree_dir_of(tree_path), replaced(pattern, "{stem}"@, stem)),
{
}

/// A file that is there is overwritten only where that is asked for.
pub proof fn law_files_are_overwritten_on_request(path: Seq<char>, force: bool, merge: bool)
    ensures
        overwrite_refusal(path, false, force, merge) is None,
        overwrite_refusal(path, true, true, merge) is None,
        overwrite_refusal(path, true, force, true) is None,
        overwrite_refusal(path, true, false, false) is Some,
{
}

/// A scaffold is merged into a file that is there, and rendered anew where none
/// is; it counts the tests of the whole tree.
pub proof fn law_scaffolds_are_merged_or_rendered(
    pack: PackView,
    tree_path: Seq<char>,
    spec: Seq<char>,
    trees: Seq<crate::tree::SpecTreeView>,
    out_path: Seq<char>,
    existing: Seq<char>,
    stem: Seq<char>,
    text: Seq<char>,
)
    requires
        parsed(spec) == Ok::<Seq<crate::tree::SpecTreeView>, crate::tree::ParseErrorView>(trees),
        file_stem_of(tree_path) == Some(stem),
        test_count(expected_of(trees, pack.manifest.mapping)) < usize::MAX,
    ensures
        ({
            let expected = expected_of(trees, pack.manifest.mapping);
            &&& merged(pack, expected, out_path, existing, stem, in_tests(out_path)) == Ok::<
                Seq<char>,
                ErrorView,
            >(text) ==> scaffolded(pack, tree_path, spec, out_path, Some(existing)) == Ok::<
                (Seq<char>, nat),
                ErrorView,
            >((text, test_count(expected)))
            &&& rendered(pack, expected, stem, in_tests(out_path)) == Ok::<Seq<char>, ErrorView>(
                text,
            ) ==> scaffolded(pack, tree_path, spec, out_path, None) == Ok::<
                (Seq<char>, nat),
                ErrorView,
            >((text, test_count(expected)))
        }),
{
}

/// Of paths those within a directory stay, in their order; of trees those that
/// a root governs.
pub proof fn law_only_what_lies_within_stays(
    paths: Seq<Seq<char>>,
    path: Seq<char>,
    trees: Seq<(Seq<char>, Seq<char>)>,
    governed: Seq<char>,
    root: Seq<char>,
)
    ensures
        inside(Seq::empty(), root) == Seq::<Seq<char>>::empty(),
        inside(paths.push(path), root) == if is_within(path, root) {
            inside(paths, root).push(path)
        } else {
            inside(paths, root)
        },
        governed_of(Seq::empty(), root) == Seq::<Seq<char>>::empty(),
        governed_of(trees.push((path, governed)), root) == if components_of(governed)
            == components_of(root) {
            governed_of(trees, root).push(path)
        } else {
            governed_of(trees, root)
        },
{
    assert(paths.push(path).drop_last() =~= paths);
    assert(trees.push((path, governed)).drop_last() =~= trees);
}

/// The packs that are there but not active are those of the project and the
/// user, in their order.
pub proof fn law_builtin_packs_are_never_inactive(
    entries: Seq<(Seq<char>, OriginView)>,
    name: Seq<char>,
    origin: OriginView,
)
    ensures
        inactive(Seq::empty()) == Seq::<Seq<char>>::empty(),
        inactive(entries.push((name, origin))) == match origin {
            OriginView::Builtin => inactive(entries),
            OriginView::User(_) => inactive(entries).push(name + " ["@ + "user"@ + "]"@),
            OriginView::Project(_) => inactive(entries).push(name + " ["@ + "project"@ + "]"@),
        },
{
    assert(entries.push((name, origin)).drop_last() =~= entries);
}

/// A file lies among integration tests where one of its directories, or the
/// file itself, is named `tests`.
pub proof fn law_integration_tests_lie_in_tests(path: Seq<char>)
    ensures
        in_tests(path) <==> exists|i: int|
            0 <= i < components_of(path).len() && #[trigger] components_of(path)[i] == Part::Normal(
                "tests"@,
            ),
{
}

/// The note on a scaffold tells whether a file was merged into or made, which
/// one, how many tests the tree has, and which tree that is.
pub proof fn law_scaffold_notes_tell_what_was_done(
    path: Seq<char>,
    tests: nat,
    tree_path: Seq<char>,
)
    ensures
        note_of(true, path, tests, tree_path) == "merged "@ + path + " ("@ + decimal_of(tests)
            + " tests) from "@ + tree_path,
        note_of(false, path, tests, tree_path) == "scaffolded "@ + path + " ("@ + decimal_of(tests)
            + " tests) from "@ + tree_path,
{
}

} // verus!
