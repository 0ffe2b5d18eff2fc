//! The curated pack index: which packs of a repository it offers, with the
//! digest of every file.

use vstd::prelude::*;
use crate::error::Error;
use crate::install::{closure, digest_map, IndexEntry, Index, StagedFile};
use crate::pack::{GrammarSource, Manifest};
use crate::paths::{
    components, file_name, join_path, ordered_paths, parent, same_path, starts_with_path,
};
use crate::text::{concat2, join, owned, same};

verus! {

use crate::error::{message_of, ErrorView};
use crate::install::{capped_views, closure_of, digests_of, IndexEntryView, StagedFileView};
use crate::pack::{GrammarSourceView, ManifestView};
use crate::paths::{components_of, file_name_of, is_within, joined_path, parent_of, path_set};
use crate::text::{joined, views};

broadcast use vstd::string::group_string_axioms;

/// Whether a tracked file is the manifest of a pack that an index may offer:
/// `<dir>/<name>/pack.toml` outside `packs/` (builtins ship in the binary and
/// are not installable).
pub open spec fn is_offered(path: Seq<char>) -> bool {
    file_name_of(path) == Some("pack.toml"@) && components_of(path).len() == 3 && !is_within(
        path,
        "packs"@,
    )
}

/// The manifests among tracked files.
pub open spec fn offered_of(versioned: Seq<Seq<char>>) -> Seq<Seq<char>>
    decreases versioned.len(),
{
    if versioned.len() == 0 {
        Seq::empty()
    } else {
        let before = offered_of(versioned.drop_last());
        if is_offered(versioned.last()) {
            before.push(versioned.last())
        } else {
            before
        }
    }
}

fn offers(path: &str) -> (yes: bool)
    ensures
        yes == is_offered(path@),
{
    let named = match file_name(path) {
        Some(name) => same(name.as_str(), "pack.toml"),
        None => false,
    };
    let parts = components(path);
    assert(components_of(path@).len() == parts@.len());
    named && parts.len() == 3 && !starts_with_path(path, "packs")
}

/// The manifests of the packs that an index may offer, in path order, given the
/// files that git tracks.
pub fn index_candidates(versioned: &Vec<String>) -> (out: Vec<String>)
    ensures
        views(out@) == path_set(offered_of(views(versioned@))),
{
    let ghost all = views(versioned@);
    let mut found: Vec<String> = Vec::new();
    let mut i: usize = 0;
    assert(all.take(0) =~= Seq::empty());
    assert(views(found@) =~= Seq::empty());
    while i < versioned.len()
        invariant
            i <= versioned@.len(),
            all == views(versioned@),
            views(found@) == offered_of(all.take(i as int)),
        decreases versioned@.len() - i,
    {
        let ghost before = views(found@);
        assert(all.take(i + 1).drop_last() =~= all.take(i as int));
        assert(all.take(i + 1).last() == versioned@[i as int]@);
        if offers(versioned[i].as_str()) {
            found.push(versioned[i].clone());
            assert(views(found@) =~= before.push(versioned@[i as int]@));
        }
        i += 1;
    }
    assert(all.take(i as int) =~= all);
    ordered_paths(found.as_slice())
}

/// Whether git tracks a file.
pub open spec fn is_tracked(versioned: Seq<Seq<char>>, path: Seq<char>) -> bool {
    exists|i: int|
        0 <= i < versioned.len() && components_of(#[trigger] versioned[i]) == components_of(path)
}

fn tracks(versioned: &Vec<String>, path: &str) -> (yes: bool)
    ensures
        yes == is_tracked(views(versioned@), path@),
{
    let ghost all = views(versioned@);
    let mut i: usize = 0;
    while i < versioned.len()
        invariant
            i <= versioned@.len(),
            all == views(versioned@),
            forall|j: int|
                0 <= j < i ==> components_of(#[trigger] all[j]) != components_of(path@),
        decreases versioned@.len() - i,
    {
        assert(all[i as int] == versioned@[i as int]@);
        if same_path(versioned[i].as_str(), path) {
            return true;
        }
        i += 1;
    }
    false
}

/// The files of a pack that git does not track.
pub open spec fn untracked(
    versioned: Seq<Seq<char>>,
    dir: Seq<char>,
    files: Seq<(Seq<char>, u64)>,
) -> Seq<Seq<char>>
    decreases files.len(),
{
    if files.len() == 0 {
        Seq::empty()
    } else {
        let before = untracked(versioned, dir, files.drop_last());
        if is_tracked(versioned, joined_path(dir, files.last().0)) {
            before
        } else {
            before.push(files.last().0)
        }
    }
}

fn find_untracked(versioned: &Vec<String>, dir: &str, manifest: &Manifest) -> (out: Vec<String>)
    ensures
        views(out@) == untracked(views(versioned@), dir@, closure_of(manifest@)),
{
    let files = closure(manifest);
    let ghost all = closure_of(manifest@);
    assert(all.len() == files@.len());
    let mut out: Vec<String> = Vec::new();
    let mut i: usize = 0;
    assert(all.take(0) =~= Seq::empty());
    assert(views(out@) =~= Seq::empty());
    while i < files.len()
        invariant
            i <= files@.len(),
            all == capped_views(files@),
            views(out@) == untracked(views(versioned@), dir@, all.take(i as int)),
        decreases files@.len() - i,
    {
        let ghost before = views(out@);
        assert(all.take(i + 1).drop_last() =~= all.take(i as int));
        assert(all.take(i + 1).last() == (files@[i as int].0@, files@[i as int].1));
        if !tracks(versioned, join_path(dir, files[i].0.as_str()).as_str()) {
            out.push(files[i].0.clone());
            assert(views(out@) =~= before.push(files@[i as int].0@));
        }
        i += 1;
    }
    assert(all.take(i as int) =~= all);
    out
}

/// What was read of a pack that an index may offer.
#[derive(Debug)]
pub struct IndexSource {
    /// Its manifest, or why there is none.
    pub manifest: Result<Manifest, Error>,
    /// The digests of its files, or why one could not be read.
    pub digests: Result<Vec<StagedFile>, Error>,
}

/// The model of an [`IndexSource`].
pub struct IndexSourceView {
    pub manifest: Result<ManifestView, ErrorView>,
    pub digests: Result<Seq<StagedFileView>, ErrorView>,
}

impl View for IndexSource {
    type V = IndexSourceView;

    open spec fn view(&self) -> IndexSourceView {
        IndexSourceView {
            manifest: match self.manifest {
                Ok(manifest) => Ok(manifest@),
                Err(e) => Err(e@),
            },
            digests: match self.digests {
                Ok(files) => Ok(views(files@)),
                Err(e) => Err(e@),
            },
        }
    }
}

/// The word for a kind of grammar.
pub open spec fn kind_word(source: GrammarSourceView) -> Seq<char> {
    match source {
        GrammarSourceView::Builtin(_) => "builtin"@,
        GrammarSourceView::Wasm(_) => "wasm"@,
        GrammarSourceView::Lexical => "lexical"@,
    }
}

/// The entry for a pack, or why it is skipped.
pub open spec fn entry_of(
    versioned: Seq<Seq<char>>,
    manifest_path: Seq<char>,
    source: IndexSourceView,
) -> Result<IndexEntryView, Seq<char>> {
    let dir = match parent_of(manifest_path) {
        Some(dir) => dir,
        None => Seq::empty(),
    };
    match source.manifest {
        Err(e) => Err(dir + ": "@ + message_of(e)),
        Ok(manifest) => {
            let missing = untracked(versioned, dir, closure_of(manifest));
            if missing.len() > 0 {
                Err(
                    dir + ": closure not fully tracked by git ("@ + joined(missing, ", "@) + ")"@,
                )
            } else {
                match source.digests {
                    Err(e) => Err(dir + ": "@ + message_of(e)),
                    Ok(files) => Ok(
                        IndexEntryView {
                            name: manifest.name,
                            kind: kind_word(manifest.source),
                            description: manifest.description,
                            dir,
                            files: digests_of(files),
                        },
                    ),
                }
            }
        },
    }
}

fn skip_note(dir: &str, e: &Error) -> (out: String)
    ensures
        out@ == dir@ + ": "@ + message_of(e@),
{
    let mut note = owned(dir);
    note.append(": ");
    note.append(e.to_string().as_str());
    note
}

/// The index entry for a pack, or why it is skipped: its manifest is refused,
/// git does not track all its files, or one of them cannot be read.
pub fn index_entry(versioned: &Vec<String>, manifest_path: &str, source: &IndexSource) -> (out: Result<
    IndexEntry,
    String,
>)
    ensures
        match out {
            Ok(entry) => entry_of(views(versioned@), manifest_path@, source@) == Ok::<
                IndexEntryView,
                Seq<char>,
            >(entry@),
            Err(note) => entry_of(views(versioned@), manifest_path@, source@) == Err::<
                IndexEntryView,
                Seq<char>,
            >(note@),
        },
{
    let dir = match parent(manifest_path) {
        Some(dir) => dir,
        None => String::new(),
    };
    assert(parent_of(manifest_path@) is None ==> dir@ =~= Seq::empty());
    let manifest = match &source.manifest {
        Ok(manifest) => manifest,
        Err(e) => {
            return Err(skip_note(dir.as_str(), e));
        },
    };
    let missing = find_untracked(versioned, dir.as_str(), manifest);
    assert(missing@.len() == views(missing@).len());
    if missing.len() > 0 {
        let mut note = dir;
        note.append(": closure not fully tracked by git (");
        note.append(join(missing.as_slice(), ", ").as_str());
        note.append(")");
        return Err(note);
    }
    let files = match &source.digests {
        Ok(files) => files,
        Err(e) => {
            return Err(skip_note(dir.as_str(), e));
        },
    };
    let kind = match &manifest.grammar.source {
        GrammarSource::Builtin(_) => "builtin",
        GrammarSource::Wasm(_) => "wasm",
        GrammarSource::Lexical => "lexical",
    };
    Ok(
        IndexEntry {
            name: manifest.pack.name.clone(),
            kind: owned(kind),
            description: manifest.pack.description.clone(),
            dir,
            files: digest_map(files),
        },
    )
}

/// The directory of the first pack with a name.
pub open spec fn dir_of(packs: Seq<IndexEntryView>, name: Seq<char>) -> Option<Seq<char>>
    decreases packs.len(),
{
    if packs.len() == 0 {
        None
    } else {
        match dir_of(packs.drop_last(), name) {
            Some(dir) => Some(dir),
            None => if packs.last().name == name {
                Some(packs.last().dir)
            } else {
                None
            },
        }
    }
}

proof fn lemma_dir_stays(packs: Seq<IndexEntryView>, name: Seq<char>, n: int)
    requires
        0 <= n <= packs.len(),
        dir_of(packs.take(n), name) is Some,
    ensures
        dir_of(packs, name) == dir_of(packs.take(n), name),
    decreases packs.len(),
{
    if n < packs.len() {
        assert(packs.drop_last().take(n) =~= packs.take(n));
        lemma_dir_stays(packs.drop_last(), name, n);
    } else {
        assert(packs.take(n) =~= packs);
    }
}

fn find_dir<'a>(packs: &'a Vec<IndexEntry>, name: &str) -> (out: Option<&'a String>)
    ensures
        match out {
            Some(dir) => dir_of(views(packs@), name@) == Some(dir@),
            None => dir_of(views(packs@), name@) is None,
        },
{
    let ghost all = views(packs@);
    let mut i: usize = 0;
    assert(all.take(0) =~= Seq::empty());
    while i < packs.len()
        invariant
            i <= packs@.len(),
            all == views(packs@),
            dir_of(all.take(i as int), name@) is None,
        decreases packs@.len() - i,
    {
        assert(all.take(i + 1).drop_last() =~= all.take(i as int));
        assert(all.take(i + 1).last() == packs@[i as int]@);
        if same(packs[i].name.as_str(), name) {
            proof {
                lemma_dir_stays(all, name@, i + 1);
            }
            return Some(&packs[i].dir);
        }
        i += 1;
    }
    assert(all.take(i as int) =~= all);
    None
}

/// The packs of an index and the notes on those that are skipped, or the error
/// that two packs claim one name.
pub open spec fn indexed(
    versioned: Seq<Seq<char>>,
    paths: Seq<Seq<char>>,
    sources: Seq<IndexSourceView>,
) -> Result<(Seq<IndexEntryView>, Seq<Seq<char>>), ErrorView>
    decreases paths.len(),
{
    if paths.len() == 0 {
        Ok((Seq::empty(), Seq::empty()))
    } else {
        match indexed(versioned, paths.drop_last(), sources) {
            Err(e) => Err(e),
            Ok((packs, skipped)) => match entry_of(
                versioned,
                paths.last(),
                sources[paths.len() - 1],
            ) {
                Err(note) => Ok((packs, skipped.push(note))),
                Ok(entry) => match dir_of(packs, entry.name) {
                    Some(dir) => Err(
                        ErrorView::DigestMismatch {
                            name: entry.name,
                            file: "duplicate curated name (also "@ + dir + ")"@,
                        },
                    ),
                    None => Ok((packs.push(entry), skipped)),
                },
            },
        }
    }
}

proof fn lemma_index_stays(
    versioned: Seq<Seq<char>>,
    paths: Seq<Seq<char>>,
    sources: Seq<IndexSourceView>,
    n: int,
)
    requires
        0 <= n <= paths.len(),
        indexed(versioned, paths.take(n), sources) is Err,
    ensures
        indexed(versioned, paths, sources) == indexed(versioned, paths.take(n), sources),
    decreases paths.len(),
{
    if n < paths.len() {
        assert(paths.drop_last().take(n) =~= paths.take(n));
        lemma_index_stays(versioned, paths.drop_last(), sources, n);
    } else {
        assert(paths.take(n) =~= paths);
    }
}

/// The curated index of a repository, and the notes on the packs that are
/// skipped: every non-builtin pack whose entire manifest closure is tracked by
/// git is offered. `sources` holds what was read of the candidates, in order.
///
/// The digests are only valid for installs once `tag` points at the tree
/// they were computed from.
///
/// # Errors
///
/// Two candidate packs claiming one name.
pub fn generate_index(versioned: &Vec<String>, sources: &Vec<IndexSource>, tag: &str) -> (out: Result<
    (Index, Vec<String>),
    Error,
>)
    requires
        sources@.len() == path_set(offered_of(views(versioned@))).len(),
    ensures
        ({
            let paths = path_set(offered_of(views(versioned@)));
            match out {
                Ok((index, skipped)) => index.tag@ == tag@ && indexed(
                    views(versioned@),
                    paths,
                    views(sources@),
                ) == Ok::<(Seq<IndexEntryView>, Seq<Seq<char>>), ErrorView>(
                    (views(index.packs@), views(skipped@)),
                ),
                Err(e) => indexed(views(versioned@), paths, views(sources@)) == Err::<
                    (Seq<IndexEntryView>, Seq<Seq<char>>),
                    ErrorView,
                >(e@),
            }
        }),
{
    let candidates = index_candidates(versioned);
    let ghost known = views(versioned@);
    let ghost paths = views(candidates@);
    let ghost all = views(sources@);
    assert(paths.len() == candidates@.len());
    let mut packs: Vec<IndexEntry> = Vec::new();
    let mut skipped: Vec<String> = Vec::new();
    let mut i: usize = 0;
    assert(paths.take(0) =~= Seq::empty());
    assert(views(packs@) =~= Seq::empty() && views(skipped@) =~= Seq::empty());
    while i < candidates.len()
        invariant
            i <= candidates@.len() == sources@.len(),
            known == views(versioned@),
            paths == views(candidates@),
            paths == path_set(offered_of(known)),
            all == views(sources@),
            indexed(known, paths.take(i as int), all) == Ok::<
                (Seq<IndexEntryView>, Seq<Seq<char>>),
                ErrorView,
            >((views(packs@), views(skipped@))),
        decreases candidates@.len() - i,
    {
        let ghost packs_before = views(packs@);
        let ghost skipped_before = views(skipped@);
        assert(paths.take(i + 1).drop_last() =~= paths.take(i as int));
        assert(paths.take(i + 1).last() == candidates@[i as int]@);
        assert(all[i as int] == sources@[i as int]@);
        match index_entry(versioned, candidates[i].as_str(), &sources[i]) {
            Err(note) => {
                let ghost noted = note@;
                skipped.push(note);
                assert(views(skipped@) =~= skipped_before.push(noted));
            },
            Ok(entry) => {
                let ghost added = entry@;
                if let Some(dir) = find_dir(&packs, entry.name.as_str()) {
                    let mut file = owned("duplicate curated name (also ");
                    file.append(dir.as_str());
                    file.append(")");
                    let e = Error::DigestMismatch { name: entry.name.clone(), file };
                    proof {
                        lemma_index_stays(known, paths, all, i + 1);
                    }
                    return Err(e);
                }
                packs.push(entry);
                assert(views(packs@) =~= packs_before.push(added));
            },
        }
        i += 1;
    }
    assert(paths.take(i as int) =~= paths);
    Ok((Index { tag: owned(tag), packs }, skipped))
}

proof fn lemma_no_dir(packs: Seq<IndexEntryView>, name: Seq<char>, i: int)
    requires
        dir_of(packs, name) is None,
        0 <= i < packs.len(),
    ensures
        packs[i].name != name,
    decreases packs.len(),
{
    if i < packs.len() - 1 {
        assert(packs.drop_last()[i] == packs[i]);
        lemma_no_dir(packs.drop_last(), name, i);
    }
}

/// No two packs of an index have one name.
pub proof fn law_index_names_are_unique(
    versioned: Seq<Seq<char>>,
    paths: Seq<Seq<char>>,
    sources: Seq<IndexSourceView>,
    i: int,
    j: int,
)
    requires
        indexed(versioned, paths, sources) is Ok,
        0 <= i < j < (indexed(versioned, paths, sources)->Ok_0).0.len(),
    ensures
        (indexed(versioned, paths, sources)->Ok_0).0[i].name != (indexed(
            versioned,
            paths,
            sources,
        )->Ok_0).0[j].name,
    decreases paths.len(),
{
    let (packs, _) = indexed(versioned, paths, sources)->Ok_0;
    let (before, _) = indexed(versioned, paths.drop_last(), sources)->Ok_0;
    if j < before.len() {
        law_index_names_are_unique(versioned, paths.drop_last(), sources, i, j);
        assert(packs[i] == before[i] && packs[j] == before[j]);
    } else {
        lemma_no_dir(before, packs[j].name, i);
        assert(packs[i] == before[i]);
    }
}

/// The text of an index file around its entries.
pub fn index_text(body: &str) -> (out: String)
    ensures
        out@ == "# Curated pack index, embedded into the btt binary at build time.\n# Generated by scripts/gen-packs-index.sh — do not edit by hand.\n# Installs fetch the official repo at `tag` and verify every file\n# against these digests; the release process must tag the tree this\n# was generated from.\n\n"@
            + body@,
{
    concat2(
        "# Curated pack index, embedded into the btt binary at build time.\n# Generated by scripts/gen-packs-index.sh — do not edit by hand.\n# Installs fetch the official repo at `tag` and verify every file\n# against these digests; the release process must tag the tree this\n# was generated from.\n\n",
        body,
    )
}

/// A file of a pack that version control does not know is missing, and no
/// other.
pub proof fn law_untracked_files_are_missing(
    versioned: Seq<Seq<char>>,
    dir: Seq<char>,
    files: Seq<(Seq<char>, u64)>,
    file: Seq<char>,
    limit: u64,
)
    ensures
        untracked(versioned, dir, Seq::empty()) == Seq::<Seq<char>>::empty(),
        untracked(versioned, dir, files.push((file, limit))) == if exists|i: int|
            0 <= i < versioned.len() && components_of(#[trigger] versioned[i]) == components_of(
                joined_path(dir, file),
            ) {
            untracked(versioned, dir, files)
        } else {
            untracked(versioned, dir, files).push(file)
        },
{
    assert(files.push((file, limit)).drop_last() =~= files);
}

/// The offered packs are those whose manifest lies two directories down, and
/// not under the directory of installed packs.
pub proof fn law_offered_packs(versioned: Seq<Seq<char>>, path: Seq<char>)
    ensures
        offered_of(Seq::empty()) == Seq::<Seq<char>>::empty(),
        offered_of(versioned.push(path)) == if file_name_of(path) == Some("pack.toml"@)
            && components_of(path).len() == 3 && !is_within(path, "packs"@) {
            offered_of(versioned).push(path)
        } else {
            offered_of(versioned)
        },
{
    assert(versioned.push(path).drop_last() =~= versioned);
}

/// The entry of a pack holds its name, the kind of its grammar, its description,
/// its directory and the digests of its files.
pub proof fn law_entries_describe_the_pack(
    versioned: Seq<Seq<char>>,
    dir: Seq<char>,
    path: Seq<char>,
    manifest: ManifestView,
    files: Seq<StagedFileView>,
)
    requires
        parent_of(path) == Some(dir),
        untracked(versioned, dir, closure_of(manifest)).len() == 0,
    ensures
        entry_of(
            versioned,
            path,
            IndexSourceView { manifest: Ok(manifest), digests: Ok(files) },
        ) == Ok::<IndexEntryView, Seq<char>>(
            IndexEntryView {
                name: manifest.name,
                kind: match manifest.source {
                    GrammarSourceView::Builtin(_) => "builtin"@,
                    GrammarSourceView::Wasm(_) => "wasm"@,
                    GrammarSourceView::Lexical => "lexical"@,
                },
                description: manifest.description,
                dir,
                files: digests_of(files),
            },
        ),
{
}

/// An index goes manifest by manifest: each gives an entry or a note on why it
/// is left out, and a second pack of one name stops it.
pub proof fn law_indexes_go_manifest_by_manifest(
    versioned: Seq<Seq<char>>,
    paths: Seq<Seq<char>>,
    path: Seq<char>,
    sources: Seq<IndexSourceView>,
    packs: Seq<IndexEntryView>,
    skipped: Seq<Seq<char>>,
)
    requires
        indexed(versioned, paths, sources) == Ok::<
            (Seq<IndexEntryView>, Seq<Seq<char>>),
            ErrorView,
        >((packs, skipped)),
    ensures
        indexed(versioned, Seq::empty(), sources) == Ok::<
            (Seq<IndexEntryView>, Seq<Seq<char>>),
            ErrorView,
        >((Seq::empty(), Seq::empty())),
        match entry_of(versioned, path, sources[paths.len() as int]) {
            Err(note) => indexed(versioned, paths.push(path), sources) == Ok::<
                (Seq<IndexEntryView>, Seq<Seq<char>>),
                ErrorView,
            >((packs, skipped.push(note))),
            Ok(entry) => if exists|i: int|
                0 <= i < packs.len() && (#[trigger] packs[i]).name == entry.name {
                indexed(versioned, paths.push(path), sources) is Err
            } else {
                indexed(versioned, paths.push(path), sources) == Ok::<
                    (Seq<IndexEntryView>, Seq<Seq<char>>),
                    ErrorView,
                >((packs.push(entry), skipped))
            },
        },
{
    assert(paths.push(path).drop_last() =~= paths);
    if let Ok(entry) = entry_of(versioned, path, sources[paths.len() as int]) {
        lemma_named_dir(packs, entry.name);
    }
}

proof fn lemma_named_dir(packs: Seq<IndexEntryView>, name: Seq<char>)
    ensures
        dir_of(packs, name) is Some <==> exists|i: int|
            0 <= i < packs.len() && (#[trigger] packs[i]).name == name,
    decreases packs.len(),
{
    if packs.len() > 0 {
        let front = packs.drop_last();
        lemma_named_dir(front, name);
        assert(packs[packs.len() - 1] == packs.last());
        assert(forall|i: int| 0 <= i < front.len() ==> #[trigger] front[i] == packs[i]);
        if exists|i: int| 0 <= i < front.len() && (#[trigger] front[i]).name == name {
            let i = choose|i: int| 0 <= i < front.len() && (#[trigger] front[i]).name == name;
            assert(packs[i].name == name);
        }
        if exists|i: int| 0 <= i < packs.len() && (#[trigger] packs[i]).name == name {
            let i = choose|i: int| 0 <= i < packs.len() && (#[trigger] packs[i]).name == name;
            if i < front.len() {
                assert(front[i].name == name);
            }
        }
    }
}

} // verus!
