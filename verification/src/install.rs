//! Pack installation: what is copied and under which rules, receipts, the
//! curated index, and what may be removed.
//!
//! Every source funnels through one pipeline:
//!
//! 1. **Acquire** — a local directory, a shallow git clone, or a clone of the
//!    official repository at the tag that the curated index pins.
//! 2. **Stage** ([`stage`]) — only the manifest closure (`pack.toml` and the
//!    files it references) is copied. Symlinks and special files are refused,
//!    sizes are capped, and every file is content-hashed.
//! 3. **Validate** — the staged copy is loaded by the loader that checks use.
//! 4. **Receipt** ([`write_receipt`]) — provenance and per-file digests.
//! 5. **Commit** ([`commit`]) — a rename into `<packs-root>/<manifest name>`;
//!    replacing an existing pack swaps through a trash directory.
//!
//! Installation never activates a pack: packs only run when `btt.toml` names
//! them.

use vstd::prelude::*;
use sha2::{Digest, Sha256};
use crate::dates::rfc3339_utc;
use crate::error::Error;
use crate::pack::{is_safe_name, validate, GrammarSource, Manifest, Pack};
use crate::paths::{file_name, join_path, ordered_paths, parent, same_path, starts_with_path};
use crate::text::{
    chars_of, concat2, concat3, less, owned, same, split_once, starts_with, strip_prefix,
};

verus! {

use crate::error::ErrorView;
use crate::pack::{is_plain_name, manifest_fault, GrammarSourceView, ManifestView};
use crate::paths::{components_of, file_name_of, is_within, joined_path, parent_of, path_set};
use crate::text::{
    cut_once, lemma_less_irreflexive, lemma_less_total, lemma_less_transitive, opt_view, text_less,
    views,
};

broadcast use vstd::string::group_string_axioms;

/// Size cap for text files in a pack (manifest, query, template).
pub const MAX_TEXT_BYTES: u64 = 262144;

/// Size cap for a compiled wasm grammar module.
pub const MAX_WASM_BYTES: u64 = 8388608;

/// File name of the receipt inside an installed pack directory. The
/// loader never reads it (loaders read only manifest-referenced files).
pub const RECEIPT_FILE: &'static str = "receipt.toml";

/// The files a manifest closes over, with the size cap each must obey.
pub open spec fn closure_of(m: ManifestView) -> Seq<(Seq<char>, u64)> {
    let query = match m.query {
        Some(file) => seq![(file, MAX_TEXT_BYTES)],
        None => Seq::empty(),
    };
    let wasm = match m.source {
        GrammarSourceView::Wasm(file) => seq![(file, MAX_WASM_BYTES)],
        _ => Seq::empty(),
    };
    seq![("pack.toml"@, MAX_TEXT_BYTES)] + query + seq![(m.template, MAX_TEXT_BYTES)] + wasm
}

/// Files with their caps, by their models.
pub open spec fn capped_views(files: Seq<(String, u64)>) -> Seq<(Seq<char>, u64)> {
    files.map_values(|f: (String, u64)| (f.0@, f.1))
}

/// The files a manifest closes over, with the size cap each must obey.
/// This is the complete list an install copies — nothing else in the
/// source directory ever reaches the packs root.
pub fn closure(manifest: &Manifest) -> (out: Vec<(String, u64)>)
    ensures
        capped_views(out@) == closure_of(manifest@),
{
    let mut files: Vec<(String, u64)> = Vec::new();
    files.push((owned("pack.toml"), MAX_TEXT_BYTES));
    // Lexical packs have no query file: their whole profile lives in the
    // manifest itself.
    if let Some(query) = &manifest.extract.query {
        files.push((query.clone(), MAX_TEXT_BYTES));
    }
    files.push((manifest.scaffold.template.clone(), MAX_TEXT_BYTES));
    if let GrammarSource::Wasm(file) = &manifest.grammar.source {
        files.push((file.clone(), MAX_WASM_BYTES));
    }
    assert(capped_views(files@) =~= closure_of(manifest@));
    files
}

/// Everything that a manifest names and that an install copies lies in the
/// pack directory.
pub proof fn law_closures_are_confined(m: ManifestView, current: Seq<char>, i: int)
    requires
        manifest_fault(m, current) is None,
        0 <= i < closure_of(m).len(),
    ensures
        closure_of(m)[i].0 == "pack.toml"@ || crate::pack::is_confined(closure_of(m)[i].0),
{
}

/// Whether a file of an install source is a regular file inside the source:
/// `kind` tells whether it is one itself, and not a link; `place` and `root`
/// are where the file and the source really are, with all links followed.
///
/// # Errors
///
/// The file at `path` is refused.
pub fn check_place(path: &str, regular: bool, place: &str, root: &str) -> (out: Result<(), Error>)
    ensures
        match out {
            Ok(_) => regular && is_within(place@, root@),
            Err(e) => !(regular && is_within(place@, root@)) && e@
                == (ErrorView::InstallUnsafeFile { path: path@ }),
        },
{
    // A linked *directory* between source root and file evades a test of the
    // final component; the real path closes that route.
    if !regular || !starts_with_path(place, root) {
        return Err(Error::InstallUnsafeFile { path: owned(path) });
    }
    Ok(())
}

/// Whether an opened file of an install source is a regular file within its
/// cap.
///
/// # Errors
///
/// The file at `path` is refused.
pub fn check_size(path: &str, regular: bool, size: u64, cap: u64) -> (out: Result<(), Error>)
    ensures
        match out {
            Ok(_) => regular && size <= cap,
            Err(e) => if regular {
                size > cap && e@ == (ErrorView::InstallTooLarge { path: path@, size, limit: cap })
            } else {
                e@ == (ErrorView::InstallUnsafeFile { path: path@ })
            },
        },
{
    if !regular {
        return Err(Error::InstallUnsafeFile { path: owned(path) });
    }
    if size > cap {
        return Err(Error::InstallTooLarge { path: owned(path), size, limit: cap });
    }
    Ok(())
}

/// The bytes of a file of an install source, where they are within the cap: a
/// file that grew after it was measured is still caught.
///
/// # Errors
///
/// The file at `path` is refused.
pub fn check_bytes(path: &str, bytes: Vec<u8>, cap: u64) -> (out: Result<Vec<u8>, Error>)
    ensures
        match out {
            Ok(kept) => kept == bytes && bytes@.len() <= cap,
            Err(e) => bytes@.len() > cap && e@ == (ErrorView::InstallTooLarge {
                path: path@,
                size: bytes@.len() as u64,
                limit: cap,
            }),
        },
{
    let size: u64 = bytes.len() as u64;
    if size > cap {
        return Err(Error::InstallTooLarge { path: owned(path), size, limit: cap });
    }
    Ok(bytes)
}

/// The digest that `sha2::Sha256` computes of some bytes.
pub uninterp spec fn sha256_of(bytes: Seq<u8>) -> Seq<u8>;

/// `sha2::Sha256::digest`: the digest of some bytes, which depends on them
/// alone and is 32 bytes long.
#[verifier::external_body]
fn sha256(bytes: &[u8]) -> (out: Vec<u8>)
    ensures
        out@ == sha256_of(bytes@),
        out@.len() == 32,
{
    Sha256::digest(bytes).to_vec()
}

/// The hexadecimal digit of a number below 16, in lower case.
pub open spec fn hex_digit(n: int) -> char {
    if n < 10 {
        (48 + n) as char
    } else {
        (87 + n) as char
    }
}

/// Bytes as hexadecimal digits, two for each.
pub open spec fn hex_of(bytes: Seq<u8>) -> Seq<char>
    decreases bytes.len(),
{
    if bytes.len() == 0 {
        Seq::empty()
    } else {
        let last = bytes.last() as int;
        hex_of(bytes.drop_last()).push(hex_digit(last / 16)).push(hex_digit(last % 16))
    }
}

fn digit_char(n: u8) -> (out: char)
    requires
        n < 16,
    ensures
        out == hex_digit(n as int),
{
    if n < 10 {
        (48 + n) as char
    } else {
        (87 + n) as char
    }
}

/// Bytes as hexadecimal digits, two for each.
pub fn hex(bytes: &[u8]) -> (out: String)
    ensures
        out@ == hex_of(bytes@),
{
    let mut out = String::new();
    let mut i: usize = 0;
    assert(bytes@.take(0) =~= Seq::empty());
    while i < bytes.len()
        invariant
            i <= bytes@.len(),
            out@ == hex_of(bytes@.take(i as int)),
        decreases bytes@.len() - i,
    {
        assert(bytes@.take(i + 1).drop_last() =~= bytes@.take(i as int));
        let b: u8 = bytes[i];
        out.push(digit_char(b / 16));
        out.push(digit_char(b % 16));
        i += 1;
    }
    assert(bytes@.take(i as int) =~= bytes@);
    out
}

/// Lowercase hex sha256 of some bytes: 64 digits.
pub fn sha256_hex(bytes: &[u8]) -> (out: String)
    ensures
        out@ == hex_of(sha256_of(bytes@)),
        out@.len() == 64,
{
    let digest = sha256(bytes);
    proof {
        lemma_hex_len(digest@);
    }
    hex(digest.as_slice())
}

/// Two digits stand for a byte: hexadecimal text has twice the length of what
/// it stands for, and different bytes have different text.
pub proof fn law_hex_is_faithful(a: Seq<u8>, b: Seq<u8>)
    ensures
        hex_of(a).len() == 2 * a.len(),
        hex_of(a) == hex_of(b) ==> a == b,
    decreases a.len(),
{
    lemma_hex_len(a);
    lemma_hex_len(b);
    if hex_of(a) == hex_of(b) {
        assert(a.len() == b.len());
        if a.len() > 0 {
            let x = hex_of(a);
            let y = hex_of(b);
            assert(x.drop_last().drop_last() =~= hex_of(a.drop_last()));
            assert(y.drop_last().drop_last() =~= hex_of(b.drop_last()));
            law_hex_is_faithful(a.drop_last(), b.drop_last());
            let p = a.last() as int;
            let q = b.last() as int;
            assert(x[x.len() - 1] == hex_digit(p % 16) && y[y.len() - 1] == hex_digit(q % 16));
            assert(x[x.len() - 2] == hex_digit(p / 16) && y[y.len() - 2] == hex_digit(q / 16));
            lemma_hex_digit(p % 16, q % 16);
            lemma_hex_digit(p / 16, q / 16);
            assert(a =~= a.drop_last().push(a.last()));
            assert(b =~= b.drop_last().push(b.last()));
        } else {
            assert(a =~= b);
        }
    }
}

proof fn lemma_hex_len(a: Seq<u8>)
    ensures
        hex_of(a).len() == 2 * a.len(),
    decreases a.len(),
{
    if a.len() > 0 {
        lemma_hex_len(a.drop_last());
    }
}

proof fn lemma_hex_digit(m: int, n: int)
    requires
        0 <= m < 16,
        0 <= n < 16,
        hex_digit(m) == hex_digit(n),
    ensures
        m == n,
{
    assert(hex_digit(m) as int == if m < 10 {
        48 + m
    } else {
        87 + m
    });
    assert(hex_digit(n) as int == if n < 10 {
        48 + n
    } else {
        87 + n
    });
}

/// One staged file: its pack-relative path, size, and content digest.
#[derive(Debug, Clone)]
pub struct StagedFile {
    /// Path relative to the pack root, as named by the manifest.
    pub rel: String,
    /// Size in bytes.
    pub size: u64,
    /// Lowercase hex sha256 of the contents.
    pub sha256: String,
}

/// The model of a [`StagedFile`].
pub struct StagedFileView {
    pub rel: Seq<char>,
    pub size: nat,
    pub sha256: Seq<char>,
}

impl View for StagedFile {
    type V = StagedFileView;

    open spec fn view(&self) -> StagedFileView {
        StagedFileView { rel: self.rel@, size: self.size as nat, sha256: self.sha256@ }
    }
}

/// The staged file of a path and its contents.
pub open spec fn staged_of(rel: Seq<char>, bytes: Seq<u8>) -> StagedFileView {
    StagedFileView { rel, size: bytes.len(), sha256: hex_of(sha256_of(bytes)) }
}

/// Contents of files by their bytes.
pub open spec fn contents_views(contents: Seq<Vec<u8>>) -> Seq<Seq<u8>> {
    contents.map_values(|bytes: Vec<u8>| bytes@)
}

/// The staged files of a closure and the contents of its files, in order.
pub open spec fn staged_files(closure: Seq<(Seq<char>, u64)>, contents: Seq<Seq<u8>>) -> Seq<
    StagedFileView,
> {
    Seq::new(closure.len(), |i: int| staged_of(closure[i].0, contents[i]))
}

/// Compute the closure digests of a pack from the contents of its closure's
/// files, in order. Nothing where their number is not that of the closure.
pub fn file_digests(manifest: &Manifest, contents: &Vec<Vec<u8>>) -> (out: Option<Vec<StagedFile>>)
    ensures
        match out {
            Some(files) => contents@.len() == closure_of(manifest@).len() && views(files@)
                == staged_files(closure_of(manifest@), contents_views(contents@)),
            None => contents@.len() != closure_of(manifest@).len(),
        },
{
    let files = closure(manifest);
    let ghost named = closure_of(manifest@);
    assert(named.len() == files@.len());
    if files.len() != contents.len() {
        return None;
    }
    let ghost all = staged_files(named, contents_views(contents@));
    let mut out: Vec<StagedFile> = Vec::new();
    let mut i: usize = 0;
    assert(views(out@) =~= all.take(0));
    while i < files.len()
        invariant
            i <= files@.len(),
            files@.len() == contents@.len(),
            named == capped_views(files@),
            all == staged_files(named, contents_views(contents@)),
            views(out@) == all.take(i as int),
        decreases files@.len() - i,
    {
        let ghost before = views(out@);
        let bytes = &contents[i];
        let file = StagedFile {
            rel: files[i].0.clone(),
            size: bytes.len() as u64,
            sha256: sha256_hex(bytes.as_slice()),
        };
        out.push(file);
        proof {
            assert(named[i as int].0 == files@[i as int].0@);
            assert(contents_views(contents@)[i as int] == bytes@);
            assert(all[i as int] == file@);
            assert(views(out@) =~= before.push(file@));
            assert(views(out@) =~= all.take(i + 1));
        }
        i += 1;
    }
    assert(all.take(i as int) =~= all);
    Some(out)
}

/// A pack staged under the destination packs root, validated and ready to
/// [`commit`].
#[derive(Debug)]
pub struct Staged {
    /// The staging directory.
    pub dir: String,
    /// The packs root it is for.
    pub packs_root: String,
    /// The staged pack, loaded from the staging directory.
    pub pack: Pack,
    /// Digests of every staged file.
    pub files: Vec<StagedFile>,
}

impl Staged {
    /// The pack's name (and therefore its final directory name).
    #[must_use]
    pub fn name(&self) -> (out: &str)
        ensures
            out@ == self.pack@.manifest.name,
    {
        self.pack.name()
    }

    /// The staging directory the files currently live in.
    #[must_use]
    pub fn dir(&self) -> (out: &str)
        ensures
            out@ == self.dir@,
    {
        self.dir.as_str()
    }
}

/// What reading the `pack.toml` of an install source gave.
#[derive(Debug)]
pub enum SourceRead {
    /// The bytes are not text.
    NotText,
    /// The text is not a manifest.
    Malformed(String),
    /// The text is a manifest.
    Parsed(Manifest),
}

/// The error that keeps an install source from being used, if any.
pub open spec fn source_fault(source: Seq<char>, read: SourceRead, current: Seq<char>) -> Option<
    ErrorView,
> {
    match read {
        SourceRead::NotText => Some(ErrorView::PackFile { pack: source, file: "pack.toml"@ }),
        SourceRead::Malformed(message) => Some(
            ErrorView::Toml { path: joined_path(source, "pack.toml"@), message: message@ },
        ),
        SourceRead::Parsed(manifest) => match manifest_fault(manifest@, current) {
            Some(fault) => Some(fault),
            None => if is_plain_name(manifest@.name) {
                None
            } else {
                Some(
                    ErrorView::UnsafePath {
                        pack: manifest@.name,
                        field: "pack.name"@,
                        value: manifest@.name,
                    },
                )
            },
        },
    }
}

/// Pre-validate the manifest of an install source: what makes joining the
/// closure paths safe. The authoritative check still runs on the staged copy.
///
/// # Errors
///
/// A file that is no manifest, the first rule that the manifest breaks, or a
/// name that is not one plain path component.
pub fn source_manifest(source: &str, read: SourceRead, current: &str) -> (out: Result<
    Manifest,
    Error,
>)
    ensures
        match out {
            Ok(manifest) => read == SourceRead::Parsed(manifest) && source_fault(
                source@,
                read,
                current@,
            ) is None,
            Err(e) => source_fault(source@, read, current@) == Some(e@),
        },
{
    match read {
        SourceRead::NotText => Err(
            Error::PackFile { pack: owned(source), file: owned("pack.toml") },
        ),
        SourceRead::Malformed(message) => Err(
            Error::Toml { path: join_path(source, "pack.toml"), message },
        ),
        SourceRead::Parsed(manifest) => {
            if let Err(e) = validate(&manifest, current) {
                return Err(e);
            }
            let name = &manifest.pack.name;
            if !is_safe_name(name.as_str()) {
                return Err(
                    Error::UnsafePath {
                        pack: name.clone(),
                        field: owned("pack.name"),
                        value: name.clone(),
                    },
                );
            }
            Ok(manifest)
        },
    }
}

/// The directory that a pack is staged in.
pub open spec fn staging_path(packs_root: Seq<char>, name: Seq<char>, tag: Seq<char>) -> Seq<char> {
    joined_path(joined_path(packs_root, ".staging"@), name + "."@ + tag)
}

/// The directory that a pack is staged in. `tag` is unique to the process and
/// the install.
pub fn staging_dir(packs_root: &str, name: &str, tag: &str) -> (out: String)
    ensures
        out@ == staging_path(packs_root@, name@, tag@),
{
    join_path(join_path(packs_root, ".staging").as_str(), concat3(name, ".", tag).as_str())
}

/// A pack staged in its staging directory, given the pack that was loaded from
/// there and the contents of its closure's files, in order.
pub fn stage(packs_root: &str, tag: &str, pack: Pack, contents: &Vec<Vec<u8>>) -> (out: Option<
    Staged,
>)
    ensures
        match out {
            Some(staged) => staged.pack == pack && staged.packs_root@ == packs_root@
                && staged.dir@ == staging_path(packs_root@, pack@.manifest.name, tag@)
                && contents@.len() == closure_of(pack@.manifest).len() && views(staged.files@)
                == staged_files(closure_of(pack@.manifest), contents_views(contents@)),
            None => contents@.len() != closure_of(pack@.manifest).len(),
        },
{
    let dir = staging_dir(packs_root, pack.name(), tag);
    match file_digests(&pack.manifest, contents) {
        Some(files) => Some(Staged { dir, packs_root: owned(packs_root), pack, files }),
        None => None,
    }
}

/// Whether a text is a run of digits.
pub open spec fn is_digits(s: Seq<char>) -> bool {
    s.len() > 0 && forall|i: int| 0 <= i < s.len() ==> '0' <= #[trigger] s[i] <= '9'
}

fn all_digits(s: &str) -> (yes: bool)
    ensures
        yes == is_digits(s@),
{
    let chars = chars_of(s);
    let mut i: usize = 0;
    while i < chars.len()
        invariant
            i <= chars@.len(),
            chars@ == s@,
            forall|j: int| 0 <= j < i ==> '0' <= #[trigger] s@[j] <= '9',
        decreases chars@.len() - i,
    {
        if chars[i] < '0' || chars[i] > '9' {
            return false;
        }
        i += 1;
    }
    chars.len() > 0
}

/// Whether a text is the tag of a staging directory: two runs of digits joined
/// by a dash.
pub open spec fn is_staging_tag(s: Seq<char>) -> bool {
    cut_once(s, "-"@) matches Some((pid, seq)) && is_digits(pid) && is_digits(seq)
}

/// True when `suffix` is a `<pid>-<seq>` staging tag: two non-empty runs
/// of ASCII digits joined by a single `-`. Used to sweep only real
/// staging leftovers, never a differently-named pack's directory.
pub fn is_staging_suffix(suffix: &str) -> (yes: bool)
    ensures
        yes == is_staging_tag(suffix@),
{
    match split_once(suffix, "-") {
        Some((pid, seq)) => all_digits(pid.as_str()) && all_digits(seq.as_str()),
        None => false,
    }
}

/// Whether a directory of the staging area is a leftover of an interrupted
/// install of a pack.
pub open spec fn is_leftover_of(file_name: Seq<char>, name: Seq<char>) -> bool {
    let lead = name + "."@;
    lead.is_prefix_of(file_name) && is_staging_tag(file_name.skip(lead.len() as int))
}

/// Whether a directory of the staging area is a leftover of an interrupted
/// install of a pack. A bare `<name>.` prefix would also match the live staging
/// directory of another pack whose name contains a dot.
pub fn is_leftover(file_name: &str, name: &str) -> (yes: bool)
    ensures
        yes == is_leftover_of(file_name@, name@),
{
    match strip_prefix(file_name, concat2(name, ".").as_str()) {
        Some(suffix) => is_staging_suffix(suffix.as_str()),
        None => false,
    }
}

proof fn lemma_tag_has_no_dot(tag: Seq<char>, i: int)
    requires
        is_staging_tag(tag),
        0 <= i < tag.len(),
    ensures
        tag[i] != '.',
{
    reveal_strlit("-");
    crate::text::lemma_first_from(tag, "-"@, 0);
    let at = crate::text::first_from(tag, "-"@, 0)->0;
    assert(tag.subrange(at, at + 1) =~= "-"@);
    assert(tag.subrange(at, at + 1)[0] == '-');
    if i < at {
        assert(tag.take(at)[i] == tag[i]);
    } else if i > at {
        assert(tag.skip(at + 1)[i - at - 1] == tag[i]);
    }
}

/// Sweeping leftovers of one pack never touches what is staged for another.
pub proof fn law_leftovers_belong_to_one_pack(name: Seq<char>, other: Seq<char>, tag: Seq<char>)
    requires
        is_staging_tag(tag),
        name != other,
    ensures
        !is_leftover_of(other + "."@ + tag, name),
{
    reveal_strlit(".");
    let dir = other + "."@ + tag;
    let lead = name + "."@;
    if is_leftover_of(dir, name) {
        let rest = dir.skip(lead.len() as int);
        assert(dir[name.len() as int] == lead[name.len() as int]);
        assert(dir[other.len() as int] == '.');
        if name.len() < other.len() {
            assert(rest[other.len() - name.len() - 1] == dir[other.len() as int]);
            lemma_tag_has_no_dot(rest, other.len() - name.len() - 1);
        } else if name.len() > other.len() {
            let i = name.len() - other.len() - 1;
            assert(dir[name.len() as int] == tag[i]);
            lemma_tag_has_no_dot(tag, i);
        } else {
            assert forall|i: int| 0 <= i < name.len() implies name[i] == other[i] by {
                assert(lead[i] == dir[i]);
            }
            assert(name =~= other);
        }
    }
}

/// How a staged pack moves into place.
#[derive(Debug)]
pub enum CommitPlan {
    /// One rename.
    Move {
        /// The staging directory.
        from: String,
        /// Where the pack goes.
        to: String,
    },
    /// A swap through a trash directory; the old pack is restored if the swap
    /// fails partway.
    Swap {
        /// The staging directory.
        from: String,
        /// Where the pack goes.
        to: String,
        /// Where the old pack goes meanwhile.
        trash: String,
    },
}

/// The model of a [`CommitPlan`].
pub enum CommitPlanView {
    Move { from: Seq<char>, to: Seq<char> },
    Swap { from: Seq<char>, to: Seq<char>, trash: Seq<char> },
}

impl View for CommitPlan {
    type V = CommitPlanView;

    open spec fn view(&self) -> CommitPlanView {
        match *self {
            CommitPlan::Move { from, to } => CommitPlanView::Move { from: from@, to: to@ },
            CommitPlan::Swap { from, to, trash } => CommitPlanView::Swap {
                from: from@,
                to: to@,
                trash: trash@,
            },
        }
    }
}

/// Plan the move of a staged pack into `<packs_root>/<name>`. `exists` tells
/// whether something is there already.
///
/// # Errors
///
/// [`Error::AlreadyInstalled`] without `force`.
pub fn commit(staged: &Staged, exists: bool, force: bool, tag: &str) -> (out: Result<
    CommitPlan,
    Error,
>)
    ensures
        ({
            let name = staged.pack@.manifest.name;
            let to = joined_path(staged.packs_root@, name);
            match out {
                Err(e) => exists && !force && e@ == (ErrorView::AlreadyInstalled { name, path: to }),
                Ok(plan) => if exists {
                    force && plan@ == (CommitPlanView::Swap {
                        from: staged.dir@,
                        to,
                        trash: joined_path(
                            joined_path(staged.packs_root@, ".trash"@),
                            name + "."@ + tag@,
                        ),
                    })
                } else {
                    plan@ == (CommitPlanView::Move { from: staged.dir@, to })
                },
            }
        }),
{
    let to = join_path(staged.packs_root.as_str(), staged.name());
    if exists && !force {
        return Err(Error::AlreadyInstalled { name: owned(staged.name()), path: to });
    }
    let from = owned(staged.dir());
    if exists {
        let trash_root = join_path(staged.packs_root.as_str(), ".trash");
        let trash = join_path(trash_root.as_str(), concat3(staged.name(), ".", tag).as_str());
        Ok(CommitPlan::Swap { from, to, trash })
    } else {
        Ok(CommitPlan::Move { from, to })
    }
}

/// Where an installed pack came from, recorded in its receipt.
#[derive(Debug, Clone)]
pub struct Provenance {
    /// `"curated"`, `"git"`, or `"path"`.
    pub source: String,
    /// Remote URL, for git-backed sources.
    pub url: Option<String>,
    /// The ref as requested (branch or tag), when one was given.
    pub reference: Option<String>,
    /// The resolved commit hash, for git-backed sources.
    pub commit: Option<String>,
}

/// The `[install]` table of a receipt.
#[derive(Debug)]
pub struct ReceiptInstall {
    /// `"curated"`, `"git"`, or `"path"`.
    pub source: String,
    /// Remote URL, for git-backed sources.
    pub url: Option<String>,
    /// The ref as requested (branch or tag).
    pub reference: Option<String>,
    /// The resolved commit hash.
    pub commit: Option<String>,
    /// The btt that performed the install.
    pub installed_by: String,
    /// Install time, RFC 3339 UTC.
    pub date: String,
}

/// A pack's install receipt: provenance plus per-file digests.
#[derive(Debug)]
pub struct Receipt {
    /// Provenance of the install.
    pub install: ReceiptInstall,
    /// `sha256:<hex>` per pack-relative file path, by path.
    pub files: Vec<(String, String)>,
}

/// Digests by path with one more in its place; a path that is already there
/// gets the new digest.
pub open spec fn insert_digest(
    digests: Seq<(Seq<char>, Seq<char>)>,
    entry: (Seq<char>, Seq<char>),
) -> Seq<(Seq<char>, Seq<char>)>
    decreases digests.len(),
{
    if digests.len() == 0 || text_less(digests.last().0, entry.0) {
        digests.push(entry)
    } else if digests.last().0 == entry.0 {
        digests.drop_last().push(entry)
    } else {
        insert_digest(digests.drop_last(), entry).push(digests.last())
    }
}

/// The digests of staged files, by path.
pub open spec fn digests_of(files: Seq<StagedFileView>) -> Seq<(Seq<char>, Seq<char>)>
    decreases files.len(),
{
    if files.len() == 0 {
        Seq::empty()
    } else {
        insert_digest(
            digests_of(files.drop_last()),
            (files.last().rel, "sha256:"@ + files.last().sha256),
        )
    }
}

/// Pairs of texts by their models.
pub open spec fn digest_views(digests: Seq<(String, String)>) -> Seq<(Seq<char>, Seq<char>)> {
    digests.map_values(|d: (String, String)| (d.0@, d.1@))
}

fn put_digest(digests: &mut Vec<(String, String)>, rel: String, digest: String)
    ensures
        digest_views(final(digests)@) == insert_digest(
            digest_views(old(digests)@),
            (rel@, digest@),
        ),
{
    let ghost before = digest_views(digests@);
    let ghost entry = (rel@, digest@);
    let mut at: usize = digests.len();
    assert(before.take(at as int) =~= before);
    assert(insert_digest(before, entry) + before.skip(at as int) =~= insert_digest(before, entry));
    while at > 0 && !less(digests[at - 1].0.as_str(), rel.as_str())
        invariant
            at <= digests@.len(),
            before == digest_views(digests@),
            before == digest_views(old(digests)@),
            entry == (rel@, digest@),
            insert_digest(before, entry) == insert_digest(before.take(at as int), entry)
                + before.skip(at as int),
        decreases at,
    {
        let ghost head = before.take(at as int);
        assert(head.last() == (digests@[at - 1].0@, digests@[at - 1].1@));
        if same(digests[at - 1].0.as_str(), rel.as_str()) {
            assert(head.last().0 == entry.0);
            assert(insert_digest(head, entry) == head.drop_last().push(entry));
            digests.set(at - 1, (rel, digest));
            assert(digest_views(digests@) =~= head.drop_last().push(entry) + before.skip(
                at as int,
            ));
            return;
        }
        proof {
            assert(head.drop_last() =~= before.take(at - 1));
            assert(insert_digest(head.drop_last(), entry).push(head.last()) + before.skip(at as int)
                =~= insert_digest(before.take(at - 1), entry) + before.skip(at - 1));
        }
        at -= 1;
    }
    proof {
        if at > 0 {
            assert(before.take(at as int).last() == (digests@[at - 1].0@, digests@[at - 1].1@));
        }
    }
    digests.insert(at, (rel, digest));
    assert(digest_views(digests@) =~= before.take(at as int).push(entry) + before.skip(at as int));
}

/// The digests of staged files, by path.
pub fn digest_map(files: &Vec<StagedFile>) -> (out: Vec<(String, String)>)
    ensures
        digest_views(out@) == digests_of(views(files@)),
{
    let ghost all = views(files@);
    let mut out: Vec<(String, String)> = Vec::new();
    let mut i: usize = 0;
    assert(all.take(0) =~= Seq::empty());
    assert(digest_views(out@) =~= Seq::empty());
    while i < files.len()
        invariant
            i <= files@.len(),
            all == views(files@),
            digest_views(out@) == digests_of(all.take(i as int)),
        decreases files@.len() - i,
    {
        assert(all.take(i + 1).drop_last() =~= all.take(i as int));
        assert(all.take(i + 1).last() == files@[i as int]@);
        let digest = concat2("sha256:", files[i].sha256.as_str());
        put_digest(&mut out, files[i].rel.clone(), digest);
        i += 1;
    }
    assert(all.take(i as int) =~= all);
    out
}

/// The install receipt of a staged pack: `now` is in seconds since the unix
/// epoch, and `version` is that of the running btt.
pub fn write_receipt(staged: &Staged, prov: &Provenance, now: u64, version: &str) -> (out: Receipt)
    ensures
        out.install.source@ == prov.source@,
        opt_view(out.install.url) == opt_view(prov.url),
        opt_view(out.install.reference) == opt_view(prov.reference),
        opt_view(out.install.commit) == opt_view(prov.commit),
        out.install.installed_by@ == "btt "@ + version@,
        exists|date: crate::dates::Date|
            crate::dates::is_date(date) && crate::dates::day_number(date)
                == crate::dates::shown_seconds(now) / 86400 && out.install.date@
                == #[trigger] crate::dates::rfc3339_text(
                date,
                crate::dates::shown_seconds(now) % 86400,
            ),
        digest_views(out.files@) == digests_of(views(staged.files@)),
{
    let install = ReceiptInstall {
        source: prov.source.clone(),
        url: copy_text(&prov.url),
        reference: copy_text(&prov.reference),
        commit: copy_text(&prov.commit),
        installed_by: concat2("btt ", version),
        date: rfc3339_utc(now),
    };
    Receipt { install, files: digest_map(&staged.files) }
}

fn copy_text(s: &Option<String>) -> (out: Option<String>)
    ensures
        opt_view(out) == opt_view(*s),
{
    match s {
        Some(s) => Some(s.clone()),
        None => None,
    }
}

/// What stands where a pack would be installed.
#[derive(Debug)]
pub enum Installed {
    /// Nothing.
    Missing,
    /// A symlink.
    Symlink,
    /// Something that is not a directory.
    Other,
    /// A directory: where it and the packs root really are, with all links
    /// followed, or why that cannot be told.
    Directory {
        /// Where the directory is.
        place: Result<String, String>,
        /// Where the packs root is.
        root: Result<String, String>,
    },
}

/// Why an entry of a packs root cannot be removed, if so.
pub open spec fn removal_fault(packs_root: Seq<char>, name: Seq<char>, found: Installed) -> Option<
    ErrorView,
> {
    let path = joined_path(packs_root, name);
    if !is_plain_name(name) {
        Some(ErrorView::UnsafePath { pack: name, field: "pack name"@, value: name })
    } else {
        match found {
            Installed::Missing => Some(
                ErrorView::NotRemovable { path, reason: "not installed here"@ },
            ),
            Installed::Symlink => Some(
                ErrorView::NotRemovable {
                    path,
                    reason: "it is a symlink, not an installed pack directory"@,
                },
            ),
            Installed::Other => Some(ErrorView::NotRemovable { path, reason: "not a directory"@ }),
            Installed::Directory { place, root } => match (place, root) {
                (Err(message), _) => Some(ErrorView::Io { path, message: message@ }),
                (_, Err(message)) => Some(ErrorView::Io { path: packs_root, message: message@ }),
                (Ok(place), Ok(root)) => match parent_of(place@) {
                    Some(above) if components_of(above) == components_of(root@) => None,
                    _ => Some(
                        ErrorView::NotRemovable {
                            path,
                            reason: "it resolves outside the packs directory"@,
                        },
                    ),
                },
            },
        }
    }
}

/// The directory that removing an installed pack deletes. Guards: the name must
/// be a single normal path component, and the entry must be a real directory
/// (not a symlink) physically inside `packs_root`.
///
/// # Errors
///
/// [`Error::UnsafePath`] for a bad name, [`Error::NotRemovable`] for a
/// missing/symlinked/non-directory entry, or I/O failure.
pub fn remove(packs_root: &str, name: &str, found: &Installed) -> (out: Result<String, Error>)
    ensures
        match out {
            Ok(path) => removal_fault(packs_root@, name@, *found) is None && path@ == joined_path(
                packs_root@,
                name@,
            ),
            Err(e) => removal_fault(packs_root@, name@, *found) == Some(e@),
        },
{
    if !is_safe_name(name) {
        return Err(
            Error::UnsafePath { pack: owned(name), field: owned("pack name"), value: owned(name) },
        );
    }
    let path = join_path(packs_root, name);
    let reason = match found {
        Installed::Missing => "not installed here",
        Installed::Symlink => "it is a symlink, not an installed pack directory",
        Installed::Other => "not a directory",
        Installed::Directory { place, root } => {
            let place = match place {
                Ok(place) => place,
                Err(message) => {
                    return Err(Error::Io { path, message: message.clone() });
                },
            };
            let root = match root {
                Ok(root) => root,
                Err(message) => {
                    return Err(Error::Io { path: owned(packs_root), message: message.clone() });
                },
            };
            if let Some(above) = parent(place.as_str()) {
                if same_path(above.as_str(), root.as_str()) {
                    return Ok(path);
                }
            }
            "it resolves outside the packs directory"
        },
    };
    Err(Error::NotRemovable { path, reason: owned(reason) })
}

/// How far below a directory its packs are looked for.
pub const DISCOVERY_DEPTH: usize = 4;

/// Whether looking for packs goes into a directory: hidden ones (`.git`,
/// `.staging`, …) are not descended into, except the first.
pub fn descends(depth: usize, name: &str) -> (yes: bool)
    ensures
        yes == (depth == 0 || !"."@.is_prefix_of(name@)),
{
    depth == 0 || !starts_with(name, ".")
}

/// The directories of the files that are named `pack.toml`.
pub open spec fn pack_dirs(files: Seq<Seq<char>>) -> Seq<Seq<char>>
    decreases files.len(),
{
    if files.len() == 0 {
        Seq::empty()
    } else {
        let before = pack_dirs(files.drop_last());
        match parent_of(files.last()) {
            Some(dir) if file_name_of(files.last()) == Some("pack.toml"@) => before.push(dir),
            _ => before,
        }
    }
}

fn is_manifest(path: &str) -> (yes: bool)
    ensures
        yes == (file_name_of(path@) == Some("pack.toml"@)),
{
    match file_name(path) {
        Some(name) => same(name.as_str(), "pack.toml"),
        None => false,
    }
}

/// The pack directories (those holding a `pack.toml`) among the regular files
/// that a walk of a directory found, in path order.
pub fn discover(files: &Vec<String>) -> (out: Vec<String>)
    ensures
        views(out@) == path_set(pack_dirs(views(files@))),
{
    let ghost all = views(files@);
    let mut dirs: Vec<String> = Vec::new();
    let mut i: usize = 0;
    assert(all.take(0) =~= Seq::empty());
    assert(views(dirs@) =~= Seq::empty());
    while i < files.len()
        invariant
            i <= files@.len(),
            all == views(files@),
            views(dirs@) == pack_dirs(all.take(i as int)),
        decreases files@.len() - i,
    {
        let ghost before = views(dirs@);
        assert(all.take(i + 1).drop_last() =~= all.take(i as int));
        assert(all.take(i + 1).last() == files@[i as int]@);
        let path = files[i].as_str();
        if is_manifest(path) {
            if let Some(dir) = parent(path) {
                let ghost dir_view = dir@;
                dirs.push(dir);
                assert(views(dirs@) =~= before.push(dir_view));
            }
        }
        i += 1;
    }
    assert(all.take(i as int) =~= all);
    ordered_paths(dirs.as_slice())
}

/// A temporary shallow git checkout.
#[derive(Debug)]
pub struct Checkout {
    /// Where the checkout is.
    pub dir: String,
    /// The commit the checkout resolved to.
    pub commit: String,
}

impl Checkout {
    /// The checkout's directory.
    #[must_use]
    pub fn dir(&self) -> (out: &str)
        ensures
            out@ == self.dir@,
    {
        self.dir.as_str()
    }
}

/// The arguments of git that shallow-clone a repository, optionally at a branch
/// or tag. What follows `--` cannot be taken for an option.
pub open spec fn clone_words(url: Seq<char>, reference: Option<Seq<char>>, dir: Seq<char>) -> Seq<
    Seq<char>,
> {
    let branch = match reference {
        Some(reference) => seq!["--branch"@, reference],
        None => Seq::empty(),
    };
    seq!["clone"@, "--quiet"@, "--depth"@, "1"@] + branch + seq!["--"@, url, dir]
}

/// The arguments of git that shallow-clone a repository into a directory,
/// optionally at a branch or tag.
pub fn clone_args(url: &str, reference: Option<&str>, dir: &str) -> (out: Vec<String>)
    ensures
        views(out@) == clone_words(
            url@,
            match reference {
                Some(reference) => Some(reference@),
                None => None,
            },
            dir@,
        ),
{
    let mut args: Vec<String> = Vec::new();
    args.push(owned("clone"));
    args.push(owned("--quiet"));
    args.push(owned("--depth"));
    args.push(owned("1"));
    if let Some(reference) = reference {
        args.push(owned("--branch"));
        args.push(owned(reference));
    }
    args.push(owned("--"));
    args.push(owned(url));
    args.push(owned(dir));
    assert(views(args@) =~= clone_words(
        url@,
        match reference {
            Some(reference) => Some(reference@),
            None => None,
        },
        dir@,
    ));
    args
}

/// One pack offered by the curated index.
#[derive(Debug)]
pub struct IndexEntry {
    /// Pack name (equals its manifest name and install directory).
    pub name: String,
    /// Grammar kind, e.g. `wasm` or `builtin`.
    pub kind: String,
    /// One-line description, from the manifest.
    pub description: String,
    /// Directory of the pack inside the repo at the pinned tag.
    pub dir: String,
    /// `sha256:<hex>` per pack-relative file path, by path — the complete
    /// closure.
    pub files: Vec<(String, String)>,
}

/// The model of an [`IndexEntry`].
pub struct IndexEntryView {
    pub name: Seq<char>,
    pub kind: Seq<char>,
    pub description: Seq<char>,
    pub dir: Seq<char>,
    pub files: Seq<(Seq<char>, Seq<char>)>,
}

impl View for IndexEntry {
    type V = IndexEntryView;

    open spec fn view(&self) -> IndexEntryView {
        IndexEntryView {
            name: self.name@,
            kind: self.kind@,
            description: self.description@,
            dir: self.dir@,
            files: digest_views(self.files@),
        }
    }
}

/// The curated pack index: an immutable release tag plus per-file digests for
/// every offered pack. Installs fetch at the tag and verify every byte against
/// these digests.
#[derive(Debug)]
pub struct Index {
    /// The immutable git tag the digests were computed at.
    pub tag: String,
    /// Offered packs.
    pub packs: Vec<IndexEntry>,
}

/// The digest of a file.
pub open spec fn digest_for(digests: Seq<(Seq<char>, Seq<char>)>, file: Seq<char>) -> Option<
    Seq<char>,
>
    decreases digests.len(),
{
    if digests.len() == 0 {
        None
    } else if digests.last().0 == file {
        Some(digests.last().1)
    } else {
        digest_for(digests.drop_last(), file)
    }
}

fn find_digest<'a>(digests: &'a Vec<(String, String)>, file: &str) -> (out: Option<&'a String>)
    ensures
        match out {
            Some(digest) => digest_for(digest_views(digests@), file@) == Some(digest@),
            None => digest_for(digest_views(digests@), file@) is None,
        },
{
    let ghost all = digest_views(digests@);
    let mut i: usize = digests.len();
    assert(all.take(i as int) =~= all);
    while i > 0
        invariant
            i <= digests@.len(),
            all == digest_views(digests@),
            digest_for(all, file@) == digest_for(all.take(i as int), file@),
        decreases i,
    {
        assert(all.take(i as int).drop_last() =~= all.take(i - 1));
        assert(all.take(i as int).last() == (digests@[i - 1].0@, digests@[i - 1].1@));
        i -= 1;
        if same(digests[i].0.as_str(), file) {
            return Some(&digests[i].1);
        }
    }
    None
}

/// The first file whose digest is not the wanted one.
pub open spec fn first_changed(
    want: Seq<(Seq<char>, Seq<char>)>,
    got: Seq<(Seq<char>, Seq<char>)>,
) -> Option<Seq<char>>
    decreases want.len(),
{
    if want.len() == 0 {
        None
    } else {
        match first_changed(want.drop_last(), got) {
            Some(file) => Some(file),
            None => if digest_for(got, want.last().0) == Some(want.last().1) {
                None
            } else {
                Some(want.last().0)
            },
        }
    }
}

/// The first file that is not wanted.
pub open spec fn first_extra(
    got: Seq<(Seq<char>, Seq<char>)>,
    want: Seq<(Seq<char>, Seq<char>)>,
) -> Option<Seq<char>>
    decreases got.len(),
{
    if got.len() == 0 {
        None
    } else {
        match first_extra(got.drop_last(), want) {
            Some(file) => Some(file),
            None => if digest_for(want, got.last().0) is Some {
                None
            } else {
                Some(got.last().0)
            },
        }
    }
}

/// The first file by which a pack is not the curated one: a wanted file with
/// another digest or none, or else a file that is not wanted.
pub open spec fn first_offending(
    got: Seq<(Seq<char>, Seq<char>)>,
    want: Seq<(Seq<char>, Seq<char>)>,
) -> Option<Seq<char>> {
    match first_changed(want, got) {
        Some(file) => Some(file),
        None => first_extra(got, want),
    }
}

proof fn lemma_changed_stays(
    want: Seq<(Seq<char>, Seq<char>)>,
    got: Seq<(Seq<char>, Seq<char>)>,
    n: int,
)
    requires
        0 <= n <= want.len(),
        first_changed(want.take(n), got) is Some,
    ensures
        first_changed(want, got) == first_changed(want.take(n), got),
    decreases want.len(),
{
    if n < want.len() {
        assert(want.drop_last().take(n) =~= want.take(n));
        lemma_changed_stays(want.drop_last(), got, n);
    } else {
        assert(want.take(n) =~= want);
    }
}

proof fn lemma_extra_stays(
    got: Seq<(Seq<char>, Seq<char>)>,
    want: Seq<(Seq<char>, Seq<char>)>,
    n: int,
)
    requires
        0 <= n <= got.len(),
        first_extra(got.take(n), want) is Some,
    ensures
        first_extra(got, want) == first_extra(got.take(n), want),
    decreases got.len(),
{
    if n < got.len() {
        assert(got.drop_last().take(n) =~= got.take(n));
        lemma_extra_stays(got.drop_last(), want, n);
    } else {
        assert(got.take(n) =~= got);
    }
}

/// Verify a staged pack byte-for-byte against its curated index entry:
/// the staged file set must equal the index file set, digest by digest.
///
/// # Errors
///
/// [`Error::DigestMismatch`] naming the first offending file.
pub fn verify_curated(staged: &Staged, entry: &IndexEntry) -> (out: Result<(), Error>)
    ensures
        match first_offending(digests_of(views(staged.files@)), entry@.files) {
            None => out is Ok,
            Some(file) => out matches Err(e) && e@ == (ErrorView::DigestMismatch {
                name: entry@.name,
                file,
            }),
        },
{
    let digests = digest_map(&staged.files);
    let ghost got = digest_views(digests@);
    let ghost want = digest_views(entry.files@);
    let mut i: usize = 0;
    assert(want.take(0) =~= Seq::empty());
    while i < entry.files.len()
        invariant
            i <= entry.files@.len(),
            got == digest_views(digests@),
            got == digests_of(views(staged.files@)),
            want == digest_views(entry.files@),
            first_changed(want.take(i as int), got) is None,
        decreases entry.files@.len() - i,
    {
        assert(want.take(i + 1).drop_last() =~= want.take(i as int));
        assert(want.take(i + 1).last() == (entry.files@[i as int].0@, entry.files@[i as int].1@));
        let file = &entry.files[i].0;
        let intact = match find_digest(&digests, file.as_str()) {
            Some(digest) => same(digest.as_str(), entry.files[i].1.as_str()),
            None => false,
        };
        if !intact {
            proof {
                lemma_changed_stays(want, got, i + 1);
            }
            return Err(Error::DigestMismatch { name: entry.name.clone(), file: file.clone() });
        }
        i += 1;
    }
    assert(want.take(i as int) =~= want);
    let mut k: usize = 0;
    assert(got.take(0) =~= Seq::empty());
    while k < digests.len()
        invariant
            k <= digests@.len(),
            got == digest_views(digests@),
            got == digests_of(views(staged.files@)),
            want == digest_views(entry.files@),
            first_changed(want, got) is None,
            first_extra(got.take(k as int), want) is None,
        decreases digests@.len() - k,
    {
        assert(got.take(k + 1).drop_last() =~= got.take(k as int));
        assert(got.take(k + 1).last() == (digests@[k as int].0@, digests@[k as int].1@));
        let file = &digests[k].0;
        if find_digest(&entry.files, file.as_str()).is_none() {
            proof {
                lemma_extra_stays(got, want, k + 1);
            }
            return Err(Error::DigestMismatch { name: entry.name.clone(), file: file.clone() });
        }
        k += 1;
    }
    assert(got.take(k as int) =~= got);
    Ok(())
}

/// Whether every file has one digest, and they are by path.
pub open spec fn is_digest_map(digests: Seq<(Seq<char>, Seq<char>)>) -> bool {
    forall|i: int, j: int|
        0 <= i < j < digests.len() ==> text_less(
            (#[trigger] digests[i]).0,
            (#[trigger] digests[j]).0,
        )
}

proof fn lemma_insert_digest(digests: Seq<(Seq<char>, Seq<char>)>, entry: (Seq<char>, Seq<char>))
    requires
        is_digest_map(digests),
    ensures
        is_digest_map(insert_digest(digests, entry)),
        forall|i: int|
            0 <= i < insert_digest(digests, entry).len() ==> (#[trigger] insert_digest(
                digests,
                entry,
            )[i] == entry || digests.contains(insert_digest(digests, entry)[i])),
    decreases digests.len(),
{
    let out = insert_digest(digests, entry);
    if digests.len() == 0 {
    } else if text_less(digests.last().0, entry.0) {
        assert forall|i: int, j: int| 0 <= i < j < out.len() implies text_less(
            (#[trigger] out[i]).0,
            (#[trigger] out[j]).0,
        ) by {
            if j == digests.len() && i < digests.len() - 1 {
                lemma_less_transitive(digests[i].0, digests.last().0, entry.0);
            }
        }
        assert forall|i: int| 0 <= i < out.len() implies (#[trigger] out[i] == entry
            || digests.contains(out[i])) by {
            if i < digests.len() {
                assert(digests[i] == out[i]);
            }
        }
    } else if digests.last().0 == entry.0 {
        assert forall|i: int| 0 <= i < out.len() implies (#[trigger] out[i] == entry
            || digests.contains(out[i])) by {
            if i < digests.len() - 1 {
                assert(digests[i] == out[i]);
            }
        }
    } else {
        let rest = digests.drop_last();
        let inner = insert_digest(rest, entry);
        lemma_insert_digest(rest, entry);
        lemma_less_total(digests.last().0, entry.0);
        assert forall|i: int, j: int| 0 <= i < j < out.len() implies text_less(
            (#[trigger] out[i]).0,
            (#[trigger] out[j]).0,
        ) by {
            if j == inner.len() {
                assert(inner[i] == out[i]);
                if inner[i] != entry {
                    let k = choose|k: int| 0 <= k < rest.len() && rest[k] == inner[i];
                    assert(rest.contains(inner[i]));
                    assert(digests[k] == inner[i]);
                }
            } else {
                assert(inner[i] == out[i] && inner[j] == out[j]);
            }
        }
        assert forall|i: int| 0 <= i < out.len() implies (#[trigger] out[i] == entry
            || digests.contains(out[i])) by {
            if i < inner.len() {
                assert(inner[i] == out[i]);
                if inner[i] != entry {
                    let k = choose|k: int| 0 <= k < rest.len() && rest[k] == inner[i];
                    assert(rest.contains(inner[i]));
                    assert(digests[k] == inner[i]);
                }
            } else {
                assert(digests[digests.len() - 1] == out[i]);
            }
        }
    }
}

/// The digests in a receipt and in an index entry: one for each file, by path.
pub proof fn law_digests_form_a_map(files: Seq<StagedFileView>)
    ensures
        is_digest_map(digests_of(files)),
    decreases files.len(),
{
    if files.len() > 0 {
        law_digests_form_a_map(files.drop_last());
        lemma_insert_digest(
            digests_of(files.drop_last()),
            (files.last().rel, "sha256:"@ + files.last().sha256),
        );
    }
}

proof fn lemma_digest_for(digests: Seq<(Seq<char>, Seq<char>)>, i: int)
    requires
        is_digest_map(digests),
        0 <= i < digests.len(),
    ensures
        digest_for(digests, digests[i].0) == Some(digests[i].1),
    decreases digests.len(),
{
    if i < digests.len() - 1 {
        lemma_less_irreflexive(digests[i].0);
        assert(text_less(digests[i].0, digests.last().0));
        assert(digests.drop_last()[i] == digests[i]);
        lemma_digest_for(digests.drop_last(), i);
    }
}

proof fn lemma_found_digest(digests: Seq<(Seq<char>, Seq<char>)>, file: Seq<char>)
    requires
        digest_for(digests, file) is Some,
    ensures
        digests.contains((file, digest_for(digests, file)->0)),
    decreases digests.len(),
{
    if digests.last().0 == file {
        assert(digests[digests.len() - 1] == (file, digest_for(digests, file)->0));
    } else {
        lemma_found_digest(digests.drop_last(), file);
        let found = (file, digest_for(digests, file)->0);
        let k = choose|k: int| 0 <= k < digests.len() - 1 && digests.drop_last()[k] == found;
        assert(digests[k] == found);
    }
}

proof fn lemma_unchanged(
    want: Seq<(Seq<char>, Seq<char>)>,
    got: Seq<(Seq<char>, Seq<char>)>,
    i: int,
)
    requires
        first_changed(want, got) is None,
        0 <= i < want.len(),
    ensures
        digest_for(got, want[i].0) == Some(want[i].1),
    decreases want.len(),
{
    if i < want.len() - 1 {
        assert(want.drop_last()[i] == want[i]);
        lemma_unchanged(want.drop_last(), got, i);
    }
}

proof fn lemma_expected(
    got: Seq<(Seq<char>, Seq<char>)>,
    want: Seq<(Seq<char>, Seq<char>)>,
    i: int,
)
    requires
        first_extra(got, want) is None,
        0 <= i < got.len(),
    ensures
        digest_for(want, got[i].0) is Some,
    decreases got.len(),
{
    if i < got.len() - 1 {
        assert(got.drop_last()[i] == got[i]);
        lemma_expected(got.drop_last(), want, i);
    }
}

/// A pack passes the comparison with its curated entry just when it has the
/// same files with the same digests.
pub proof fn law_curated_packs_are_exact(
    got: Seq<(Seq<char>, Seq<char>)>,
    want: Seq<(Seq<char>, Seq<char>)>,
)
    requires
        is_digest_map(got),
        is_digest_map(want),
    ensures
        first_offending(got, want) is None <==> forall|entry: (Seq<char>, Seq<char>)|
            got.contains(entry) <==> want.contains(entry),
{
    if first_offending(got, want) is None {
        assert forall|entry: (Seq<char>, Seq<char>)|
            got.contains(entry) <==> want.contains(entry) by {
            if want.contains(entry) {
                let i = choose|i: int| 0 <= i < want.len() && want[i] == entry;
                lemma_unchanged(want, got, i);
                lemma_found_digest(got, entry.0);
            }
            if got.contains(entry) {
                let i = choose|i: int| 0 <= i < got.len() && got[i] == entry;
                lemma_expected(got, want, i);
                lemma_found_digest(want, entry.0);
                let wanted = (entry.0, digest_for(want, entry.0)->0);
                let k = choose|k: int| 0 <= k < want.len() && want[k] == wanted;
                lemma_unchanged(want, got, k);
                lemma_digest_for(got, i);
            }
        }
    } else {
        if first_changed(want, got) is Some {
            lemma_first_changed(want, got);
            let k = choose|k: int|
                0 <= k < want.len() && digest_for(got, (#[trigger] want[k]).0) != Some(want[k].1);
            assert(want.contains(want[k]));
            if got.contains(want[k]) {
                let i = choose|i: int| 0 <= i < got.len() && got[i] == want[k];
                lemma_digest_for(got, i);
            }
        } else {
            lemma_first_extra(got, want);
            let k = choose|k: int|
                0 <= k < got.len() && digest_for(want, (#[trigger] got[k]).0) is None;
            assert(got.contains(got[k]));
            if want.contains(got[k]) {
                let i = choose|i: int| 0 <= i < want.len() && want[i] == got[k];
                lemma_digest_for(want, i);
            }
        }
    }
}

proof fn lemma_first_changed(want: Seq<(Seq<char>, Seq<char>)>, got: Seq<(Seq<char>, Seq<char>)>)
    requires
        first_changed(want, got) is Some,
    ensures
        exists|k: int|
            0 <= k < want.len() && digest_for(got, (#[trigger] want[k]).0) != Some(want[k].1),
    decreases want.len(),
{
    if first_changed(want.drop_last(), got) is Some {
        lemma_first_changed(want.drop_last(), got);
        let rest = want.drop_last();
        let k = choose|k: int|
            0 <= k < rest.len() && digest_for(got, (#[trigger] rest[k]).0) != Some(rest[k].1);
        assert(want[k] == rest[k]);
    } else {
        assert(want[want.len() - 1] == want.last());
    }
}

proof fn lemma_first_extra(got: Seq<(Seq<char>, Seq<char>)>, want: Seq<(Seq<char>, Seq<char>)>)
    requires
        first_extra(got, want) is Some,
    ensures
        exists|k: int| 0 <= k < got.len() && digest_for(want, (#[trigger] got[k]).0) is None,
    decreases got.len(),
{
    if first_extra(got.drop_last(), want) is Some {
        lemma_first_extra(got.drop_last(), want);
        let rest = got.drop_last();
        let k = choose|k: int|
            0 <= k < rest.len() && digest_for(want, (#[trigger] rest[k]).0) is None;
        assert(got[k] == rest[k]);
    } else {
        assert(got[got.len() - 1] == got.last());
    }
}

/// What an install copies of a pack are its manifest, its query where it has
/// one, its template and its grammar where it ships one, each up to its limit;
/// nothing else.
pub proof fn law_installs_copy_what_the_manifest_names(
    m: ManifestView,
    file: Seq<char>,
    limit: u64,
)
    ensures
        closure_of(m).contains((file, limit)) <==> (file == "pack.toml"@ && limit == 256 * 1024)
            || (m.query == Some(file) && limit == 256 * 1024) || (file == m.template && limit == 256
            * 1024) || (m.source == GrammarSourceView::Wasm(file) && limit == 8 * 1024 * 1024),
{
    let all = closure_of(m);
    let query = match m.query {
        Some(file) => seq![(file, MAX_TEXT_BYTES)],
        None => Seq::empty(),
    };
    let n = 1 + query.len() as int;
    assert(all[0] == ("pack.toml"@, MAX_TEXT_BYTES));
    assert(all[n] == (m.template, MAX_TEXT_BYTES));
    if m.query is Some {
        assert(all[1] == (m.query->0, MAX_TEXT_BYTES));
    }
    if m.source is Wasm {
        assert(all[n + 1] == (m.source->Wasm_0, MAX_WASM_BYTES));
    }
    if all.contains((file, limit)) {
        let k = choose|k: int| 0 <= k < all.len() && all[k] == (file, limit);
        assert(k == 0 || k == n || (m.query is Some && k == 1) || k == n + 1);
    }
}

proof fn lemma_digest_inserted(
    digests: Seq<(Seq<char>, Seq<char>)>,
    entry: (Seq<char>, Seq<char>),
    file: Seq<char>,
)
    requires
        is_digest_map(digests),
    ensures
        digest_for(insert_digest(digests, entry), file) == if file == entry.0 {
            Some(entry.1)
        } else {
            digest_for(digests, file)
        },
    decreases digests.len(),
{
    let out = insert_digest(digests, entry);
    if digests.len() == 0 || text_less(digests.last().0, entry.0) {
        assert(out.drop_last() =~= digests);
    } else if digests.last().0 == entry.0 {
        assert(out.drop_last() =~= digests.drop_last());
    } else {
        let front = digests.drop_last();
        assert forall|i: int, j: int| 0 <= i < j < front.len() implies text_less(
            (#[trigger] front[i]).0,
            (#[trigger] front[j]).0,
        ) by {
            assert(front[i] == digests[i] && front[j] == digests[j]);
        }
        lemma_digest_inserted(front, entry, file);
        assert(out.drop_last() =~= insert_digest(front, entry));
        assert(out.last() == digests.last());
    }
}

/// Every staged file has its digest in the receipt, under its path and with
/// the name of the algorithm before it.
pub proof fn law_every_file_has_its_digest(
    files: Seq<StagedFileView>,
    staged: StagedFileView,
    file: Seq<char>,
)
    ensures
        digest_for(digests_of(Seq::empty()), file) is None,
        digest_for(digests_of(files.push(staged)), file) == if file == staged.rel {
            Some("sha256:"@ + staged.sha256)
        } else {
            digest_for(digests_of(files), file)
        },
{
    assert(files.push(staged).drop_last() =~= files);
    law_digests_form_a_map(files);
    lemma_digest_inserted(digests_of(files), (staged.rel, "sha256:"@ + staged.sha256), file);
}

/// A byte is written as two hexadecimal digits, the higher one first, in small
/// letters.
pub proof fn law_bytes_are_written_in_two_digits(bytes: Seq<u8>, b: u8)
    ensures
        hex_of(Seq::empty()) == Seq::<char>::empty(),
        hex_of(bytes.push(b)) == hex_of(bytes) + seq![
            "0123456789abcdef"@[b as int / 16],
            "0123456789abcdef"@[b as int % 16],
        ],
{
    reveal_strlit("0123456789abcdef");
    assert(bytes.push(b).drop_last() =~= bytes);
    assert(hex_of(bytes.push(b)) =~= hex_of(bytes) + seq![
        "0123456789abcdef"@[b as int / 16],
        "0123456789abcdef"@[b as int % 16],
    ]);
}

/// A pack is removed only where it is a directory of its own right below the
/// packs directory.
pub proof fn law_only_installed_packs_are_removed(
    packs_root: Seq<char>,
    name: Seq<char>,
    found: Installed,
)
    ensures
        removal_fault(packs_root, name, found) is None <==> is_plain_name(name) && (
        found matches Installed::Directory { place, root } && place is Ok && root is Ok && (
        parent_of(place->Ok_0@) matches Some(above) && components_of(above) == components_of(
            root->Ok_0@,
        ))),
{
}

/// The packs of a checkout are the directories with a manifest.
pub proof fn law_packs_are_directories_with_a_manifest(
    files: Seq<Seq<char>>,
    file: Seq<char>,
)
    ensures
        pack_dirs(Seq::empty()) == Seq::<Seq<char>>::empty(),
        pack_dirs(files.push(file)) == if parent_of(file) is Some && file_name_of(file) == Some(
            "pack.toml"@,
        ) {
            pack_dirs(files).push(parent_of(file)->0)
        } else {
            pack_dirs(files)
        },
{
    assert(files.push(file).drop_last() =~= files);
}

/// A repository is cloned as it is asked for: without its history, at the
/// reference where one is given, and with the address as no option.
pub proof fn law_clones_are_shallow(url: Seq<char>, reference: Seq<char>, dir: Seq<char>)
    ensures
        clone_words(url, None, dir) == seq![
            "clone"@,
            "--quiet"@,
            "--depth"@,
            "1"@,
            "--"@,
            url,
            dir,
        ],
        clone_words(url, Some(reference), dir) == seq![
            "clone"@,
            "--quiet"@,
            "--depth"@,
            "1"@,
            "--branch"@,
            reference,
            "--"@,
            url,
            dir,
        ],
{
    assert(clone_words(url, None, dir) =~= seq![
        "clone"@,
        "--quiet"@,
        "--depth"@,
        "1"@,
        "--"@,
        url,
        dir,
    ]);
    assert(clone_words(url, Some(reference), dir) =~= seq![
        "clone"@,
        "--quiet"@,
        "--depth"@,
        "1"@,
        "--branch"@,
        reference,
        "--"@,
        url,
        dir,
    ]);
}

} // verus!
