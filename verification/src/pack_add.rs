//! Thin pack installation: acquire one directory, validate it, and vendor
//! its manifest closure into the current project.

use vstd::prelude::*;
use crate::install::closure;
use crate::pack::{is_safe_name, GrammarSource, Manifest, Pack};
use crate::paths::{components, join_path, starts_with_path, Component};
use crate::text::{
    chars_of, concat2, concat3, contains, debug, decimal, is_empty, owned, same, split, split_once,
    starts_with, strip_suffix,
};

verus! {

use crate::install::{capped_views, closure_of};
use crate::pack::{is_plain_name, PackView};
use crate::paths::{components_of, is_within, joined_path};
use crate::text::{
    cut_once, debug_of, decimal_of, has_part, lemma_one_piece, lemma_pieces_join, pieces, views,
};

broadcast use vstd::string::group_string_axioms;

/// A pack that was added to a project.
#[derive(Debug)]
pub struct AddedPack {
    /// Its name.
    pub name: String,
    /// Its version.
    pub version: String,
    /// Where it is.
    pub path: String,
}

/// Whether a text can be the owner or the name of a hosted repository.
pub open spec fn is_repo_part(part: Seq<char>) -> bool {
    part.len() > 0 && part != "."@ && part != ".."@ && forall|i: int|
        0 <= i < part.len() ==> is_repo_char(#[trigger] part[i])
}

/// Whether a character can stand in the name of a hosted repository.
pub open spec fn is_repo_char(c: char) -> bool {
    ('a' <= c <= 'z') || ('A' <= c <= 'Z') || ('0' <= c <= '9') || c == '-' || c == '_' || c == '.'
}

/// Whether a text can be the owner or the name of a hosted repository.
pub fn is_repo_component(component: &str) -> (yes: bool)
    ensures
        yes == is_repo_part(component@),
{
    if same(component, ".") || same(component, "..") {
        return false;
    }
    let chars = chars_of(component);
    let mut i: usize = 0;
    while i < chars.len()
        invariant
            i <= chars@.len(),
            chars@ == component@,
            forall|j: int| 0 <= j < i ==> is_repo_char(#[trigger] component@[j]),
        decreases chars@.len() - i,
    {
        let c = chars[i];
        let letter = ('a' <= c && c <= 'z') || ('A' <= c && c <= 'Z');
        if !letter && !('0' <= c && c <= '9') && c != '-' && c != '_' && c != '.' {
            assert(!is_repo_char(component@[i as int]));
            return false;
        }
        i += 1;
    }
    chars.len() > 0
}

/// Whether a source is the URL of a git repository.
pub open spec fn is_git_url(source: Seq<char>) -> bool {
    "https://"@.is_prefix_of(source) || "ssh://"@.is_prefix_of(source) || "git://"@.is_prefix_of(
        source,
    ) || "file://"@.is_prefix_of(source)
}

/// Whether a source names a git repository as `user@host:path`.
pub open spec fn is_scp_style(source: Seq<char>) -> bool {
    cut_once(source, ":"@) matches Some((host, path)) && has_part(host, "@"@) && path.len() > 0
}

/// Whether a source is a GitHub `owner/repo`.
pub open spec fn is_shorthand(source: Seq<char>) -> bool {
    let parts = pieces(source, '/');
    parts.len() == 2 && is_repo_part(parts[0]) && is_repo_part(parts[1])
}

/// A text without a suffix, where it has it.
pub open spec fn without_suffix(s: Seq<char>, suffix: Seq<char>) -> Seq<char> {
    if suffix.is_suffix_of(s) {
        s.take(s.len() - suffix.len())
    } else {
        s
    }
}

/// What git clones for a source.
pub open spec fn git_source(source: Seq<char>) -> Option<Seq<char>> {
    if is_git_url(source) || is_scp_style(source) {
        Some(source)
    } else if is_shorthand(source) {
        Some("https://github.com/"@ + without_suffix(source, ".git"@) + ".git"@)
    } else {
        None
    }
}

/// The message on a source that is neither a directory nor a repository.
pub open spec fn unknown_source(source: Seq<char>) -> Seq<char> {
    "source `"@ + source
        + "` does not exist; use a local directory, Git URL, or GitHub owner/repo"@
}

/// What git clones for a source: a URL as it is, and a GitHub `owner/repo`
/// expanded.
///
/// # Errors
///
/// The message where the source is neither.
pub fn parse_git_source(source: &str) -> (out: Result<String, String>)
    ensures
        match out {
            Ok(url) => git_source(source@) == Some(url@),
            Err(message) => git_source(source@) is None && message@ == unknown_source(source@),
        },
{
    let is_url = starts_with(source, "https://") || starts_with(source, "ssh://") || starts_with(
        source,
        "git://",
    ) || starts_with(source, "file://");
    let is_scp = match split_once(source, ":") {
        Some((host, path)) => contains(host.as_str(), "@") && !is_empty(path.as_str()),
        None => false,
    };
    if is_url || is_scp {
        return Ok(owned(source));
    }
    let parts = split(source, '/');
    let ghost all = pieces(source@, '/');
    assert(all.len() == parts@.len());
    if parts.len() == 2 {
        assert(all[0] == parts@[0]@ && all[1] == parts@[1]@);
        if is_repo_component(parts[0].as_str()) && is_repo_component(parts[1].as_str()) {
            let repo = match strip_suffix(source, ".git") {
                Some(rest) => rest,
                None => owned(source),
            };
            return Ok(concat3("https://github.com/", repo.as_str(), ".git"));
        }
    }
    Err(
        concat3(
            "source `",
            source,
            "` does not exist; use a local directory, Git URL, or GitHub owner/repo",
        ),
    )
}

/// Where a pack comes from.
#[derive(Debug)]
pub enum Acquired {
    /// A local directory.
    Local(String),
    /// A repository that git clones.
    Clone(String),
}

/// Where the pack of a source comes from: the local path where there is one,
/// unless git is forced, so that a stray directory named like a GitHub
/// shorthand cannot shadow the repo.
///
/// # Errors
///
/// The message where there is no such source.
pub fn acquire(source: &str, present: bool, force_git: bool) -> (out: Result<Acquired, String>)
    ensures
        match out {
            Ok(Acquired::Local(path)) => present && !force_git && path@ == source@,
            Ok(Acquired::Clone(url)) => (!present || force_git) && git_source(source@) == Some(url@),
            Err(message) => (!present || force_git) && git_source(source@) is None && message@
                == unknown_source(source@),
        },
{
    if !force_git && present {
        return Ok(Acquired::Local(owned(source)));
    }
    match parse_git_source(source) {
        Ok(url) => Ok(Acquired::Clone(url)),
        Err(message) => Err(message),
    }
}

/// Whether a path is relative and made of plain components alone.
pub open spec fn is_confined_relative(path: Seq<char>) -> bool {
    components_of(path).len() > 0 && !has_part(path, "\\"@) && forall|i: int|
        0 <= i < components_of(path).len() ==> (#[trigger] components_of(path)[i]) is Normal
}

/// Whether a path is non-empty, relative, and made of plain components alone.
pub fn is_confined_relative_path(path: &str) -> (yes: bool)
    ensures
        yes == is_confined_relative(path@),
{
    if contains(path, "\\") {
        return false;
    }
    let parts = components(path);
    let ghost all = components_of(path@);
    assert(all == views(parts@));
    let mut i: usize = 0;
    while i < parts.len()
        invariant
            i <= parts@.len(),
            all == views(parts@),
            all == components_of(path@),
            forall|j: int| 0 <= j < i ==> (#[trigger] all[j]) is Normal,
        decreases parts@.len() - i,
    {
        assert(all[i as int] == parts@[i as int]@);
        match &parts[i] {
            Component::Normal(_) => {},
            _ => {
                assert(!(components_of(path@)[i as int] is Normal));
                return false;
            },
        }
        i += 1;
    }
    assert(all.len() == parts@.len());
    parts.len() > 0
}

/// The directory of a source that should hold the pack.
///
/// # Errors
///
/// The message where `subdir` could leave the source.
pub fn pack_dir(source_root: &str, subdir: Option<&str>) -> (out: Result<String, String>)
    ensures
        match (out, subdir) {
            (Ok(dir), None) => dir@ == source_root@,
            (Ok(dir), Some(sub)) => is_confined_relative(sub@) && dir@ == joined_path(
                source_root@,
                sub@,
            ),
            (Err(message), None) => false,
            (Err(message), Some(sub)) => !is_confined_relative(sub@) && message@
                == "--dir must be a non-empty relative path with no `.` or `..` components"@,
        },
{
    match subdir {
        Some(dir) => {
            if !is_confined_relative_path(dir) {
                return Err(
                    owned(
                        "--dir must be a non-empty relative path with no `.` or `..` components",
                    ),
                );
            }
            Ok(join_path(source_root, dir))
        },
        None => Ok(owned(source_root)),
    }
}

/// Whether the pack directory really is one inside the source: `place` and
/// `source_root` are where they are with all links followed.
///
/// # Errors
///
/// The message where it is not.
pub fn check_pack_dir(place: &str, source_root: &str, is_dir: bool) -> (out: Result<(), String>)
    ensures
        match out {
            Ok(_) => is_within(place@, source_root@) && is_dir,
            Err(message) => if is_within(place@, source_root@) {
                !is_dir && message@ == "pack directory "@ + place@ + " is not a directory"@
            } else {
                message@ == "pack directory "@ + place@ + " is outside the source"@
            },
        },
{
    if !starts_with_path(place, source_root) {
        return Err(concat3("pack directory ", place, " is outside the source"));
    }
    if !is_dir {
        return Err(concat3("pack directory ", place, " is not a directory"));
    }
    Ok(())
}

/// Whether a pack has the grammar file that it declares.
pub open spec fn has_grammar(pack: PackView) -> bool {
    pack.manifest.source is Wasm ==> pack.wasm_grammar is Some
}

/// The loader tolerates a missing wasm grammar file, which then shows at parse
/// time, so installation must look for it: on the source pack for a clear
/// diagnostic, and on the staged copy to guarantee that the vendored pack is
/// complete.
///
/// # Errors
///
/// The message where the file is missing.
pub fn ensure_wasm_grammar_present(pack: &Pack) -> (out: Result<(), String>)
    ensures
        match out {
            Ok(_) => has_grammar(pack@),
            Err(message) => !has_grammar(pack@) && message@ == "pack `"@ + pack@.manifest.name
                + "` declares grammar `wasm:"@ + pack@.manifest.source->Wasm_0
                + "` but the file is missing or unreadable"@,
        },
{
    if let GrammarSource::Wasm(file) = &pack.manifest.grammar.source {
        if pack.wasm_grammar.is_none() {
            let mut message = concat3("pack `", pack.name(), "` declares grammar `wasm:");
            message.append(file.as_str());
            message.append("` but the file is missing or unreadable");
            return Err(message);
        }
    }
    Ok(())
}

/// The name that a pack is vendored under, once its source holds all of it.
///
/// # Errors
///
/// The message where its grammar is missing or its name is not one plain path
/// component.
pub fn check_source_pack(pack: &Pack) -> (out: Result<String, String>)
    ensures
        match out {
            Ok(name) => has_grammar(pack@) && is_plain_name(pack@.manifest.name) && name@
                == pack@.manifest.name,
            Err(message) => if has_grammar(pack@) {
                !is_plain_name(pack@.manifest.name) && message@ == "pack name `"@
                    + pack@.manifest.name + "` must be one non-hidden path component"@
            } else {
                message@ == "pack `"@ + pack@.manifest.name + "` declares grammar `wasm:"@
                    + pack@.manifest.source->Wasm_0 + "` but the file is missing or unreadable"@
            },
        },
{
    if let Err(message) = ensure_wasm_grammar_present(pack) {
        return Err(message);
    }
    let name = pack.name();
    if !is_safe_name(name) {
        return Err(concat3("pack name `", name, "` must be one non-hidden path component"));
    }
    Ok(owned(name))
}

/// What adding a pack reports, once the staged copy has been loaded again.
///
/// # Errors
///
/// The message where the copy is not the pack that was validated, or is
/// incomplete.
pub fn check_staged_pack(pack: &Pack, name: &str, target: &str) -> (out: Result<AddedPack, String>)
    ensures
        match out {
            Ok(added) => pack@.manifest.name == name@ && has_grammar(pack@) && added.name@ == name@
                && added.version@ == pack@.manifest.version && added.path@ == target@,
            Err(message) => if pack@.manifest.name == name@ {
                !has_grammar(pack@) && message@ == "pack `"@ + pack@.manifest.name
                    + "` declares grammar `wasm:"@ + pack@.manifest.source->Wasm_0
                    + "` but the file is missing or unreadable"@
            } else {
                message@ == "pack name changed while it was being copied"@
            },
        },
{
    if !same(pack.name(), name) {
        return Err(owned("pack name changed while it was being copied"));
    }
    if let Err(message) = ensure_wasm_grammar_present(pack) {
        return Err(message);
    }
    Ok(
        AddedPack {
            name: owned(name),
            version: pack.manifest.pack.version.clone(),
            path: owned(target),
        },
    )
}

/// Whether a directory that packs are vendored in lies in the project: `place`
/// and `project_root` are where they are with all links followed, and `shown`
/// is its name.
///
/// # Errors
///
/// The message where it does not.
pub fn check_inside(place: &str, project_root: &str, shown: &str) -> (out: Result<(), String>)
    ensures
        match out {
            Ok(_) => is_within(place@, project_root@),
            Err(message) => !is_within(place@, project_root@) && message@ == shown@
                + " resolves outside the project"@,
        },
{
    if !starts_with_path(place, project_root) {
        return Err(concat2(shown, " resolves outside the project"));
    }
    Ok(())
}

/// Whether the place that a pack goes to is free.
///
/// # Errors
///
/// The message where it is not.
pub fn ensure_missing(path: &str, exists: bool) -> (out: Result<(), String>)
    ensures
        match out {
            Ok(_) => !exists,
            Err(message) => exists && message@ == "pack destination "@ + path@
                + " already exists; remove it explicitly before adding again"@,
        },
{
    if exists {
        return Err(
            concat3(
                "pack destination ",
                path,
                " already exists; remove it explicitly before adding again",
            ),
        );
    }
    Ok(())
}

/// The files that a pack is made of: its manifest and what that refers to.
pub open spec fn referenced(files: Seq<(Seq<char>, u64)>) -> Seq<Seq<char>> {
    files.map_values(|f: (Seq<char>, u64)| f.0)
}

/// The files that a pack is made of: its manifest and what that refers to.
pub fn referenced_files(manifest: &Manifest) -> (out: Vec<String>)
    ensures
        views(out@) == referenced(closure_of(manifest@)),
{
    let files = closure(manifest);
    let ghost all = referenced(closure_of(manifest@));
    assert(all.len() == files@.len());
    let mut out: Vec<String> = Vec::new();
    let mut i: usize = 0;
    assert(views(out@) =~= all.take(0));
    while i < files.len()
        invariant
            i <= files@.len(),
            all == referenced(capped_views(files@)),
            views(out@) == all.take(i as int),
        decreases files@.len() - i,
    {
        let ghost before = views(out@);
        out.push(files[i].0.clone());
        proof {
            assert(all[i as int] == files@[i as int].0@);
            assert(views(out@) =~= before.push(files@[i as int].0@));
            assert(views(out@) =~= all.take(i + 1));
        }
        i += 1;
    }
    assert(all.take(i as int) =~= all);
    out
}

/// Whether a file of a pack may be copied: a regular file that is really in the
/// pack directory.
///
/// # Errors
///
/// The message where it is not.
pub fn check_pack_file(path: &str, regular: bool, place: &str, pack_root: &str) -> (out: Result<
    (),
    String,
>)
    ensures
        match out {
            Ok(_) => regular && is_within(place@, pack_root@),
            Err(message) => if regular {
                !is_within(place@, pack_root@) && message@ == "pack file "@ + path@
                    + " resolves outside the pack directory"@
            } else {
                message@ == "pack file "@ + path@ + " is not a regular file"@
            },
        },
{
    if !regular {
        return Err(concat3("pack file ", path, " is not a regular file"));
    }
    if !starts_with_path(place, pack_root) {
        return Err(concat3("pack file ", path, " resolves outside the pack directory"));
    }
    Ok(())
}

/// The number that decimal digits stand for.
pub open spec fn digits_value(s: Seq<char>) -> nat
    decreases s.len(),
{
    if s.len() == 0 {
        0
    } else {
        digits_value(s.drop_last()) * 10 + (s.last() as nat - 48) as nat
    }
}

/// The number that a text stands for, where it is one of 32 bits.
pub open spec fn number_of(s: Seq<char>) -> Option<u32> {
    let digits = if s.len() > 0 && s[0] == '+' {
        s.skip(1)
    } else {
        s
    };
    if crate::install::is_digits(digits) && digits_value(digits) <= u32::MAX {
        Some(digits_value(digits) as u32)
    } else {
        None
    }
}

proof fn lemma_digits_grow(s: Seq<char>, n: int)
    requires
        0 <= n <= s.len(),
    ensures
        digits_value(s.take(n)) <= digits_value(s),
    decreases s.len(),
{
    if n < s.len() {
        assert(s.drop_last().take(n) =~= s.take(n));
        lemma_digits_grow(s.drop_last(), n);
    } else {
        assert(s.take(n) =~= s);
    }
}

fn parse_number(s: &str) -> (out: Option<u32>)
    ensures
        out == number_of(s@),
{
    let chars = chars_of(s);
    let from: usize = if chars.len() > 0 && chars[0] == '+' {
        1
    } else {
        0
    };
    let ghost digits = if s@.len() > 0 && s@[0] == '+' {
        s@.skip(1)
    } else {
        s@
    };
    assert(digits =~= chars@.skip(from as int));
    if chars.len() == from {
        return None;
    }
    let mut value: u32 = 0;
    let mut i: usize = from;
    assert(digits.take(0) =~= Seq::empty());
    while i < chars.len()
        invariant
            from <= i <= chars@.len(),
            from < chars@.len(),
            digits == chars@.skip(from as int),
            digits == if s@.len() > 0 && s@[0] == '+' {
                s@.skip(1)
            } else {
                s@
            },
            forall|j: int| 0 <= j < i - from ==> '0' <= #[trigger] digits[j] <= '9',
            value == digits_value(digits.take(i - from)),
        decreases chars@.len() - i,
    {
        let c = chars[i];
        assert(digits[i - from] == c);
        if c < '0' || c > '9' {
            assert(!crate::install::is_digits(digits));
            return None;
        }
        let digit: u64 = (c as u32 - 48) as u64;
        let next: u64 = value as u64 * 10 + digit;
        proof {
            assert(digits.take(i - from + 1).drop_last() =~= digits.take(i - from));
            assert(next == digits_value(digits.take(i - from + 1)));
            lemma_digits_grow(digits, i - from + 1);
        }
        if next > 4294967295 {
            return None;
        }
        value = next as u32;
        i += 1;
    }
    assert(digits.take(i - from) =~= digits);
    Some(value)
}

/// The process in the name of a staging directory.
pub open spec fn pid_in(name: Seq<char>) -> Option<u32> {
    let parts = pieces(name, '-');
    if parts.len() < 2 {
        None
    } else {
        number_of(parts[parts.len() - 2])
    }
}

/// The pid embedded in a `.pack-add-<name>-<pid>-<seq>` directory name.
pub fn staging_pid(name: &str) -> (out: Option<u32>)
    ensures
        out == pid_in(name@),
{
    let parts = split(name, '-');
    let ghost all = pieces(name@, '-');
    assert(all.len() == parts@.len());
    let n: usize = parts.len();
    if n < 2 {
        return None;
    }
    assert(all[n - 2] == parts@[n - 2]@);
    parse_number(parts[n - 2].as_str())
}

/// The process whose end makes a directory a leftover of an interrupted run:
/// none for a directory that is not a staging directory.
pub fn staged_by(name: &str) -> (out: Option<u32>)
    ensures
        out == if ".pack-add-"@.is_prefix_of(name@) {
            pid_in(name@)
        } else {
            None
        },
{
    if starts_with(name, ".pack-add-") {
        staging_pid(name)
    } else {
        None
    }
}

/// The name of a directory that is unique to a process and a step of it.
pub open spec fn unique_name(prefix: Seq<char>, pid: u32, sequence: u64) -> Seq<char> {
    prefix + "-"@ + decimal_of(pid as nat) + "-"@ + decimal_of(sequence as nat)
}

/// The name of a directory that is unique to a process and a step of it.
pub fn unique_dir_name(prefix: &str, pid: u32, sequence: u64) -> (out: String)
    ensures
        out@ == unique_name(prefix@, pid, sequence),
{
    let mut name = concat3(prefix, "-", decimal(pid as u64).as_str());
    name.append("-");
    name.append(decimal(sequence).as_str());
    name
}

/// The prefix of the names of a pack's staging directories.
pub fn staging_prefix(name: &str) -> (out: String)
    ensures
        out@ == ".pack-add-"@ + name@,
{
    concat2(".pack-add-", name)
}

/// What is reported once a pack has been added.
pub fn added_lines(added: &AddedPack) -> (out: Vec<String>)
    ensures
        views(out@) == seq![
            "added "@ + added.name@ + " v"@ + added.version@ + " to "@ + added.path@,
            "activate it by adding "@ + debug_of(added.name@)
                + " to [project].packs in btt.toml"@,
        ],
{
    let mut first = concat3("added ", added.name.as_str(), " v");
    first.append(added.version.as_str());
    first.append(" to ");
    first.append(added.path.as_str());
    let second = concat3(
        "activate it by adding ",
        debug(added.name.as_str()).as_str(),
        " to [project].packs in btt.toml",
    );
    let mut out: Vec<String> = Vec::new();
    out.push(first);
    out.push(second);
    assert(views(out@) =~= seq![
        "added "@ + added.name@ + " v"@ + added.version@ + " to "@ + added.path@,
        "activate it by adding "@ + debug_of(added.name@) + " to [project].packs in btt.toml"@,
    ]);
    out
}

proof fn lemma_decimal(n: nat)
    ensures
        crate::install::is_digits(decimal_of(n)),
        digits_value(decimal_of(n)) == n,
    decreases n,
{
    let s = decimal_of(n);
    if n < 10 {
        assert(s.drop_last() =~= Seq::empty());
        assert(digits_value(s.drop_last()) == 0);
        assert(s.last() as int == n + 48);
    } else {
        lemma_decimal(n / 10);
        assert(s.drop_last() =~= decimal_of(n / 10));
        assert(s.last() as int == n % 10 + 48);
        assert forall|i: int| 0 <= i < s.len() implies '0' <= #[trigger] s[i] <= '9' by {
            if i < s.len() - 1 {
                assert(s[i] == decimal_of(n / 10)[i]);
            }
        }
    }
}

proof fn lemma_pieces_of_plain(before: Seq<char>, part: Seq<char>)
    requires
        forall|i: int| 0 <= i < part.len() ==> #[trigger] part[i] != '-',
    ensures
        pieces(before + "-"@ + part, '-') == pieces(before, '-').push(part),
    decreases part.len(),
{
    reveal_strlit("-");
    let s = before + "-"@ + part;
    if part.len() == 0 {
        assert(s.drop_last() =~= before);
        assert(part =~= Seq::empty());
    } else {
        let rest = part.drop_last();
        assert forall|i: int| 0 <= i < rest.len() implies #[trigger] rest[i] != '-' by {
            assert(rest[i] == part[i]);
        }
        lemma_pieces_of_plain(before, rest);
        assert(s.drop_last() =~= before + "-"@ + rest);
        let inner = pieces(before, '-').push(rest);
        assert(inner.drop_last() =~= pieces(before, '-'));
        assert(rest.push(part.last()) =~= part);
        assert(s.last() == part.last());
        assert(part.last() == part[part.len() - 1]);
    }
}

/// The process that made a staging directory can be read off its name, whatever
/// the name of the pack.
pub proof fn law_staging_names_tell_the_process(prefix: Seq<char>, pid: u32, sequence: u64)
    ensures
        pid_in(unique_name(prefix, pid, sequence)) == Some(pid),
{
    let p = decimal_of(pid as nat);
    let q = decimal_of(sequence as nat);
    lemma_decimal(pid as nat);
    lemma_decimal(sequence as nat);
    lemma_pieces_of_plain(prefix, p);
    lemma_pieces_of_plain(prefix + "-"@ + p, q);
    crate::text::lemma_pieces_nonempty(prefix, '-');
    let parts = pieces(unique_name(prefix, pid, sequence), '-');
    assert(parts[parts.len() - 2] == p);
    assert(p[0] >= '0');
    assert(p[0] != '+');
}

/// An address that names its protocol, or a host and a path, is used as it is;
/// an owner and a repository, two plain names with a separator between them,
/// stand for the repository at GitHub; anything else is no repository.
pub proof fn law_git_sources_are_recognized(source: Seq<char>, owner: Seq<char>, repo: Seq<char>)
    requires
        is_repo_part(owner),
        is_repo_part(repo),
        !".git"@.is_suffix_of(owner + seq!['/'] + repo),
    ensures
        ("https://"@.is_prefix_of(source) || "ssh://"@.is_prefix_of(source)
            || "git://"@.is_prefix_of(source) || "file://"@.is_prefix_of(source)) ==> git_source(
            source,
        ) == Some(source),
        !is_git_url(owner + seq!['/'] + repo) && !is_scp_style(owner + seq!['/'] + repo)
            ==> git_source(owner + seq!['/'] + repo) == Some(
            "https://github.com/"@ + (owner + seq!['/'] + repo) + ".git"@,
        ),
{
    assert(owner + seq!['/'] + repo =~= owner.push('/') + repo);
    lemma_pieces_join(owner, repo, '/');
    assert(!owner.contains('/')) by {
        if owner.contains('/') {
            let k = choose|k: int| 0 <= k < owner.len() && owner[k] == '/';
            assert(is_repo_char(owner[k]));
        }
    }
    assert(!repo.contains('/')) by {
        if repo.contains('/') {
            let k = choose|k: int| 0 <= k < repo.len() && repo[k] == '/';
            assert(is_repo_char(repo[k]));
        }
    }
    lemma_one_piece(owner, '/');
    lemma_one_piece(repo, '/');
    let parts = pieces(owner.push('/') + repo, '/');
    assert(parts[0] == owner && parts[1] == repo && parts.len() == 2);
}

} // verus!
