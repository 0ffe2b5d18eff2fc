//! Typed errors for the btt library.

use vstd::prelude::*;
use crate::text::{decimal, join, owned};
use crate::tree::ParseError;

verus! {

use crate::text::{decimal_of, joined, views};
use crate::tree::{error_text, ParseErrorView};

broadcast use vstd::string::group_string_axioms;

/// Any error produced by the btt library.
#[derive(Debug)]
#[non_exhaustive]
pub enum Error {
    /// A `.tree` file failed to parse.
    Parse {
        /// The `.tree` file that failed.
        path: String,
        /// The underlying parse error (with line information).
        source: ParseError,
    },
    /// A file could not be read or written.
    Io {
        /// The file involved.
        path: String,
        /// The underlying I/O error.
        message: String,
    },
    /// No pack with the requested name exists in any source.
    PackNotFound {
        /// The requested pack name.
        name: String,
        /// Names of the packs embedded in this binary.
        builtins: Vec<String>,
    },
    /// A pack manifest or project config failed to parse as TOML.
    Toml {
        /// The TOML file that failed.
        path: String,
        /// The underlying TOML error.
        message: String,
    },
    /// A pack manifest referenced a path that could escape its directory.
    UnsafePath {
        /// The pack with the unsafe reference.
        pack: String,
        /// Which manifest field held it.
        field: String,
        /// The offending value.
        value: String,
    },
    /// A pack manifest is internally inconsistent (cross-field rules).
    Manifest {
        /// The pack with the inconsistent manifest.
        pack: String,
        /// What is inconsistent.
        message: String,
    },
    /// A pack uses a manifest format this btt does not understand.
    UnsupportedPackFormat {
        /// The pack with the unsupported manifest.
        pack: String,
        /// The format declared by the pack.
        format: u32,
        /// The format understood by this btt.
        supported: u32,
    },
    /// A pack is not compatible with the running btt version.
    IncompatibleBtt {
        /// The incompatible pack.
        pack: String,
        /// The pack's independently released version.
        version: String,
        /// The btt versions accepted by the pack.
        requirement: String,
        /// The running btt version.
        current: String,
    },
    /// Lexical extraction could not account for the source file.
    Lexical {
        /// The pack whose profile was scanning.
        pack: String,
        /// What the scanner could not account for.
        message: String,
    },
    /// Safe scaffold merging could not determine an unambiguous insertion.
    Merge {
        /// Why editing between complete extracted spans was not possible.
        message: String,
    },
    /// A target pattern that forward and reverse routing would disagree on.
    InvalidTargetPattern {
        /// The pack with the bad pattern.
        pack: String,
        /// The offending pattern.
        pattern: String,
    },
    /// A file referenced by a pack manifest is missing or not UTF-8.
    PackFile {
        /// The pack with the broken reference.
        pack: String,
        /// The referenced file, relative to the pack root.
        file: String,
    },
    /// A pack references a builtin grammar this binary does not ship.
    UnknownGrammar {
        /// The pack with the bad reference.
        pack: String,
        /// The unknown grammar name.
        name: String,
    },
    /// A pack requests a `wasm:` grammar, which this build cannot run.
    WasmUnsupported {
        /// The pack requesting the grammar.
        pack: String,
    },
    /// Two packs ship different wasm grammar modules under one symbol.
    GrammarSymbolCollision {
        /// The contested export symbol.
        symbol: String,
        /// The pack that claimed the symbol first (load order).
        first: String,
        /// The pack that collided with it.
        second: String,
    },
    /// The grammar was rejected by the tree-sitter runtime (version mismatch).
    Language {
        /// The runtime's reason.
        message: String,
    },
    /// A pack's tree-sitter query failed to compile.
    Query {
        /// The pack owning the query.
        pack: String,
        /// The underlying query error.
        message: String,
    },
    /// A pack's query does not define the required captures.
    MissingCaptures {
        /// The pack owning the query.
        pack: String,
    },
    /// `test_requires_marker` is set but the query has no `@test.marker`.
    MissingMarkerCapture {
        /// The pack owning the query.
        pack: String,
    },
    /// tree-sitter could not produce a usable syntax tree for a source file.
    SourceParse {
        /// The source file that failed.
        path: String,
    },
    /// A pack's scaffold template failed to compile or render.
    Template {
        /// The pack owning the template.
        pack: String,
        /// The underlying template error.
        message: String,
    },
    /// A file of an install source is not a regular file inside the source.
    InstallUnsafeFile {
        /// The offending file.
        path: String,
    },
    /// A file of an install source is larger than its cap.
    InstallTooLarge {
        /// The offending file.
        path: String,
        /// Its size in bytes.
        size: u64,
        /// The cap in bytes.
        limit: u64,
    },
    /// A pack of the same name is already installed.
    AlreadyInstalled {
        /// The pack name.
        name: String,
        /// Where it is installed.
        path: String,
    },
    /// An installed pack directory cannot be removed.
    NotRemovable {
        /// The directory.
        path: String,
        /// Why it is refused.
        reason: String,
    },
    /// A receipt or index could not be written down.
    Receipt {
        /// What it was for.
        pack: String,
        /// The underlying error.
        message: String,
    },
    /// A git command failed.
    Git {
        /// The arguments of the command.
        args: String,
        /// What git said.
        detail: String,
    },
    /// A staged file does not match the curated index.
    DigestMismatch {
        /// The curated pack.
        name: String,
        /// The offending file.
        file: String,
    },
}

/// The model of an [`Error`].
#[verifier::ext_equal]
pub enum ErrorView {
    Parse { path: Seq<char>, source: ParseErrorView },
    Io { path: Seq<char>, message: Seq<char> },
    PackNotFound { name: Seq<char>, builtins: Seq<Seq<char>> },
    Toml { path: Seq<char>, message: Seq<char> },
    UnsafePath { pack: Seq<char>, field: Seq<char>, value: Seq<char> },
    Manifest { pack: Seq<char>, message: Seq<char> },
    UnsupportedPackFormat { pack: Seq<char>, format: u32, supported: u32 },
    IncompatibleBtt { pack: Seq<char>, version: Seq<char>, requirement: Seq<char>, current: Seq<char> },
    Lexical { pack: Seq<char>, message: Seq<char> },
    Merge { message: Seq<char> },
    InvalidTargetPattern { pack: Seq<char>, pattern: Seq<char> },
    PackFile { pack: Seq<char>, file: Seq<char> },
    UnknownGrammar { pack: Seq<char>, name: Seq<char> },
    WasmUnsupported { pack: Seq<char> },
    GrammarSymbolCollision { symbol: Seq<char>, first: Seq<char>, second: Seq<char> },
    Language { message: Seq<char> },
    Query { pack: Seq<char>, message: Seq<char> },
    MissingCaptures { pack: Seq<char> },
    MissingMarkerCapture { pack: Seq<char> },
    SourceParse { path: Seq<char> },
    Template { pack: Seq<char>, message: Seq<char> },
    InstallUnsafeFile { path: Seq<char> },
    InstallTooLarge { path: Seq<char>, size: u64, limit: u64 },
    AlreadyInstalled { name: Seq<char>, path: Seq<char> },
    NotRemovable { path: Seq<char>, reason: Seq<char> },
    Receipt { pack: Seq<char>, message: Seq<char> },
    Git { args: Seq<char>, detail: Seq<char> },
    DigestMismatch { name: Seq<char>, file: Seq<char> },
}

impl View for Error {
    type V = ErrorView;

    open spec fn view(&self) -> ErrorView {
        match *self {
            Error::Parse { path, source } => ErrorView::Parse { path: path@, source: source@ },
            Error::Io { path, message } => ErrorView::Io { path: path@, message: message@ },
            Error::PackNotFound { name, builtins } => ErrorView::PackNotFound { name: name@, builtins: views(builtins@) },
            Error::Toml { path, message } => ErrorView::Toml { path: path@, message: message@ },
            Error::UnsafePath { pack, field, value } => ErrorView::UnsafePath { pack: pack@, field: field@, value: value@ },
            Error::Manifest { pack, message } => ErrorView::Manifest { pack: pack@, message: message@ },
            Error::UnsupportedPackFormat { pack, format, supported } => ErrorView::UnsupportedPackFormat { pack: pack@, format, supported },
            Error::IncompatibleBtt { pack, version, requirement, current } => ErrorView::IncompatibleBtt { pack: pack@, version: version@, requirement: requirement@, current: current@ },
            Error::Lexical { pack, message } => ErrorView::Lexical { pack: pack@, message: message@ },
            Error::Merge { message } => ErrorView::Merge { message: message@ },
            Error::InvalidTargetPattern { pack, pattern } => ErrorView::InvalidTargetPattern { pack: pack@, pattern: pattern@ },
            Error::PackFile { pack, file } => ErrorView::PackFile { pack: pack@, file: file@ },
            Error::UnknownGrammar { pack, name } => ErrorView::UnknownGrammar { pack: pack@, name: name@ },
            Error::WasmUnsupported { pack } => ErrorView::WasmUnsupported { pack: pack@ },
            Error::GrammarSymbolCollision { symbol, first, second } => ErrorView::GrammarSymbolCollision { symbol: symbol@, first: first@, second: second@ },
            Error::Language { message } => ErrorView::Language { message: message@ },
            Error::Query { pack, message } => ErrorView::Query { pack: pack@, message: message@ },
            Error::MissingCaptures { pack } => ErrorView::MissingCaptures { pack: pack@ },
            Error::MissingMarkerCapture { pack } => ErrorView::MissingMarkerCapture { pack: pack@ },
            Error::SourceParse { path } => ErrorView::SourceParse { path: path@ },
            Error::Template { pack, message } => ErrorView::Template { pack: pack@, message: message@ },
            Error::InstallUnsafeFile { path } => ErrorView::InstallUnsafeFile { path: path@ },
            Error::InstallTooLarge { path, size, limit } => ErrorView::InstallTooLarge { path: path@, size, limit },
            Error::AlreadyInstalled { name, path } => ErrorView::AlreadyInstalled { name: name@, path: path@ },
            Error::NotRemovable { path, reason } => ErrorView::NotRemovable { path: path@, reason: reason@ },
            Error::Receipt { pack, message } => ErrorView::Receipt { pack: pack@, message: message@ },
            Error::Git { args, detail } => ErrorView::Git { args: args@, detail: detail@ },
            Error::DigestMismatch { name, file } => ErrorView::DigestMismatch { name: name@, file: file@ },
        }
    }
}

/// What stands between the names of a list in a message.
pub open spec fn list_separator() -> Seq<char> {
    ", "@
}

/// The message of an error.
pub open spec fn message_of(e: ErrorView) -> Seq<char> {
    match e {
        ErrorView::Parse { path, source } => path + ": "@ + error_text(source),
        ErrorView::Io { path, message } => path + ": "@ + message,
        ErrorView::PackNotFound { name, builtins } => "pack `"@ + name + "` not found (searched .btt/packs, $XDG_CONFIG_HOME/btt/packs, ~/.btt/packs, and builtins: "@ + joined(builtins, list_separator()) + ")"@,
        ErrorView::Toml { path, message } => "parsing "@ + path + ": "@ + message,
        ErrorView::UnsafePath { pack, field, value } => "pack `"@ + pack + "`: "@ + field + " `"@ + value + "` must be a relative path with no `..` components"@,
        ErrorView::Manifest { pack, message } => "pack `"@ + pack + "`: "@ + message,
        ErrorView::UnsupportedPackFormat { pack, format, supported } => "pack `"@ + pack + "` uses manifest format "@ + decimal_of(format as nat) + "; this btt supports format "@ + decimal_of(supported as nat),
        ErrorView::IncompatibleBtt { pack, version, requirement, current } => "pack `"@ + pack + "` v"@ + version + " requires btt "@ + requirement + "; running btt "@ + current,
        ErrorView::Lexical { pack, message } => "pack `"@ + pack + "`: lexical extraction: "@ + message,
        ErrorView::Merge { message } => "cannot safely merge scaffold: "@ + message + "; merge manually"@,
        ErrorView::InvalidTargetPattern { pack, pattern } => "pack `"@ + pack + "`: target pattern `"@ + pattern + "` must contain exactly one {stem} and no directory separators"@,
        ErrorView::PackFile { pack, file } => "pack `"@ + pack + "`: missing or invalid file `"@ + file + "`"@,
        ErrorView::UnknownGrammar { pack, name } => "pack `"@ + pack + "`: unknown builtin grammar `"@ + name + "`"@,
        ErrorView::WasmUnsupported { pack } => "pack `"@ + pack + "`: wasm grammars need a btt built with the `wasm` feature (cargo install btt-cli --locked --features wasm)"@,
        ErrorView::GrammarSymbolCollision { symbol, first, second } => "packs `"@ + first + "` and `"@ + second + "` both export `tree_sitter_"@ + symbol + "` with different grammars; give one a distinct symbol"@,
        ErrorView::Language { message } => message,
        ErrorView::Query { pack, message } => "pack `"@ + pack + "`: invalid query: "@ + message,
        ErrorView::MissingCaptures { pack } => "pack `"@ + pack + "`: query must define @block, @block.name, @test, @test.name"@,
        ErrorView::MissingMarkerCapture { pack } => "pack `"@ + pack + "`: test_requires_marker is set but the query has no @test.marker"@,
        ErrorView::SourceParse { path } => "failed to parse "@ + path,
        ErrorView::Template { pack, message } => "pack `"@ + pack + "`: template error: "@ + message,
        ErrorView::InstallUnsafeFile { path } => "refusing to install "@ + path + ": not a regular file inside the pack"@,
        ErrorView::InstallTooLarge { path, size, limit } => "refusing to install "@ + path + ": "@ + decimal_of(size as nat) + " bytes exceeds the limit of "@ + decimal_of(limit as nat),
        ErrorView::AlreadyInstalled { name, path } => "pack `"@ + name + "` is already installed at "@ + path + " (use --force to replace it)"@,
        ErrorView::NotRemovable { path, reason } => "cannot remove "@ + path + ": "@ + reason,
        ErrorView::Receipt { pack, message } => "pack `"@ + pack + "`: receipt error: "@ + message,
        ErrorView::Git { args, detail } => "git "@ + args + " failed: "@ + detail,
        ErrorView::DigestMismatch { name, file } => "curated pack `"@ + name + "`: digest mismatch for "@ + file,
    }
}

impl Error {
    /// The message of this error.
    pub fn to_string(&self) -> (out: String)
        ensures
            out@ == message_of(self@),
    {
        match self {
            Error::Parse { path, source } => {
                let mut out = owned(path.as_str());
                out.append(": ");
                out.append(source.to_string().as_str());
                out
            },
            Error::Io { path, message } => {
                let mut out = owned(path.as_str());
                out.append(": ");
                out.append(message.as_str());
                out
            },
            Error::PackNotFound { name, builtins } => {
                let mut out = owned("pack `");
                out.append(name.as_str());
                out.append("` not found (searched .btt/packs, $XDG_CONFIG_HOME/btt/packs, ~/.btt/packs, and builtins: ");
                out.append(join(builtins, ", ").as_str());
                out.append(")");
                out
            },
            Error::Toml { path, message } => {
                let mut out = owned("parsing ");
                out.append(path.as_str());
                out.append(": ");
                out.append(message.as_str());
                out
            },
            Error::UnsafePath { pack, field, value } => {
                let mut out = owned("pack `");
                out.append(pack.as_str());
                out.append("`: ");
                out.append(field.as_str());
                out.append(" `");
                out.append(value.as_str());
                out.append("` must be a relative path with no `..` components");
                out
            },
            Error::Manifest { pack, message } => {
                let mut out = owned("pack `");
                out.append(pack.as_str());
                out.append("`: ");
                out.append(message.as_str());
                out
            },
            Error::UnsupportedPackFormat { pack, format, supported } => {
                let mut out = owned("pack `");
                out.append(pack.as_str());
                out.append("` uses manifest format ");
                out.append(decimal(*format as u64).as_str());
                out.append("; this btt supports format ");
                out.append(decimal(*supported as u64).as_str());
                out
            },
            Error::IncompatibleBtt { pack, version, requirement, current } => {
                let mut out = owned("pack `");
                out.append(pack.as_str());
                out.append("` v");
                out.append(version.as_str());
                out.append(" requires btt ");
                out.append(requirement.as_str());
                out.append("; running btt ");
                out.append(current.as_str());
                out
            },
            Error::Lexical { pack, message } => {
                let mut out = owned("pack `");
                out.append(pack.as_str());
                out.append("`: lexical extraction: ");
                out.append(message.as_str());
                out
            },
            Error::Merge { message } => {
                let mut out = owned("cannot safely merge scaffold: ");
                out.append(message.as_str());
                out.append("; merge manually");
                out
            },
            Error::InvalidTargetPattern { pack, pattern } => {
                let mut out = owned("pack `");
                out.append(pack.as_str());
                out.append("`: target pattern `");
                out.append(pattern.as_str());
                out.append("` must contain exactly one {stem} and no directory separators");
                out
            },
            Error::PackFile { pack, file } => {
                let mut out = owned("pack `");
                out.append(pack.as_str());
                out.append("`: missing or invalid file `");
                out.append(file.as_str());
                out.append("`");
                out
            },
            Error::UnknownGrammar { pack, name } => {
                let mut out = owned("pack `");
                out.append(pack.as_str());
                out.append("`: unknown builtin grammar `");
                out.append(name.as_str());
                out.append("`");
                out
            },
            Error::WasmUnsupported { pack } => {
                let mut out = owned("pack `");
                out.append(pack.as_str());
                out.append("`: wasm grammars need a btt built with the `wasm` feature (cargo install btt-cli --locked --features wasm)");
                out
            },
            Error::GrammarSymbolCollision { symbol, first, second } => {
                let mut out = owned("packs `");
                out.append(first.as_str());
                out.append("` and `");
                out.append(second.as_str());
                out.append("` both export `tree_sitter_");
                out.append(symbol.as_str());
                out.append("` with different grammars; give one a distinct symbol");
                out
            },
            Error::Language { message } => {
                owned(message.as_str())
            },
            Error::Query { pack, message } => {
                let mut out = owned("pack `");
                out.append(pack.as_str());
                out.append("`: invalid query: ");
                out.append(message.as_str());
                out
            },
            Error::MissingCaptures { pack } => {
                let mut out = owned("pack `");
                out.append(pack.as_str());
                out.append("`: query must define @block, @block.name, @test, @test.name");
                out
            },
            Error::MissingMarkerCapture { pack } => {
                let mut out = owned("pack `");
                out.append(pack.as_str());
                out.append("`: test_requires_marker is set but the query has no @test.marker");
                out
            },
            Error::SourceParse { path } => {
                let mut out = owned("failed to parse ");
                out.append(path.as_str());
                out
            },
            Error::Template { pack, message } => {
                let mut out = owned("pack `");
                out.append(pack.as_str());
                out.append("`: template error: ");
                out.append(message.as_str());
                out
            },
            Error::InstallUnsafeFile { path } => {
                let mut out = owned("refusing to install ");
                out.append(path.as_str());
                out.append(": not a regular file inside the pack");
                out
            },
            Error::InstallTooLarge { path, size, limit } => {
                let mut out = owned("refusing to install ");
                out.append(path.as_str());
                out.append(": ");
                out.append(decimal(*size as u64).as_str());
                out.append(" bytes exceeds the limit of ");
                out.append(decimal(*limit as u64).as_str());
                out
            },
            Error::AlreadyInstalled { name, path } => {
                let mut out = owned("pack `");
                out.append(name.as_str());
                out.append("` is already installed at ");
                out.append(path.as_str());
                out.append(" (use --force to replace it)");
                out
            },
            Error::NotRemovable { path, reason } => {
                let mut out = owned("cannot remove ");
                out.append(path.as_str());
                out.append(": ");
                out.append(reason.as_str());
                out
            },
            Error::Receipt { pack, message } => {
                let mut out = owned("pack `");
                out.append(pack.as_str());
                out.append("`: receipt error: ");
                out.append(message.as_str());
                out
            },
            Error::Git { args, detail } => {
                let mut out = owned("git ");
                out.append(args.as_str());
                out.append(" failed: ");
                out.append(detail.as_str());
                out
            },
            Error::DigestMismatch { name, file } => {
                let mut out = owned("curated pack `");
                out.append(name.as_str());
                out.append("`: digest mismatch for ");
                out.append(file.as_str());
                out
            },
        }
    }
}

/// A message names what the error is about, each thing at its place: the file
/// before what is wrong with it, the pack before what it asks for, the first of
/// two packs before the second, and a size before its limit.
pub proof fn law_messages_name_what_they_are_about(
    path: Seq<char>,
    source: ParseErrorView,
    message: Seq<char>,
    pack: Seq<char>,
    version: Seq<char>,
    requirement: Seq<char>,
    current: Seq<char>,
    first: Seq<char>,
    second: Seq<char>,
    size: u64,
    limit: u64,
)
    ensures
        message_of(ErrorView::Parse { path, source }) == path + ": "@ + error_text(source),
        message_of(ErrorView::Io { path, message }) == path + ": "@ + message,
        message_of(ErrorView::Manifest { pack, message }) == "pack `"@ + pack + "`: "@ + message,
        message_of(ErrorView::IncompatibleBtt { pack, version, requirement, current }) == "pack `"@
            + pack + "` v"@ + version + " requires btt "@ + requirement + "; running btt "@
            + current,
        ("packs `"@ + first + "` and `"@ + second + "` both export `tree_sitter_"@
            + message).is_prefix_of(
            message_of(ErrorView::GrammarSymbolCollision { symbol: message, first, second }),
        ),
        message_of(ErrorView::InstallTooLarge { path, size, limit }) == "refusing to install "@
            + path + ": "@ + decimal_of(size as nat) + " bytes exceeds the limit of "@ + decimal_of(
            limit as nat,
        ),
        message_of(ErrorView::Lexical { pack, message }) == "pack `"@ + pack
            + "`: lexical extraction: "@ + message,
        message_of(ErrorView::DigestMismatch { name: pack, file: path }) == "curated pack `"@ + pack
            + "`: digest mismatch for "@ + path,
{
    let lead = "packs `"@ + first + "` and `"@ + second + "` both export `tree_sitter_"@ + message;
    let all = message_of(ErrorView::GrammarSymbolCollision { symbol: message, first, second });
    assert(all.take(lead.len() as int) =~= lead);
}

} // verus!
