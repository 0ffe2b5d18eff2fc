//! Syntax trees and queries, as the `tree-sitter` crate makes and runs them
//! with the grammars compiled into this binary.

use vstd::prelude::*;
use tree_sitter::{Language, Node, Parser, Query, QueryCursor, StreamingIterator, Tree};
use crate::pack::NativeGrammar;

verus! {

/// `tree_sitter::Language`, a grammar.
#[verifier::external_type_specification]
#[verifier::external_body]
pub struct ExLanguage(Language);

/// `tree_sitter::Tree`, the syntax tree of a source.
#[verifier::external_type_specification]
#[verifier::external_body]
pub struct ExTree(Tree);

/// `tree_sitter::Query`, a compiled query.
#[verifier::external_type_specification]
#[verifier::external_body]
pub struct ExQuery(Query);

/// Which of the compiled-in grammars a language holds.
pub uninterp spec fn language_grammar(language: Language) -> NativeGrammar;

/// The message of the error that `Parser::set_language` gives for a grammar;
/// nothing for a grammar that the runtime accepts.
pub uninterp spec fn language_fault(grammar: NativeGrammar) -> Option<Seq<char>>;

/// Whether `Parser::parse` gives a tree for a source.
pub uninterp spec fn gives_tree(grammar: NativeGrammar, source: Seq<char>) -> bool;

/// The grammar and the source that a tree was parsed with and from.
pub uninterp spec fn tree_contents(tree: Tree) -> (NativeGrammar, Seq<char>);

/// Whether `Node::has_error` reports a syntax error anywhere in the tree of a
/// source.
pub uninterp spec fn tree_errs(grammar: NativeGrammar, source: Seq<char>) -> bool;

/// The message of the error that `Query::new` gives for a query; nothing for
/// a query that compiles.
pub uninterp spec fn query_fault(grammar: NativeGrammar, query: Seq<char>) -> Option<Seq<char>>;

/// The grammar and the text that a query was compiled for and from.
pub uninterp spec fn query_contents(query: Query) -> (NativeGrammar, Seq<char>);

/// The number of a capture of a query, as `Query::capture_index_for_name`
/// finds it by its name.
pub uninterp spec fn capture_number(
    grammar: NativeGrammar,
    query: Seq<char>,
    name: Seq<char>,
) -> Option<u32>;

/// The matches of a query in the tree of a source, as `QueryCursor::matches`
/// lists them: for each match its captures, and for each capture its number,
/// the byte offsets of its start and end, and its row.
pub uninterp spec fn query_matches(
    grammar: NativeGrammar,
    query: Seq<char>,
    source: Seq<char>,
) -> Seq<Seq<(u32, (usize, usize, usize))>>;

/// The byte ranges of the smallest node of the tree of a source that spans a
/// range (`Node::descendant_for_byte_range`) and of its ancestors
/// (`Node::parent`), from the inside out.
pub uninterp spec fn spanning_ranges(
    grammar: NativeGrammar,
    source: Seq<char>,
    start: usize,
    end: usize,
) -> Seq<(usize, usize)>;

/// The named siblings before the ancestor `up` levels above the smallest node
/// that spans a range (`Node::prev_named_sibling`), nearest first: the byte
/// range and the kind of each.
pub uninterp spec fn earlier_siblings(
    grammar: NativeGrammar,
    source: Seq<char>,
    start: usize,
    end: usize,
    up: usize,
) -> Seq<(usize, usize, Seq<char>)>;

/// Matches by their captures.
pub open spec fn match_views(matches: Seq<Vec<(u32, (usize, usize, usize))>>) -> Seq<
    Seq<(u32, (usize, usize, usize))>,
> {
    matches.map_values(|m: Vec<(u32, (usize, usize, usize))>| m@)
}

/// Siblings with their kinds as text.
pub open spec fn sibling_views(siblings: Seq<(usize, usize, String)>) -> Seq<
    (usize, usize, Seq<char>),
> {
    siblings.map_values(|s: (usize, usize, String)| (s.0, s.1, s.2@))
}

/// `tree_sitter_rust::LANGUAGE`: the language of the Rust grammar.
#[verifier::external_body]
fn rust_language() -> (out: Language)
    ensures
        language_grammar(out) == NativeGrammar::Rust,
{
    tree_sitter_rust::LANGUAGE.into()
}

/// `tree_sitter_typescript::LANGUAGE_TYPESCRIPT`: the language of the
/// TypeScript grammar.
#[verifier::external_body]
fn typescript_language() -> (out: Language)
    ensures
        language_grammar(out) == NativeGrammar::TypeScript,
{
    tree_sitter_typescript::LANGUAGE_TYPESCRIPT.into()
}

/// `tree_sitter_typescript::LANGUAGE_TSX`: the language of the TSX grammar.
#[verifier::external_body]
fn tsx_language() -> (out: Language)
    ensures
        language_grammar(out) == NativeGrammar::Tsx,
{
    tree_sitter_typescript::LANGUAGE_TSX.into()
}

/// The language of a grammar.
pub(crate) fn language(grammar: NativeGrammar) -> (out: Language)
    ensures
        language_grammar(out) == grammar,
{
    match grammar {
        NativeGrammar::Rust => rust_language(),
        NativeGrammar::TypeScript => typescript_language(),
        NativeGrammar::Tsx => tsx_language(),
    }
}

/// `Parser::set_language` and `Parser::parse` on a new parser: the tree of a
/// source. Whether the runtime accepts the language, whether there is a tree
/// and what it holds depend on the language and the source alone.
#[verifier::external_body]
pub(crate) fn parse(language: &Language, source: &str) -> (out: Result<Option<Tree>, String>)
    ensures
        match out {
            Err(message) => language_fault(language_grammar(*language)) == Some(message@),
            Ok(tree) => language_fault(language_grammar(*language)) is None && (tree is Some
                <==> gives_tree(language_grammar(*language), source@)) && (tree matches Some(tree)
                ==> tree_contents(tree) == (language_grammar(*language), source@)),
        },
{
    let mut parser = Parser::new();
    parser.set_language(language).map_err(|e| e.to_string())?;
    Ok(parser.parse(source, None))
}

/// `Node::has_error` of the root: whether the tree holds a syntax error.
#[verifier::external_body]
pub(crate) fn has_error(tree: &Tree) -> (yes: bool)
    ensures
        yes == tree_errs(tree_contents(*tree).0, tree_contents(*tree).1),
{
    tree.root_node().has_error()
}

/// `Query::new`: compile a query for a language. Whether it compiles, and the
/// message if it does not, depend on the two alone.
#[verifier::external_body]
pub(crate) fn compile(language: &Language, query: &str) -> (out: Result<Query, String>)
    ensures
        match out {
            Ok(compiled) => query_fault(language_grammar(*language), query@) is None
                && query_contents(compiled) == (language_grammar(*language), query@),
            Err(message) => query_fault(language_grammar(*language), query@) == Some(message@),
        },
{
    Query::new(language, query).map_err(|e| e.to_string())
}

/// `Query::capture_index_for_name`: the number of a capture by its name.
#[verifier::external_body]
pub(crate) fn capture_index(query: &Query, name: &str) -> (out: Option<u32>)
    ensures
        out == capture_number(query_contents(*query).0, query_contents(*query).1, name@),
{
    query.capture_index_for_name(name)
}

/// `QueryCursor::matches` on the root of the tree of `source`: the captures of
/// each match, with the number, the byte range and the row of each.
#[verifier::external_body]
pub(crate) fn matches(query: &Query, tree: &Tree, source: &str) -> (out: Vec<
    Vec<(u32, (usize, usize, usize))>,
>)
    requires
        tree_contents(*tree) == (query_contents(*query).0, source@),
    ensures
        match_views(out@) == query_matches(
            query_contents(*query).0,
            query_contents(*query).1,
            source@,
        ),
{
    let mut cursor = QueryCursor::new();
    let found = cursor.matches(query, tree.root_node(), source.as_bytes());
    let place = |n: Node| (n.start_byte(), n.end_byte(), n.start_position().row);
    found.map_deref(|m| m.captures().iter().map(|c| (c.index, place(c.node))).collect()).collect()
}

/// `Node::descendant_for_byte_range` of the root, and `Node::parent` from
/// there: the byte ranges of the smallest node that spans a range and of its
/// ancestors, from the inside out.
#[verifier::external_body]
pub(crate) fn spanning(tree: &Tree, start: usize, end: usize) -> (out: Vec<(usize, usize)>)
    ensures
        out@ == spanning_ranges(tree_contents(*tree).0, tree_contents(*tree).1, start, end),
{
    let node = tree.root_node().descendant_for_byte_range(start, end);
    std::iter::successors(node, Node::parent).map(|n| (n.start_byte(), n.end_byte())).collect()
}

/// `Node::prev_named_sibling`, from the ancestor `up` levels above the
/// smallest node that spans a range: the byte range and the kind of each
/// earlier named sibling, nearest first.
#[verifier::external_body]
pub(crate) fn siblings_before(tree: &Tree, start: usize, end: usize, up: usize) -> (out: Vec<
    (usize, usize, String),
>)
    ensures
        sibling_views(out@) == earlier_siblings(
            tree_contents(*tree).0,
            tree_contents(*tree).1,
            start,
            end,
            up,
        ),
{
    let node = tree.root_node().descendant_for_byte_range(start, end);
    let node = std::iter::successors(node, Node::parent).nth(up);
    std::iter::successors(node.and_then(|n| n.prev_named_sibling()), Node::prev_named_sibling)
        .map(|n| (n.start_byte(), n.end_byte(), n.kind().to_string()))
        .collect()
}

} // verus!
