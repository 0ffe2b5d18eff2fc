//! Where a skeleton goes in an existing test file, and how it is put there.
//!
//! Existing characters are only copied; every edit lands between extracted
//! spans, on a line of its own. Positions count characters.

use vstd::prelude::*;
use crate::bytes::width;
use crate::check::{is_among, Expected};
use crate::error::Error;
use crate::extract::{ActualKind, SourceNode};
use crate::text::{
    chars_of, is_whitespace, owned, replace, same, strip_prefix, text_between, trim, trimmed_len,
    white_prefix,
};

verus! {

use vstd::utf8::encode_utf8;
use crate::bytes::{lemma_encode_concat, lemma_encode_push, width_of};
use crate::check::ExpectedView;
use crate::error::ErrorView;
use crate::extract::{source_view, SourceView};
use crate::paths::last_position;
use crate::text::{
    all_white, has_part, is_white, law_every_place_is_replaced, lemma_end_parts, lemma_start_parts,
    occurs_at, replaced, trimmed, trimmed_end, trimmed_start, views,
};
use crate::todo::end_of_line;

broadcast use {
    crate::extract::lemma_source_children,
    vstd::string::group_string_axioms,
};

/// The error of a merge that cannot be done safely.
pub open spec fn merge_error(message: Seq<char>) -> ErrorView {
    ErrorView::Merge { message }
}

fn refuse(message: &str) -> (out: Error)
    ensures
        out@ == merge_error(message@),
{
    Error::Merge { message: owned(message) }
}

/// The position of the character that starts at a byte offset; the offset
/// behind the last character is the position behind it.
pub open spec fn position_of(s: Seq<char>, offset: nat) -> Option<int>
    decreases s.len(),
{
    if offset == 0 {
        Some(0)
    } else if s.len() == 0 || offset < width_of(s[0]) {
        None
    } else {
        match position_of(s.drop_first(), (offset - width_of(s[0])) as nat) {
            Some(k) => Some(k + 1),
            None => None,
        }
    }
}

proof fn lemma_position_in(s: Seq<char>, offset: nat)
    ensures
        position_of(s, offset) matches Some(k) ==> 0 <= k <= s.len(),
    decreases s.len(),
{
    if offset > 0 && s.len() > 0 && offset >= width_of(s[0]) {
        lemma_position_in(s.drop_first(), (offset - width_of(s[0])) as nat);
    }
}

/// The position of the character that starts at a byte offset.
pub fn char_position(chars: &[char], offset: usize) -> (out: Option<usize>)
    ensures
        match out {
            Some(k) => position_of(chars@, offset as nat) == Some(k as int) && k <= chars@.len(),
            None => position_of(chars@, offset as nat) is None,
        },
{
    let mut left: usize = offset;
    let mut k: usize = 0;
    assert(chars@.skip(0) =~= chars@);
    while k < chars.len() && left > 0
        invariant
            k <= chars@.len(),
            match position_of(chars@.skip(k as int), left as nat) {
                Some(more) => position_of(chars@, offset as nat) == Some(k + more),
                None => position_of(chars@, offset as nat) is None,
            },
        decreases chars@.len() - k,
    {
        let n: usize = width(chars[k]);
        assert(chars@.skip(k as int)[0] == chars@[k as int]);
        assert(chars@.skip(k as int).drop_first() =~= chars@.skip(k + 1));
        if left < n {
            return None;
        }
        left -= n;
        k += 1;
    }
    if left > 0 {
        return None;
    }
    Some(k)
}

/// Definitions with their spans counted in characters; nothing if a span
/// splits a character or lies outside of the text.
pub open spec fn in_chars(s: Seq<char>, nodes: Seq<SourceView>) -> Option<Seq<SourceView>>
    decreases nodes,
{
    if nodes.len() == 0 {
        Some(Seq::empty())
    } else {
        let last = nodes.last();
        match (
            in_chars(s, nodes.drop_last()),
            position_of(s, last.start),
            position_of(s, last.end),
            in_chars(s, last.children),
        ) {
            (Some(before), Some(start), Some(end), Some(children)) => Some(
                before.push(
                    SourceView { start: start as nat, end: end as nat, children, ..last },
                ),
            ),
            _ => None,
        }
    }
}

proof fn lemma_in_chars_stops(s: Seq<char>, nodes: Seq<SourceView>, n: int)
    requires
        0 <= n <= nodes.len(),
        in_chars(s, nodes.take(n)) is None,
    ensures
        in_chars(s, nodes) is None,
    decreases nodes.len() - n,
{
    if n < nodes.len() {
        assert(nodes.take(n + 1).drop_last() =~= nodes.take(n));
        lemma_in_chars_stops(s, nodes, n + 1);
    } else {
        assert(nodes.take(n) =~= nodes);
    }
}

/// Whether the spans of definitions lie in a text of `len` characters.
pub open spec fn spans_in(nodes: Seq<SourceView>, len: nat) -> bool
    decreases nodes,
{
    nodes.len() == 0 || {
        let last = nodes.last();
        &&& last.start <= len
        &&& last.end <= len
        &&& spans_in(last.children, len)
        &&& spans_in(nodes.drop_last(), len)
    }
}

/// Each definition of a text lies in it.
pub proof fn lemma_span_in(nodes: Seq<SourceView>, len: nat, i: int)
    requires
        spans_in(nodes, len),
        0 <= i < nodes.len(),
    ensures
        nodes[i].start <= len,
        nodes[i].end <= len,
        spans_in(nodes[i].children, len),
    decreases nodes.len(),
{
    if i < nodes.len() - 1 {
        lemma_span_in(nodes.drop_last(), len, i);
        assert(nodes.drop_last()[i] == nodes[i]);
    }
}

/// Definitions with their spans counted in characters; nothing if a span
/// splits a character or lies outside of the text.
pub fn count_in_chars(chars: &[char], nodes: &Vec<SourceNode>) -> (out: Option<Vec<SourceNode>>)
    ensures
        match out {
            Some(found) => in_chars(chars@, views(nodes@)) == Some(views(found@)) && spans_in(
                views(found@),
                chars@.len(),
            ),
            None => in_chars(chars@, views(nodes@)) is None,
        },
    decreases nodes,
{
    let ghost all = views(nodes@);
    let mut out: Vec<SourceNode> = Vec::new();
    let mut i: usize = 0;
    assert(all.take(0) =~= Seq::empty());
    assert(views(out@) =~= Seq::empty());
    while i < nodes.len()
        invariant
            i <= nodes@.len(),
            all == views(nodes@),
            in_chars(chars@, all.take(i as int)) == Some(views(out@)),
            spans_in(views(out@), chars@.len()),
        decreases nodes@.len() - i,
    {
        let node = &nodes[i];
        let ghost before = views(out@);
        proof {
            assert(all.take(i + 1).drop_last() =~= all.take(i as int));
            assert(all.take(i + 1).last() == node@);
            assert(node@ == source_view(*node));
            if in_chars(chars@, all.take(i + 1)) is None {
                lemma_in_chars_stops(chars@, all, i + 1);
            }
        }
        let start: usize = match char_position(chars, node.start) {
            Some(start) => start,
            None => {
                return None;
            },
        };
        let end: usize = match char_position(chars, node.end) {
            Some(end) => end,
            None => {
                return None;
            },
        };
        let children = match count_in_chars(chars, &node.children) {
            Some(children) => children,
            None => {
                return None;
            },
        };
        let counted = SourceNode {
            kind: node.kind,
            name: node.name.clone(),
            line: node.line,
            start,
            end,
            children,
        };
        out.push(counted);
        proof {
            assert(counted@ == source_view(counted));
            assert(counted@.children == views(children@));
            assert(counted@ == (SourceView {
                start: start as nat,
                end: end as nat,
                children: views(children@),
                ..node@
            }));
            assert(views(out@) =~= before.push(counted@));
            assert(views(out@).drop_last() =~= before);
        }
        i += 1;
    }
    assert(all.take(i as int) =~= all);
    Some(out)
}

/// Where the line that holds a position starts.
pub open spec fn line_start(s: Seq<char>, pos: int) -> int {
    match last_position(s.take(pos), '\n') {
        Some(i) => i + 1,
        None => 0,
    }
}

fn start_of_line(chars: &[char], pos: usize) -> (out: usize)
    requires
        pos <= chars@.len(),
    ensures
        out == line_start(chars@, pos as int),
        out <= pos,
{
    let mut n: usize = pos;
    while n > 0
        invariant
            n <= pos <= chars@.len(),
            last_position(chars@.take(n as int), '\n') == last_position(
                chars@.take(pos as int),
                '\n',
            ),
        decreases n,
    {
        assert(chars@.take(n as int).last() == chars@[n - 1]);
        if chars[n - 1] == '\n' {
            return n;
        }
        assert(chars@.take(n as int).drop_last() =~= chars@.take(n - 1));
        n -= 1;
    }
    0
}

/// Where the line after the one that holds a position starts, or the end of
/// the text.
pub open spec fn next_line(s: Seq<char>, pos: int) -> int {
    let end = end_of_line(s, pos);
    if end < s.len() {
        end + 1
    } else {
        end
    }
}

fn start_of_next(chars: &[char], pos: usize) -> (out: usize)
    requires
        pos <= chars@.len(),
    ensures
        out == next_line(chars@, pos as int),
        pos <= out <= chars@.len(),
        pos < chars@.len() ==> pos < out,
{
    let mut end: usize = pos;
    while end < chars.len() && chars[end] != '\n'
        invariant
            pos <= end <= chars@.len(),
            end_of_line(chars@, end as int) == end_of_line(chars@, pos as int),
        decreases chars@.len() - end,
    {
        end += 1;
    }
    if end < chars.len() {
        end + 1
    } else {
        end
    }
}

/// Where the line after a definition that ends at a position starts: nothing
/// but white space and semicolons may follow on its line.
pub open spec fn line_end(s: Seq<char>, pos: int) -> Result<int, ErrorView> {
    let next = next_line(s, pos);
    if forall|i: int| pos <= i < next ==> is_white(#[trigger] s[i]) || s[i] == ';' {
        Ok(next)
    } else {
        Err(merge_error("a definition does not end at a clean line boundary"@))
    }
}

fn end_of_definition(chars: &[char], pos: usize) -> (out: Result<usize, Error>)
    requires
        pos <= chars@.len(),
    ensures
        match out {
            Ok(next) => line_end(chars@, pos as int) == Ok::<int, ErrorView>(next as int) && pos
                <= next <= chars@.len(),
            Err(e) => line_end(chars@, pos as int) == Err::<int, ErrorView>(e@),
        },
{
    let next: usize = start_of_next(chars, pos);
    let mut i: usize = pos;
    while i < next
        invariant
            pos <= i <= next <= chars@.len(),
            next == next_line(chars@, pos as int),
            forall|j: int| pos <= j < i ==> is_white(#[trigger] chars@[j]) || chars@[j] == ';',
        decreases next - i,
    {
        if !is_whitespace(chars[i]) && chars[i] != ';' {
            return Err(refuse("a definition does not end at a clean line boundary"));
        }
        i += 1;
    }
    Ok(next)
}

/// The white space that the line of a position starts with, up to the
/// position.
pub open spec fn line_indent(s: Seq<char>, pos: int) -> Seq<char> {
    let prefix = s.subrange(line_start(s, pos), pos);
    prefix.take(prefix.len() - trimmed_start(prefix).len())
}

fn indent_of_line(chars: &[char], pos: usize) -> (out: String)
    requires
        pos <= chars@.len(),
    ensures
        out@ == line_indent(chars@, pos as int),
{
    let start: usize = start_of_line(chars, pos);
    let prefix = chars_of(text_between(chars, start, pos).as_str());
    let n: usize = white_prefix(&prefix, prefix.len());
    assert(prefix@.take(prefix@.len() as int) =~= prefix@);
    assert(prefix@.subrange(n as int, prefix@.len() as int).len() == prefix@.len() - n);
    let out = text_between(&prefix, 0, n);
    assert(out@ =~= prefix@.take(n as int));
    out
}

/// The start of the line that closes a block, where the block's last line
/// starts with its closing bracket and is not its first.
pub open spec fn closing_line(s: Seq<char>, start: int, end: int) -> Result<int, ErrorView> {
    let refused = Err(merge_error("an empty parent block has no clean closing line"@));
    if end < start {
        refused
    } else {
        let last = start + trimmed_end(s.subrange(start, end)).len();
        let close = line_start(
            s,
            if last > 0 {
                last - 1
            } else {
                0
            },
        );
        let closing = trimmed_start(s.subrange(close, last));
        if close <= start || closing.len() == 0 || (closing[0] != '}' && closing[0] != ')') {
            refused
        } else {
            Ok(close)
        }
    }
}

fn find_closing_line(chars: &[char], start: usize, end: usize) -> (out: Result<usize, Error>)
    requires
        start <= chars@.len(),
        end <= chars@.len(),
    ensures
        match out {
            Ok(close) => closing_line(chars@, start as int, end as int) == Ok::<int, ErrorView>(
                close as int,
            ) && close <= chars@.len(),
            Err(e) => closing_line(chars@, start as int, end as int) == Err::<int, ErrorView>(e@),
        },
{
    if end < start {
        return Err(refuse("an empty parent block has no clean closing line"));
    }
    let body = chars_of(text_between(chars, start, end).as_str());
    let n: usize = trimmed_len(&body);
    assert(body@.take(n as int).len() == n);
    let last: usize = start + n;
    let close: usize = start_of_line(
        chars,
        if last > 0 {
            last - 1
        } else {
            0
        },
    );
    let closing = chars_of(text_between(chars, close, last).as_str());
    let lead: usize = white_prefix(&closing, closing.len());
    proof {
        assert(closing@.take(closing@.len() as int) =~= closing@);
        let rest = trimmed_start(closing@);
        assert(rest.len() == closing@.len() - lead);
        if rest.len() > 0 {
            assert(rest[0] == closing@[lead as int]);
        }
    }
    if close <= start || lead >= closing.len() || (closing[lead] != '}' && closing[lead] != ')') {
        return Err(refuse("an empty parent block has no clean closing line"));
    }
    Ok(close)
}

/// The first indentation step from a block to its first child that the file
/// shows, in document order.
pub open spec fn indent_unit(s: Seq<char>, nodes: Seq<SourceView>, i: int) -> Option<Seq<char>>
    decreases nodes, nodes.len() - i,
{
    if i < 0 || i >= nodes.len() {
        None
    } else {
        let node = nodes[i];
        let step = if node.kind == ActualKind::Block && node.children.len() > 0 {
            step_between(
                line_indent(s, node.start as int),
                line_indent(s, node.children[0].start as int),
            )
        } else {
            None
        };
        let inner = if node.kind == ActualKind::Block {
            indent_unit(s, node.children, 0)
        } else {
            None
        };
        if step is Some {
            step
        } else if inner is Some {
            inner
        } else {
            indent_unit(s, nodes, i + 1)
        }
    }
}

/// What an indentation adds to another, if it starts with it and is longer.
pub open spec fn step_between(outer: Seq<char>, inner: Seq<char>) -> Option<Seq<char>> {
    if outer.is_prefix_of(inner) && outer.len() < inner.len() {
        Some(inner.skip(outer.len() as int))
    } else {
        None
    }
}

/// The first indentation step that the file shows.
pub fn observed_indent_unit(chars: &[char], nodes: &Vec<SourceNode>) -> (out: Option<String>)
    requires
        spans_in(views(nodes@), chars@.len()),
    ensures
        crate::text::opt_view(out) == indent_unit(chars@, views(nodes@), 0),
    decreases nodes,
{
    let ghost all = views(nodes@);
    let mut i: usize = 0;
    while i < nodes.len()
        invariant
            i <= nodes@.len(),
            all == views(nodes@),
            spans_in(all, chars@.len()),
            indent_unit(chars@, all, i as int) == indent_unit(chars@, all, 0),
        decreases nodes@.len() - i,
    {
        let node = &nodes[i];
        proof {
            assert(all[i as int] == node@);
            assert(node@ == source_view(*node));
            lemma_span_in(all, chars@.len(), i as int);
        }
        if let ActualKind::Block = node.kind {
            if node.children.len() > 0 {
                proof {
                    assert(node@.children[0] == node.children@[0]@);
                    lemma_span_in(node@.children, chars@.len(), 0);
                }
                let outer = indent_of_line(chars, node.start);
                let inner = indent_of_line(chars, node.children[0].start);
                if let Some(unit) = strip_prefix(inner.as_str(), outer.as_str()) {
                    if !unit.as_str().is_empty() {
                        return Some(unit);
                    }
                }
            }
            if let Some(unit) = observed_indent_unit(chars, &node.children) {
                return Some(unit);
            }
        }
        i += 1;
    }
    None
}

/// How many definitions are transparent wrapper blocks.
pub open spec fn wrapper_count(nodes: Seq<SourceView>, wrappers: Seq<Seq<char>>) -> nat
    decreases nodes.len(),
{
    if nodes.len() == 0 {
        0
    } else {
        wrapper_count(nodes.drop_last(), wrappers) + if is_wrapper(nodes.last(), wrappers) {
            1nat
        } else {
            0nat
        }
    }
}

/// Whether a definition is a transparent wrapper block.
pub open spec fn is_wrapper(node: SourceView, wrappers: Seq<Seq<char>>) -> bool {
    node.kind == ActualKind::Block && wrappers.contains(node.name)
}

/// The first transparent wrapper block from definition `i` on.
pub open spec fn first_wrapper(nodes: Seq<SourceView>, wrappers: Seq<Seq<char>>, i: int) -> Option<
    int,
>
    decreases nodes.len() - i,
{
    if i < 0 || i >= nodes.len() {
        None
    } else if is_wrapper(nodes[i], wrappers) {
        Some(i)
    } else {
        first_wrapper(nodes, wrappers, i + 1)
    }
}

/// Where new definitions go: the place of the wrapper block among the
/// top-level definitions, if there is one.
pub open spec fn root_of(nodes: Seq<SourceView>, wrappers: Seq<Seq<char>>) -> Result<
    Option<int>,
    ErrorView,
> {
    if wrapper_count(nodes, wrappers) > 1 {
        Err(
            merge_error(
                "multiple transparent wrapper blocks make the insertion root ambiguous"@,
            ),
        )
    } else {
        Ok(first_wrapper(nodes, wrappers, 0))
    }
}

proof fn lemma_first_wrapper(nodes: Seq<SourceView>, wrappers: Seq<Seq<char>>, i: int)
    requires
        0 <= i,
        forall|j: int| 0 <= j < i && j < nodes.len() ==> !is_wrapper(#[trigger] nodes[j], wrappers),
    ensures
        first_wrapper(nodes, wrappers, 0) == first_wrapper(nodes, wrappers, i),
    decreases i,
{
    if i > 0 {
        lemma_first_wrapper(nodes, wrappers, i - 1);
        if i - 1 < nodes.len() {
            assert(!is_wrapper(nodes[i - 1], wrappers));
        }
    }
}

proof fn lemma_wrapper_count_grows(nodes: Seq<SourceView>, wrappers: Seq<Seq<char>>, n: int)
    requires
        0 <= n <= nodes.len(),
    ensures
        wrapper_count(nodes.take(n), wrappers) <= wrapper_count(nodes, wrappers),
    decreases nodes.len() - n,
{
    if n < nodes.len() {
        lemma_wrapper_count_grows(nodes, wrappers, n + 1);
        assert(nodes.take(n + 1).drop_last() =~= nodes.take(n));
    } else {
        assert(nodes.take(n) =~= nodes);
    }
}

/// The place of the wrapper block among the top-level definitions, if there
/// is one.
///
/// # Errors
///
/// More than one wrapper block.
pub fn merge_root(nodes: &Vec<SourceNode>, wrappers: &Vec<String>) -> (out: Result<
    Option<usize>,
    Error,
>)
    ensures
        match out {
            Ok(Some(at)) => root_of(views(nodes@), views(wrappers@)) == Ok::<
                Option<int>,
                ErrorView,
            >(Some(at as int)) && at < nodes@.len() && nodes@[at as int].kind == ActualKind::Block,
            Ok(None) => root_of(views(nodes@), views(wrappers@)) == Ok::<Option<int>, ErrorView>(
                None,
            ),
            Err(e) => root_of(views(nodes@), views(wrappers@)) == Err::<Option<int>, ErrorView>(
                e@,
            ),
        },
{
    let ghost all = views(nodes@);
    let ghost names = views(wrappers@);
    let mut found: Option<usize> = None;
    let mut i: usize = 0;
    assert(all.take(0) =~= Seq::empty());
    while i < nodes.len()
        invariant
            i <= nodes@.len(),
            all == views(nodes@),
            names == views(wrappers@),
            match found {
                Some(at) => at < i && is_wrapper(all[at as int], names) && first_wrapper(
                    all,
                    names,
                    0,
                ) == Some(at as int) && wrapper_count(all.take(i as int), names) == 1,
                None => wrapper_count(all.take(i as int), names) == 0 && forall|j: int|
                    0 <= j < i ==> !is_wrapper(#[trigger] all[j], names),
            },
        decreases nodes@.len() - i,
    {
        let node = &nodes[i];
        proof {
            assert(all.take(i + 1).drop_last() =~= all.take(i as int));
            assert(all.take(i + 1).last() == node@);
            assert(all[i as int] == node@);
            assert(node@ == source_view(*node));
        }
        let wraps = match node.kind {
            ActualKind::Block => is_among(wrappers, node.name.as_str()),
            ActualKind::Test => false,
        };
        if wraps {
            if found.is_some() {
                proof {
                    lemma_wrapper_count_grows(all, names, i + 1);
                }
                return Err(
                    refuse("multiple transparent wrapper blocks make the insertion root ambiguous"),
                );
            }
            proof {
                lemma_first_wrapper(all, names, i as int);
            }
            found = Some(i);
        }
        i += 1;
    }
    proof {
        assert(all.take(i as int) =~= all);
        if found is None {
            lemma_first_wrapper(all, names, i as int);
        }
    }
    Ok(found)
}

/// How many definitions have a kind and a name.
pub open spec fn match_count(nodes: Seq<SourceView>, kind: ActualKind, name: Seq<char>) -> nat
    decreases nodes.len(),
{
    if nodes.len() == 0 {
        0
    } else {
        match_count(nodes.drop_last(), kind, name) + if nodes.last().kind == kind
            && nodes.last().name == name {
            1nat
        } else {
            0nat
        }
    }
}

/// The first definition with a kind and a name from definition `i` on.
pub open spec fn first_match(
    nodes: Seq<SourceView>,
    kind: ActualKind,
    name: Seq<char>,
    i: int,
) -> Option<int>
    decreases nodes.len() - i,
{
    if i < 0 || i >= nodes.len() {
        None
    } else if nodes[i].kind == kind && nodes[i].name == name {
        Some(i)
    } else {
        first_match(nodes, kind, name, i + 1)
    }
}

proof fn lemma_first_match(nodes: Seq<SourceView>, kind: ActualKind, name: Seq<char>, i: int)
    requires
        0 <= i <= nodes.len(),
        match_count(nodes.take(i), kind, name) == 0,
    ensures
        first_match(nodes, kind, name, 0) == first_match(nodes, kind, name, i),
    decreases i,
{
    if i > 0 {
        assert(nodes.take(i).drop_last() =~= nodes.take(i - 1));
        assert(nodes.take(i).last() == nodes[i - 1]);
        lemma_first_match(nodes, kind, name, i - 1);
    }
}

proof fn lemma_match_count_grows(
    nodes: Seq<SourceView>,
    kind: ActualKind,
    name: Seq<char>,
    n: int,
)
    requires
        0 <= n <= nodes.len(),
    ensures
        match_count(nodes.take(n), kind, name) <= match_count(nodes, kind, name),
    decreases nodes.len() - n,
{
    if n < nodes.len() {
        lemma_match_count_grows(nodes, kind, name, n + 1);
        assert(nodes.take(n + 1).drop_last() =~= nodes.take(n));
    } else {
        assert(nodes.take(n) =~= nodes);
    }
}

/// What looking for a definition came to.
pub enum Match {
    /// There is none.
    Absent,
    /// There is one, at this place.
    One { at: usize },
    /// There are several.
    Several,
}

/// Look for a definition with a kind and a name.
pub fn find_match(nodes: &Vec<SourceNode>, kind: ActualKind, name: &str) -> (out: Match)
    ensures
        match out {
            Match::Absent => match_count(views(nodes@), kind, name@) == 0,
            Match::One { at } => match_count(views(nodes@), kind, name@) == 1 && first_match(
                views(nodes@),
                kind,
                name@,
                0,
            ) == Some(at as int) && at < nodes@.len(),
            Match::Several => match_count(views(nodes@), kind, name@) > 1,
        },
{
    let ghost all = views(nodes@);
    let mut found: Option<usize> = None;
    let mut i: usize = 0;
    assert(all.take(0) =~= Seq::empty());
    while i < nodes.len()
        invariant
            i <= nodes@.len(),
            all == views(nodes@),
            match found {
                Some(at) => at < i && first_match(all, kind, name@, 0) == Some(at as int)
                    && match_count(all.take(i as int), kind, name@) == 1,
                None => match_count(all.take(i as int), kind, name@) == 0,
            },
        decreases nodes@.len() - i,
    {
        let node = &nodes[i];
        proof {
            assert(all.take(i + 1).drop_last() =~= all.take(i as int));
            assert(all.take(i + 1).last() == node@);
            assert(all[i as int] == node@);
            assert(node@ == source_view(*node));
        }
        if node.kind == kind && same(node.name.as_str(), name) {
            if found.is_some() {
                proof {
                    lemma_match_count_grows(all, kind, name@, i + 1);
                }
                return Match::Several;
            }
            proof {
                lemma_first_match(all, kind, name@, i as int);
            }
            found = Some(i);
        }
        i += 1;
    }
    assert(all.take(i as int) =~= all);
    match found {
        Some(at) => Match::One { at },
        None => Match::Absent,
    }
}

/// Where a new definition goes and how it is indented: after the definition
/// before it, before the first of its siblings, before the line that closes
/// its empty parent, or at the end of a file without definitions.
pub open spec fn insertion_of(
    s: Seq<char>,
    siblings: Seq<SourceView>,
    previous: Option<int>,
    parent: Option<(int, int)>,
    unit: Option<Seq<char>>,
) -> Result<(int, Seq<char>), ErrorView> {
    match (previous, parent) {
        (Some(at), _) => match line_end(s, siblings[at].end as int) {
            Ok(pos) => Ok((pos, line_indent(s, siblings[at].start as int))),
            Err(e) => Err(e),
        },
        (None, _) if siblings.len() > 0 => Ok(
            (
                line_start(s, siblings[0].start as int),
                line_indent(s, siblings[0].start as int),
            ),
        ),
        (None, Some((start, end))) => match closing_line(s, start, end) {
            Err(e) => Err(e),
            Ok(close) => if line_indent(s, start) != line_indent(s, close) {
                Err(merge_error("parent delimiters use inconsistent indentation"@))
            } else {
                match unit {
                    None => Err(
                        merge_error("an empty block has no surrounding indentation sample"@),
                    ),
                    Some(unit) => Ok((close, line_indent(s, close) + unit)),
                }
            },
        },
        (None, None) => if s.len() > 0 && s.last() != '\n' {
            Err(merge_error("top-level append is not on a fresh line"@))
        } else {
            Ok((s.len() as int, Seq::empty()))
        },
    }
}

/// Where a new definition goes and how it is indented.
///
/// # Errors
///
/// No line-aligned insertion point can be proven.
pub fn insertion_point(
    chars: &[char],
    siblings: &Vec<SourceNode>,
    previous: Option<usize>,
    parent: Option<(usize, usize)>,
    unit: Option<&str>,
) -> (out: Result<(usize, String), Error>)
    requires
        spans_in(views(siblings@), chars@.len()),
        previous matches Some(at) ==> at < siblings@.len(),
        parent matches Some(span) ==> span.0 <= chars@.len() && span.1 <= chars@.len(),
    ensures
        ({
            let found = insertion_of(
                chars@,
                views(siblings@),
                match previous {
                    Some(at) => Some(at as int),
                    None => None,
                },
                match parent {
                    Some((start, end)) => Some((start as int, end as int)),
                    None => None,
                },
                crate::pack::str_view(unit),
            );
            match out {
                Ok((pos, indent)) => found == Ok::<(int, Seq<char>), ErrorView>(
                    (pos as int, indent@),
                ) && pos <= chars@.len(),
                Err(e) => found == Err::<(int, Seq<char>), ErrorView>(e@),
            }
        }),
{
    let ghost all = views(siblings@);
    assert(all.len() == siblings@.len());
    if let Some(at) = previous {
        proof {
            lemma_span_in(all, chars@.len(), at as int);
            assert(all[at as int] == siblings@[at as int]@);
        }
        let node = &siblings[at];
        assert(node@ == source_view(*node));
        let pos: usize = end_of_definition(chars, node.end)?;
        return Ok((pos, indent_of_line(chars, node.start)));
    }
    if siblings.len() > 0 {
        proof {
            lemma_span_in(all, chars@.len(), 0);
            assert(all[0] == siblings@[0]@);
        }
        let first = &siblings[0];
        assert(first@ == source_view(*first));
        return Ok((start_of_line(chars, first.start), indent_of_line(chars, first.start)));
    }
    if let Some((start, end)) = parent {
        let close: usize = find_closing_line(chars, start, end)?;
        let mut indent = indent_of_line(chars, close);
        if !same(indent_of_line(chars, start).as_str(), indent.as_str()) {
            return Err(refuse("parent delimiters use inconsistent indentation"));
        }
        return match unit {
            Some(unit) => {
                indent.append(unit);
                Ok((close, indent))
            },
            None => Err(refuse("an empty block has no surrounding indentation sample")),
        };
    }
    if chars.len() > 0 && chars[chars.len() - 1] != '\n' {
        return Err(refuse("top-level append is not on a fresh line"));
    }
    let nothing = String::new();
    assert(nothing@ =~= Seq::empty());
    Ok((chars.len(), nothing))
}

/// The lines from position `i` on with another indentation: a blank line stays
/// as it is, and every other line has `to` in place of `from`, or before it
/// where it does not start with `from`.
pub open spec fn reindented(raw: Seq<char>, from: Seq<char>, to: Seq<char>, i: int) -> Seq<char>
    decreases raw.len() - i,
{
    if i < 0 || i >= raw.len() {
        Seq::empty()
    } else {
        let next = next_line(raw, i);
        if next <= i || next > raw.len() {
            Seq::empty()
        } else {
            let line = raw.subrange(i, next);
            let moved = if trimmed(line).len() == 0 {
                line
            } else if from.is_prefix_of(line) {
                to + line.skip(from.len() as int)
            } else {
                to + line
            };
            moved + reindented(raw, from, to, i + line.len())
        }
    }
}

/// A text with another indentation.
pub fn reindent(raw: &str, from: &str, to: &str) -> (out: String)
    ensures
        out@ == reindented(raw@, from@, to@, 0),
{
    let chars = chars_of(raw);
    let mut out = String::new();
    let mut i: usize = 0;
    assert(out@ + reindented(raw@, from@, to@, 0) =~= reindented(raw@, from@, to@, 0));
    while i < chars.len()
        invariant
            i <= chars@.len(),
            chars@ == raw@,
            reindented(raw@, from@, to@, 0) == out@ + reindented(raw@, from@, to@, i as int),
        decreases chars@.len() - i,
    {
        let next: usize = start_of_next(&chars, i);
        let line = text_between(&chars, i, next);
        let ghost before = out@;
        let ghost rest = reindented(raw@, from@, to@, next as int);
        if trim(line.as_str()).as_str().is_empty() {
            out.append(line.as_str());
            assert(before + (line@ + rest) =~= out@ + rest);
        } else {
            out.append(to);
            match strip_prefix(line.as_str(), from) {
                Some(tail) => {
                    out.append(tail.as_str());
                    assert(before + ((to@ + tail@) + rest) =~= out@ + rest);
                },
                None => {
                    out.append(line.as_str());
                    assert(before + ((to@ + line@) + rest) =~= out@ + rest);
                },
            }
        }
        i = next;
    }
    assert(out@ + Seq::<char>::empty() =~= out@);
    out
}

/// The definitions among which new ones go: those of the wrapper block, or
/// the top-level ones.
pub open spec fn below_root(nodes: Seq<SourceView>, root: Option<int>) -> Seq<SourceView> {
    match root {
        Some(at) => nodes[at].children,
        None => nodes,
    }
}

/// The lines of one definition of a rendered scaffold, with another
/// indentation. A test that needs a marker brings the line before it along.
pub open spec fn snippet_of(
    rendered: Seq<char>,
    nodes: Seq<SourceView>,
    wrappers: Seq<Seq<char>>,
    wanted: ExpectedView,
    marked: bool,
    indent: Seq<char>,
) -> Result<Seq<char>, ErrorView> {
    match root_of(nodes, wrappers) {
        Err(e) => Err(e),
        Ok(root) => {
            let top = below_root(nodes, root);
            match first_match(top, wanted.kind, wanted.name, 0) {
                None => Err(
                    merge_error(
                        "the scaffold template did not produce `"@ + wanted.name + "`"@,
                    ),
                ),
                Some(at) => {
                    let found = top[at];
                    let line = line_start(rendered, found.start as int);
                    let start = if wanted.kind == ActualKind::Test && marked && line > 0 {
                        line_start(rendered, line - 1)
                    } else {
                        line
                    };
                    match line_end(rendered, found.end as int) {
                        Err(e) => Err(e),
                        Ok(end) => if end < start {
                            Err(
                                merge_error("a definition does not end at a clean line boundary"@),
                            )
                        } else {
                            Ok(
                                reindented(
                                    rendered.subrange(start, end),
                                    line_indent(rendered, found.start as int),
                                    indent,
                                    0,
                                ),
                            )
                        },
                    }
                },
            }
        },
    }
}

fn find_first(nodes: &Vec<SourceNode>, kind: ActualKind, name: &str) -> (out: Option<usize>)
    ensures
        match out {
            Some(at) => first_match(views(nodes@), kind, name@, 0) == Some(at as int) && at
                < nodes@.len(),
            None => first_match(views(nodes@), kind, name@, 0) is None,
        },
{
    let ghost all = views(nodes@);
    let mut i: usize = 0;
    while i < nodes.len()
        invariant
            i <= nodes@.len(),
            all == views(nodes@),
            first_match(all, kind, name@, i as int) == first_match(all, kind, name@, 0),
        decreases nodes@.len() - i,
    {
        let node = &nodes[i];
        assert(all[i as int] == node@);
        assert(node@ == source_view(*node));
        if node.kind == kind && same(node.name.as_str(), name) {
            return Some(i);
        }
        i += 1;
    }
    None
}

/// Cut the lines of one definition out of a rendered scaffold whose
/// definitions are `nodes`, and indent them anew.
///
/// # Errors
///
/// The scaffold does not hold the definition on lines of its own.
pub fn cut_snippet(
    rendered: &str,
    nodes: &Vec<SourceNode>,
    wrappers: &Vec<String>,
    wanted: &Expected,
    marked: bool,
    indent: &str,
) -> (out: Result<String, Error>)
    requires
        spans_in(views(nodes@), rendered@.len()),
    ensures
        ({
            let snippet = snippet_of(
                rendered@,
                views(nodes@),
                views(wrappers@),
                wanted@,
                marked,
                indent@,
            );
            match out {
                Ok(text) => snippet == Ok::<Seq<char>, ErrorView>(text@),
                Err(e) => snippet == Err::<Seq<char>, ErrorView>(e@),
            }
        }),
{
    let chars = chars_of(rendered);
    let ghost all = views(nodes@);
    assert(wanted@ == crate::check::expected_view(*wanted));
    let root = merge_root(nodes, wrappers)?;
    let top = match root {
        Some(at) => {
            proof {
                lemma_span_in(all, rendered@.len(), at as int);
                assert(all[at as int] == nodes@[at as int]@);
                assert(nodes@[at as int]@ == source_view(nodes@[at as int]));
            }
            &nodes[at].children
        },
        None => nodes,
    };
    let at: usize = match find_first(top, wanted.kind, wanted.name.as_str()) {
        Some(at) => at,
        None => {
            let mut message = owned("the scaffold template did not produce `");
            message.append(wanted.name.as_str());
            message.append("`");
            return Err(Error::Merge { message });
        },
    };
    let found = &top[at];
    proof {
        lemma_span_in(views(top@), rendered@.len(), at as int);
        assert(views(top@)[at as int] == found@);
        assert(found@ == source_view(*found));
    }
    let line: usize = start_of_line(&chars, found.start);
    let is_test = match wanted.kind {
        ActualKind::Test => true,
        ActualKind::Block => false,
    };
    let start: usize = if is_test && marked && line > 0 {
        start_of_line(&chars, line - 1)
    } else {
        line
    };
    let end: usize = end_of_definition(&chars, found.end)?;
    if end < start {
        return Err(refuse("a definition does not end at a clean line boundary"));
    }
    let raw = text_between(&chars, start, end);
    let shown = indent_of_line(&chars, found.start);
    Ok(reindent(raw.as_str(), shown.as_str(), indent))
}

/// Whether a text has a line feed without a carriage return before it.
pub open spec fn has_plain_newline(s: Seq<char>) -> bool {
    exists|i: int|
        0 <= i < s.len() && (#[trigger] s[i]) == '\n' && (i == 0 || s[i - 1] != '\r')
}

/// Whether a text has a carriage return and line feed.
pub open spec fn has_crlf(s: Seq<char>) -> bool {
    exists|i: int| 0 < i < s.len() && (#[trigger] s[i]) == '\n' && s[i - 1] == '\r'
}

/// Whether the lines of a text end with a carriage return and line feed, and
/// whether some end with a plain line feed.
pub fn newline_styles(chars: &[char]) -> (out: (bool, bool))
    ensures
        out == (has_crlf(chars@), has_plain_newline(chars@)),
{
    let mut crlf = false;
    let mut plain = false;
    let mut i: usize = 0;
    while i < chars.len()
        invariant
            i <= chars@.len(),
            crlf == exists|j: int|
                0 < j < i && (#[trigger] chars@[j]) == '\n' && chars@[j - 1] == '\r',
            plain == exists|j: int|
                0 <= j < i && (#[trigger] chars@[j]) == '\n' && (j == 0 || chars@[j - 1] != '\r'),
        decreases chars@.len() - i,
    {
        if chars[i] == '\n' {
            assert(chars@[i as int] == '\n');
            if i > 0 && chars[i - 1] == '\r' {
                crlf = true;
            } else {
                plain = true;
            }
        }
        i += 1;
    }
    (crlf, plain)
}

/// A text with the line ends of a file.
pub open spec fn in_style(text: Seq<char>, crlf: bool) -> Seq<char> {
    if crlf {
        replaced(replaced(text, "\r\n"@, "\n"@), "\n"@, "\r\n"@)
    } else {
        text
    }
}

/// A text with the line ends of a file.
pub fn with_newlines(text: String, crlf: bool) -> (out: String)
    ensures
        out@ == in_style(text@, crlf),
{
    proof {
        reveal_strlit("\r\n");
        reveal_strlit("\n");
    }
    if crlf {
        replace(replace(text.as_str(), "\r\n", "\n").as_str(), "\n", "\r\n")
    } else {
        text
    }
}

/// What insertions put at a position, in their order.
pub open spec fn text_at(edits: Seq<(int, Seq<char>)>, p: int) -> Seq<char>
    decreases edits.len(),
{
    if edits.len() == 0 {
        Seq::empty()
    } else {
        let before = text_at(edits.drop_last(), p);
        if edits.last().0 == p {
            before + edits.last().1
        } else {
            before
        }
    }
}

/// What stands before the character at a position after the insertions: at
/// the end of a text whose last line is not ended, the line is ended first.
pub open spec fn inserted_at(s: Seq<char>, edits: Seq<(int, Seq<char>)>, crlf: bool, p: int) -> Seq<
    char,
> {
    let text = text_at(edits, p);
    if p == s.len() && text.len() > 0 && s.len() > 0 && s.last() != '\n' {
        in_style("\n"@, crlf) + text
    } else {
        text
    }
}

/// The text from a position on, with the insertions.
pub open spec fn spliced(s: Seq<char>, edits: Seq<(int, Seq<char>)>, crlf: bool, p: int) -> Seq<
    char,
>
    decreases s.len() - p,
{
    if p < 0 || p >= s.len() {
        inserted_at(s, edits, crlf, s.len() as int)
    } else {
        inserted_at(s, edits, crlf, p) + seq![s[p]] + spliced(s, edits, crlf, p + 1)
    }
}

/// Edits by their models.
pub open spec fn edit_views(edits: Seq<(usize, String)>) -> Seq<(int, Seq<char>)> {
    edits.map_values(|edit: (usize, String)| (edit.0 as int, edit.1@))
}

fn append_at(edits: &Vec<(usize, String)>, p: usize, out: &mut String)
    ensures
        final(out)@ == old(out)@ + text_at(edit_views(edits@), p as int),
{
    let ghost all = edit_views(edits@);
    let ghost start = out@;
    let mut i: usize = 0;
    assert(all.take(0) =~= Seq::empty());
    assert(start + Seq::<char>::empty() =~= start);
    while i < edits.len()
        invariant
            i <= edits@.len(),
            all == edit_views(edits@),
            out@ == start + text_at(all.take(i as int), p as int),
        decreases edits@.len() - i,
    {
        let ghost before = out@;
        proof {
            assert(all.take(i + 1).drop_last() =~= all.take(i as int));
            assert(all.take(i + 1).last() == (edits@[i as int].0 as int, edits@[i as int].1@));
        }
        if edits[i].0 == p {
            out.append(edits[i].1.as_str());
            assert(out@ =~= start + text_at(all.take(i + 1), p as int));
        }
        i += 1;
    }
    assert(all.take(i as int) =~= all);
}

/// Copy a text and put the insertions where they go.
pub fn splice(chars: &[char], edits: &Vec<(usize, String)>, crlf: bool) -> (out: String)
    ensures
        out@ == spliced(chars@, edit_views(edits@), crlf, 0),
{
    let ghost all = edit_views(edits@);
    let mut out = String::new();
    let mut p: usize = 0;
    assert(out@ + spliced(chars@, all, crlf, 0) =~= spliced(chars@, all, crlf, 0));
    while p < chars.len()
        invariant
            p <= chars@.len(),
            all == edit_views(edits@),
            spliced(chars@, all, crlf, 0) == out@ + spliced(chars@, all, crlf, p as int),
        decreases chars@.len() - p,
    {
        let ghost before = out@;
        append_at(edits, p, &mut out);
        out.push(chars[p]);
        proof {
            let piece = inserted_at(chars@, all, crlf, p as int);
            let rest = spliced(chars@, all, crlf, p + 1);
            assert(before + (piece + seq![chars@[p as int]] + rest) =~= out@ + rest);
        }
        p += 1;
    }
    let mut tail = String::new();
    append_at(edits, p, &mut tail);
    assert(tail@ =~= text_at(all, p as int));
    let n: usize = chars.len();
    if !tail.as_str().is_empty() && n > 0 && chars[n - 1] != '\n' {
        let ghost before = out@;
        let newline = with_newlines(owned("\n"), crlf);
        out.append(newline.as_str());
        out.append(tail.as_str());
        assert(out@ =~= before + (newline@ + tail@));
    } else {
        out.append(tail.as_str());
    }
    out
}

/// Where the character at a position stands after the insertions, counted
/// from position `from` of the text.
pub open spec fn place_of(
    s: Seq<char>,
    edits: Seq<(int, Seq<char>)>,
    crlf: bool,
    from: int,
    p: int,
) -> int
    decreases p - from,
{
    if from >= p {
        inserted_at(s, edits, crlf, p).len() as int
    } else {
        inserted_at(s, edits, crlf, from).len() + 1 + place_of(s, edits, crlf, from + 1, p)
    }
}

proof fn lemma_place(
    s: Seq<char>,
    edits: Seq<(int, Seq<char>)>,
    crlf: bool,
    from: int,
    p: int,
)
    requires
        0 <= from <= p < s.len(),
    ensures
        ({
            let at = place_of(s, edits, crlf, from, p);
            0 <= at < spliced(s, edits, crlf, from).len() && spliced(s, edits, crlf, from)[at]
                == s[p]
        }),
    decreases p - from,
{
    let head = inserted_at(s, edits, crlf, from);
    if from < p {
        lemma_place(s, edits, crlf, from + 1, p);
        let at = place_of(s, edits, crlf, from + 1, p);
        assert(spliced(s, edits, crlf, from)[head.len() + 1 + at] == spliced(
            s,
            edits,
            crlf,
            from + 1,
        )[at]);
    } else {
        assert(spliced(s, edits, crlf, from)[head.len() as int] == s[p]);
    }
}

proof fn lemma_place_grows(
    s: Seq<char>,
    edits: Seq<(int, Seq<char>)>,
    crlf: bool,
    from: int,
    p: int,
    q: int,
)
    requires
        0 <= from <= p < q,
    ensures
        place_of(s, edits, crlf, from, p) < place_of(s, edits, crlf, from, q),
    decreases p - from,
{
    if from < p {
        lemma_place_grows(s, edits, crlf, from + 1, p, q);
    } else {
        lemma_place_nonneg(s, edits, crlf, from + 1, q);
    }
}

proof fn lemma_place_nonneg(
    s: Seq<char>,
    edits: Seq<(int, Seq<char>)>,
    crlf: bool,
    from: int,
    p: int,
)
    ensures
        place_of(s, edits, crlf, from, p) >= 0,
    decreases p - from,
{
    if from < p {
        lemma_place_nonneg(s, edits, crlf, from + 1, p);
    }
}

/// Whether a text stands in another one, each of its characters at its place
/// and the places in ascending order: taking away what stands at no place gives
/// the text back.
pub open spec fn stands_in(s: Seq<char>, out: Seq<char>, places: Seq<int>) -> bool {
    &&& places.len() == s.len()
    &&& forall|p: int|
        0 <= p < s.len() ==> 0 <= #[trigger] places[p] < out.len() && out[places[p]] == s[p]
    &&& forall|p: int, q: int| 0 <= p < q < s.len() ==> #[trigger] places[p] < #[trigger] places[q]
}

/// Where the characters of a text stand after the insertions.
pub open spec fn places_of(s: Seq<char>, edits: Seq<(int, Seq<char>)>, crlf: bool) -> Seq<int> {
    Seq::new(s.len(), |p: int| place_of(s, edits, crlf, 0, p))
}

/// Splicing only copies what was there: every character of a text stands in the
/// spliced text, in the old order.
pub proof fn law_splicing_only_inserts(s: Seq<char>, edits: Seq<(int, Seq<char>)>, crlf: bool)
    ensures
        stands_in(s, spliced(s, edits, crlf, 0), places_of(s, edits, crlf)),
{
    let out = spliced(s, edits, crlf, 0);
    let places = places_of(s, edits, crlf);
    assert forall|p: int| 0 <= p < s.len() implies 0 <= #[trigger] places[p] < out.len()
        && out[places[p]] == s[p] by {
        lemma_place(s, edits, crlf, 0, p);
    }
    assert forall|p: int, q: int| 0 <= p < q < s.len() implies #[trigger] places[p]
        < #[trigger] places[q] by {
        lemma_place_grows(s, edits, crlf, 0, p, q);
    }
}

/// Merging without insertions changes nothing.
pub proof fn law_splicing_nothing_is_identity(s: Seq<char>, crlf: bool)
    ensures
        spliced(s, Seq::empty(), crlf, 0) == s,
{
    lemma_splicing_nothing(s, crlf, 0);
    assert(s.skip(0) =~= s);
}

proof fn lemma_splicing_nothing(s: Seq<char>, crlf: bool, p: int)
    requires
        0 <= p <= s.len(),
    ensures
        spliced(s, Seq::empty(), crlf, p) == s.skip(p),
    decreases s.len() - p,
{
    assert(text_at(Seq::empty(), p) =~= Seq::empty());
    assert(text_at(Seq::empty(), s.len() as int) =~= Seq::empty());
    if p < s.len() {
        lemma_splicing_nothing(s, crlf, p + 1);
        assert(s.skip(p) =~= Seq::empty() + seq![s[p]] + s.skip(p + 1));
    } else {
        assert(s.skip(p) =~= Seq::empty());
    }
}

/// The position of a byte offset is the number of characters before it; an
/// offset inside a character has none.
pub proof fn law_positions_count_characters(a: Seq<char>, b: Seq<char>, offset: nat)
    ensures
        position_of(a + b, encode_utf8(a).len()) == Some(a.len() as int),
        position_of(a, offset) matches Some(k) ==> 0 <= k <= a.len() && encode_utf8(
            a.take(k),
        ).len() == offset,
    decreases a.len(),
{
    if a.len() > 0 {
        let rest = a.drop_first();
        let first = a[0];
        let w = width_of(first);
        lemma_encode_concat(seq![first], rest);
        lemma_encode_push(Seq::empty(), first);
        assert(Seq::<char>::empty().push(first) =~= seq![first]);
        assert(encode_utf8(seq![first]).len() == w) by {
            assert(encode_utf8(Seq::<char>::empty()).len() == 0);
        }
        assert(seq![first] + rest =~= a);
        vstd::utf8::char_is_scalar(first);
        assert(w > 0);
        assert((a + b).drop_first() =~= rest + b);
        assert((a + b)[0] == first);
        if offset > 0 && offset >= w {
            law_positions_count_characters(rest, b, (offset - w) as nat);
            match position_of(rest, (offset - w) as nat) {
                Some(k) => {
                    assert(seq![first] + rest.take(k) =~= a.take(k + 1));
                    lemma_encode_concat(seq![first], rest.take(k));
                },
                None => {},
            }
        } else {
            law_positions_count_characters(rest, b, 0);
            if offset == 0 {
                assert(encode_utf8(a.take(0)).len() == 0);
            }
        }
    } else {
        assert(encode_utf8(a).len() == 0);
        assert(a.take(0) =~= a);
        if offset > 0 {
        }
    }
}

/// Definitions counted in characters are the same definitions: only their
/// offsets become positions.
pub proof fn law_positions_replace_offsets(s: Seq<char>, nodes: Seq<SourceView>, i: int)
    requires
        in_chars(s, nodes) is Some,
        0 <= i < nodes.len(),
    ensures
        in_chars(s, nodes)->0.len() == nodes.len(),
        ({
            let moved = in_chars(s, nodes)->0[i];
            &&& moved.kind == nodes[i].kind
            &&& moved.name == nodes[i].name
            &&& moved.line == nodes[i].line
            &&& position_of(s, nodes[i].start) == Some(moved.start as int)
            &&& position_of(s, nodes[i].end) == Some(moved.end as int)
            &&& in_chars(s, nodes[i].children) == Some(moved.children)
        }),
    decreases nodes.len(),
{
    let front = nodes.drop_last();
    let last = nodes.last();
    lemma_position_in(s, last.start);
    lemma_position_in(s, last.end);
    if i < front.len() {
        law_positions_replace_offsets(s, front, i);
        assert(front[i] == nodes[i]);
        assert(in_chars(s, nodes)->0[i] == in_chars(s, front)->0[i]);
    } else {
        assert(nodes[i] == last);
        if front.len() > 0 {
            law_positions_replace_offsets(s, front, 0);
        }
    }
}

/// A line starts behind the last line feed before a place, and the next one
/// behind the first line feed at or behind it.
pub proof fn law_lines_lie_between_line_feeds(s: Seq<char>, pos: int)
    requires
        0 <= pos <= s.len(),
    ensures
        ({
            let start = line_start(s, pos);
            let next = next_line(s, pos);
            &&& 0 <= start <= pos <= next <= s.len()
            &&& start > 0 ==> s[start - 1] == '\n'
            &&& forall|k: int| start <= k < pos ==> #[trigger] s[k] != '\n'
            &&& forall|k: int| pos <= k < next - 1 ==> #[trigger] s[k] != '\n'
            &&& next < s.len() ==> pos < next && s[next - 1] == '\n'
        }),
{
    let head = s.take(pos);
    lemma_last_of(head, '\n');
    match last_position(head, '\n') {
        Some(i) => {
            assert(head[i] == s[i]);
            assert forall|k: int| i < k < pos implies #[trigger] s[k] != '\n' by {
                assert(head[k] == s[k]);
            }
        },
        None => {
            assert forall|k: int| 0 <= k < pos implies #[trigger] s[k] != '\n' by {
                assert(head[k] == s[k]);
            }
        },
    }
    lemma_end_of(s, pos);
}

proof fn lemma_last_of(s: Seq<char>, c: char)
    ensures
        match last_position(s, c) {
            Some(i) => 0 <= i < s.len() && s[i] == c && forall|k: int|
                i < k < s.len() ==> #[trigger] s[k] != c,
            None => forall|k: int| 0 <= k < s.len() ==> #[trigger] s[k] != c,
        },
    decreases s.len(),
{
    if s.len() > 0 && s.last() != c {
        let front = s.drop_last();
        lemma_last_of(front, c);
        assert(forall|k: int| 0 <= k < front.len() ==> #[trigger] front[k] == s[k]);
        match last_position(front, c) {
            Some(i) => {
                assert forall|k: int| i < k < s.len() implies #[trigger] s[k] != c by {
                    if k < front.len() {
                        assert(front[k] == s[k]);
                    }
                }
            },
            None => {
                assert forall|k: int| 0 <= k < s.len() implies #[trigger] s[k] != c by {
                    if k < front.len() {
                        assert(front[k] == s[k]);
                    }
                }
            },
        }
    }
}

proof fn lemma_end_of(s: Seq<char>, i: int)
    requires
        0 <= i <= s.len(),
    ensures
        ({
            let end = end_of_line(s, i);
            &&& i <= end <= s.len()
            &&& forall|k: int| i <= k < end ==> #[trigger] s[k] != '\n'
            &&& end < s.len() ==> s[end] == '\n'
        }),
    decreases s.len() - i,
{
    if i < s.len() && s[i] != '\n' {
        lemma_end_of(s, i + 1);
    }
}

/// The indentation of a place is the white space at the start of its line, up
/// to the place.
pub proof fn law_indentation_is_leading_white_space(s: Seq<char>, pos: int)
    requires
        0 <= pos <= s.len(),
    ensures
        ({
            let start = line_start(s, pos);
            let indent = line_indent(s, pos);
            &&& start + indent.len() <= pos
            &&& indent == s.subrange(start, start + indent.len())
            &&& all_white(indent)
            &&& start + indent.len() < pos ==> !is_white(s[start + indent.len()])
        }),
{
    law_lines_lie_between_line_feeds(s, pos);
    let start = line_start(s, pos);
    let prefix = s.subrange(start, pos);
    lemma_start_parts(prefix);
    let rest = trimmed_start(prefix);
    let n = prefix.len() - rest.len();
    let indent = line_indent(s, pos);
    assert(indent =~= s.subrange(start, start + indent.len()));
    if start + indent.len() < pos {
        assert(rest.len() > 0);
        assert(prefix.skip(n)[0] == prefix[n]);
        assert(prefix[n] == s[start + n]);
    }
}

/// The step from one indentation to a deeper one is what the deeper one adds.
pub proof fn law_steps_are_what_is_added(outer: Seq<char>, unit: Seq<char>, inner: Seq<char>)
    ensures
        unit.len() > 0 ==> step_between(outer, outer + unit) == Some(unit),
        step_between(outer, inner) matches Some(unit) ==> inner == outer + unit && unit.len() > 0,
{
    assert((outer + unit).take(outer.len() as int) =~= outer);
    assert((outer + unit).skip(outer.len() as int) =~= unit);
    if outer.is_prefix_of(inner) {
        assert(inner =~= outer + inner.skip(outer.len() as int));
    }
}

proof fn lemma_match_count_concat(
    a: Seq<SourceView>,
    b: Seq<SourceView>,
    kind: ActualKind,
    name: Seq<char>,
)
    ensures
        match_count(a + b, kind, name) == match_count(a, kind, name) + match_count(b, kind, name),
    decreases b.len(),
{
    if b.len() == 0 {
        assert(a + b =~= a);
    } else {
        lemma_match_count_concat(a, b.drop_last(), kind, name);
        assert((a + b).drop_last() =~= a + b.drop_last());
    }
}

/// A definition matches by its kind and its whole name, and the first that does
/// is the one found.
pub proof fn law_matches_are_by_kind_and_name(
    before: Seq<SourceView>,
    node: SourceView,
    after: Seq<SourceView>,
    kind: ActualKind,
    name: Seq<char>,
)
    ensures
        match_count(Seq::empty(), kind, name) == 0,
        match_count(before + seq![node] + after, kind, name) == match_count(before, kind, name) + (
        if node.kind == kind && node.name == name {
            1nat
        } else {
            0nat
        }) + match_count(after, kind, name),
        node.kind == kind && node.name == name && match_count(before, kind, name) == 0
            ==> first_match(before + seq![node] + after, kind, name, 0) == Some(
            before.len() as int,
        ),
        match_count(before, kind, name) == 0 ==> first_match(before, kind, name, 0) is None,
{
    reveal_with_fuel(match_count, 2);
    let one = seq![node];
    lemma_match_count_concat(before + one, after, kind, name);
    lemma_match_count_concat(before, one, kind, name);
    assert(one.drop_last() =~= Seq::empty());
    assert(one.last() == node);
    let all = before + one + after;
    if match_count(before, kind, name) == 0 {
        lemma_none_match(before, kind, name);
        lemma_match_passes(before, kind, name, 0, before.len() as int);
        assert forall|k: int| 0 <= k < before.len() implies !((#[trigger] all[k]).kind == kind
            && all[k].name == name) by {
            assert(all[k] == before[k]);
        }
        lemma_match_passes(all, kind, name, 0, before.len() as int);
        assert(all[before.len() as int] == node);
    }
}

proof fn lemma_none_match(nodes: Seq<SourceView>, kind: ActualKind, name: Seq<char>)
    requires
        match_count(nodes, kind, name) == 0,
    ensures
        forall|k: int|
            0 <= k < nodes.len() ==> !((#[trigger] nodes[k]).kind == kind && nodes[k].name == name),
    decreases nodes.len(),
{
    if nodes.len() > 0 {
        let front = nodes.drop_last();
        lemma_none_match(front, kind, name);
        assert forall|k: int| 0 <= k < nodes.len() implies !((#[trigger] nodes[k]).kind == kind
            && nodes[k].name == name) by {
            if k < front.len() {
                assert(front[k] == nodes[k]);
            }
        }
    }
}

proof fn lemma_match_passes(
    nodes: Seq<SourceView>,
    kind: ActualKind,
    name: Seq<char>,
    i: int,
    n: int,
)
    requires
        0 <= i <= n <= nodes.len(),
        forall|k: int|
            i <= k < n ==> !((#[trigger] nodes[k]).kind == kind && nodes[k].name == name),
    ensures
        first_match(nodes, kind, name, i) == first_match(nodes, kind, name, n),
    decreases n - i,
{
    if i < n {
        lemma_match_passes(nodes, kind, name, i + 1, n);
    }
}

/// A wrapper is a block with the name of one; a file with two has no root, and
/// one with none is its own.
pub proof fn law_the_root_is_the_only_wrapper(
    before: Seq<SourceView>,
    node: SourceView,
    after: Seq<SourceView>,
    wrappers: Seq<Seq<char>>,
)
    requires
        forall|k: int|
            0 <= k < before.len() ==> !((#[trigger] before[k]).kind == ActualKind::Block
                && wrappers.contains(before[k].name)),
    ensures
        root_of(before, wrappers) == Ok::<Option<int>, ErrorView>(None),
        node.kind == ActualKind::Block && wrappers.contains(node.name) && (forall|k: int|
            0 <= k < after.len() ==> !((#[trigger] after[k]).kind == ActualKind::Block
                && wrappers.contains(after[k].name))) ==> root_of(
            before + seq![node] + after,
            wrappers,
        ) == Ok::<Option<int>, ErrorView>(Some(before.len() as int)),
        node.kind == ActualKind::Block && wrappers.contains(node.name) && (exists|k: int|
            0 <= k < after.len() && (#[trigger] after[k]).kind == ActualKind::Block
                && wrappers.contains(after[k].name)) ==> root_of(
            before + seq![node] + after,
            wrappers,
        ) is Err,
{
    lemma_no_wrappers(before, wrappers);
    lemma_wrapper_passes(before, wrappers, 0, before.len() as int);
    let one = seq![node];
    let all = before + one + after;
    lemma_wrapper_count_concat(before + one, after, wrappers);
    lemma_wrapper_count_concat(before, one, wrappers);
    reveal_with_fuel(wrapper_count, 2);
    assert(one.drop_last() =~= Seq::empty());
    assert(one.last() == node);
    assert forall|k: int| 0 <= k < before.len() implies !is_wrapper(#[trigger] all[k], wrappers) by {
        assert(all[k] == before[k]);
    }
    lemma_wrapper_passes(all, wrappers, 0, before.len() as int);
    assert(all[before.len() as int] == node);
    if forall|k: int|
        0 <= k < after.len() ==> !((#[trigger] after[k]).kind == ActualKind::Block
            && wrappers.contains(after[k].name)) {
        lemma_no_wrappers(after, wrappers);
    } else {
        let k = choose|k: int|
            0 <= k < after.len() && (#[trigger] after[k]).kind == ActualKind::Block
                && wrappers.contains(after[k].name);
        lemma_some_wrapper(after, wrappers, k);
    }
}

proof fn lemma_wrapper_count_concat(
    a: Seq<SourceView>,
    b: Seq<SourceView>,
    wrappers: Seq<Seq<char>>,
)
    ensures
        wrapper_count(a + b, wrappers) == wrapper_count(a, wrappers) + wrapper_count(b, wrappers),
    decreases b.len(),
{
    if b.len() == 0 {
        assert(a + b =~= a);
    } else {
        lemma_wrapper_count_concat(a, b.drop_last(), wrappers);
        assert((a + b).drop_last() =~= a + b.drop_last());
    }
}

proof fn lemma_no_wrappers(nodes: Seq<SourceView>, wrappers: Seq<Seq<char>>)
    requires
        forall|k: int|
            0 <= k < nodes.len() ==> !((#[trigger] nodes[k]).kind == ActualKind::Block
                && wrappers.contains(nodes[k].name)),
    ensures
        wrapper_count(nodes, wrappers) == 0,
    decreases nodes.len(),
{
    if nodes.len() > 0 {
        let front = nodes.drop_last();
        assert(nodes[nodes.len() - 1] == nodes.last());
        assert forall|k: int| 0 <= k < front.len() implies !((#[trigger] front[k]).kind
            == ActualKind::Block && wrappers.contains(front[k].name)) by {
            assert(front[k] == nodes[k]);
        }
        lemma_no_wrappers(front, wrappers);
    }
}

proof fn lemma_some_wrapper(nodes: Seq<SourceView>, wrappers: Seq<Seq<char>>, k: int)
    requires
        0 <= k < nodes.len(),
        nodes[k].kind == ActualKind::Block,
        wrappers.contains(nodes[k].name),
    ensures
        wrapper_count(nodes, wrappers) > 0,
    decreases nodes.len(),
{
    let front = nodes.drop_last();
    if k < front.len() {
        assert(front[k] == nodes[k]);
        lemma_some_wrapper(front, wrappers, k);
    }
}

proof fn lemma_wrapper_passes(
    nodes: Seq<SourceView>,
    wrappers: Seq<Seq<char>>,
    i: int,
    n: int,
)
    requires
        0 <= i <= n <= nodes.len(),
        forall|k: int| i <= k < n ==> !is_wrapper(#[trigger] nodes[k], wrappers),
    ensures
        first_wrapper(nodes, wrappers, i) == first_wrapper(nodes, wrappers, n),
    decreases n - i,
{
    if i < n {
        lemma_wrapper_passes(nodes, wrappers, i + 1, n);
    }
}

/// A node goes in behind the sibling before it, on the next line and indented
/// like it; without one, before the first sibling; without any, on the closing
/// line of its parent, one unit deeper; without a parent, at the end of the
/// file. What would not stand on a line of its own is refused.
pub proof fn law_nodes_go_in_behind_the_sibling_before_them(
    s: Seq<char>,
    siblings: Seq<SourceView>,
    at: int,
    parent: Option<(int, int)>,
    start: int,
    end: int,
    close: int,
    step: Seq<char>,
    unit: Option<Seq<char>>,
)
    requires
        0 <= at < siblings.len(),
        siblings[at].end <= s.len(),
    ensures
        ({
            let next = next_line(s, siblings[at].end as int);
            let clean = forall|i: int|
                siblings[at].end <= i < next ==> is_white(#[trigger] s[i]) || s[i] == ';';
            &&& clean ==> insertion_of(s, siblings, Some(at), parent, unit) == Ok::<
                (int, Seq<char>),
                ErrorView,
            >((next, line_indent(s, siblings[at].start as int)))
            &&& !clean ==> insertion_of(s, siblings, Some(at), parent, unit) is Err
        }),
        insertion_of(s, siblings, None, parent, unit) == Ok::<(int, Seq<char>), ErrorView>(
            (line_start(s, siblings[0].start as int), line_indent(s, siblings[0].start as int)),
        ),
        closing_line(s, start, end) == Ok::<int, ErrorView>(close) && line_indent(s, start)
            == line_indent(s, close) ==> insertion_of(
            s,
            Seq::empty(),
            None,
            Some((start, end)),
            Some(step),
        ) == Ok::<(int, Seq<char>), ErrorView>((close, line_indent(s, close) + step)),
        insertion_of(s, Seq::empty(), None, Some((start, end)), None) is Err,
        insertion_of(s, Seq::empty(), None, None, unit) == (if s.len() > 0 && s.last() != '\n' {
            Err::<(int, Seq<char>), ErrorView>(
                merge_error("top-level append is not on a fresh line"@),
            )
        } else {
            Ok::<(int, Seq<char>), ErrorView>((s.len() as int, Seq::empty()))
        }),
{
}

/// Whether the line from `close` on holds nothing before a `}` or a `)` at `k`.
pub open spec fn closes_at(s: Seq<char>, close: int, k: int) -> bool {
    &&& close <= k < s.len()
    &&& s[k] == '}' || s[k] == ')'
    &&& all_white(s.subrange(close, k))
}

/// Whether `last` is the last character before `end` that is not white space,
/// and stands on the line from `close` on.
pub open spec fn is_last_of(s: Seq<char>, close: int, last: int, end: int) -> bool {
    &&& close <= last < end <= s.len()
    &&& !is_white(s[last])
    &&& all_white(s.subrange(last + 1, end))
    &&& !s.subrange(close, last).contains('\n')
}

/// The closing line of a block is the line of its last character that is not
/// white space; it lies behind the start of the block and holds nothing before
/// a `}` or a `)`.
pub proof fn law_closing_lines_start_with_a_bracket(s: Seq<char>, start: int, end: int)
    requires
        0 <= start <= end <= s.len(),
        closing_line(s, start, end) is Ok,
    ensures
        start < closing_line(s, start, end)->Ok_0,
        s[closing_line(s, start, end)->Ok_0 - 1] == '\n',
        exists|k: int| closes_at(s, closing_line(s, start, end)->Ok_0, k),
        exists|last: int| is_last_of(s, closing_line(s, start, end)->Ok_0, last, end),
{
    let body = s.subrange(start, end);
    lemma_end_parts(body);
    let n = trimmed_end(body).len() as int;
    let last = start + n;
    let from = if last > 0 {
        last - 1
    } else {
        0
    };
    law_lines_lie_between_line_feeds(s, from);
    let close = line_start(s, from);
    let line = s.subrange(close, last);
    lemma_start_parts(line);
    let closing = trimmed_start(line);
    let m = line.len() - closing.len();
    assert(close == closing_line(s, start, end)->Ok_0);
    assert(n > 0);
    assert(closes_at(s, close, close + m)) by {
        assert(line.skip(m)[0] == line[m]);
        assert(line[m] == s[close + m]);
        assert(s.subrange(close, close + m) =~= line.take(m));
    }
    assert(is_last_of(s, close, last - 1, end)) by {
        assert(trimmed_end(body) == body.take(n));
        assert(body.take(n).last() == s[last - 1]);
        assert(s.subrange(last, end) =~= body.skip(n));
        let head = s.subrange(close, last - 1);
        if head.contains('\n') {
            let j = choose|j: int| 0 <= j < head.len() && head[j] == '\n';
            assert(s[close + j] == '\n');
        }
    }
}

proof fn lemma_next_line_skips(raw: Seq<char>, i: int)
    requires
        0 <= i < raw.len(),
    ensures
        i < next_line(raw, i) <= raw.len(),
        forall|k: int|
            0 <= k <= i ==> next_line(#[trigger] raw.skip(k), i - k) == next_line(raw, i) - k,
{
    lemma_end_of(raw, i);
    assert forall|k: int| 0 <= k <= i implies next_line(#[trigger] raw.skip(k), i - k) == next_line(
        raw,
        i,
    ) - k by {
        lemma_end_of_skips(raw, k, i);
    }
}

proof fn lemma_end_of_skips(raw: Seq<char>, k: int, i: int)
    requires
        0 <= k <= i <= raw.len(),
    ensures
        end_of_line(raw.skip(k), i - k) == end_of_line(raw, i) - k,
    decreases raw.len() - i,
{
    if i < raw.len() {
        assert(raw.skip(k)[i - k] == raw[i]);
        if raw[i] != '\n' {
            lemma_end_of_skips(raw, k, i + 1);
        }
    }
}

proof fn lemma_reindented_skips(raw: Seq<char>, from: Seq<char>, to: Seq<char>, k: int, i: int)
    requires
        0 <= k <= i <= raw.len(),
    ensures
        reindented(raw.skip(k), from, to, i - k) == reindented(raw, from, to, i),
    decreases raw.len() - i,
{
    if i < raw.len() {
        lemma_next_line_skips(raw, i);
        let next = next_line(raw, i);
        let cut = raw.skip(k);
        assert(next_line(cut, i - k) == next - k);
        assert(cut.subrange(i - k, next - k) =~= raw.subrange(i, next));
        lemma_reindented_skips(raw, from, to, k, next);
    }
}

/// Text is indented anew line by line: a line of white space stays as it is, a
/// line with the old indentation has the new one in its place, and any other
/// line has the new one before it.
pub proof fn law_lines_are_indented_anew(
    line: Seq<char>,
    rest: Seq<char>,
    from: Seq<char>,
    to: Seq<char>,
)
    requires
        !line.contains('\n'),
    ensures
        reindented(Seq::empty(), from, to, 0) == Seq::<char>::empty(),
        ({
            let whole = line.push('\n');
            let moved = if trimmed(whole).len() == 0 {
                whole
            } else if from.is_prefix_of(whole) {
                to + whole.skip(from.len() as int)
            } else {
                to + whole
            };
            reindented(whole + rest, from, to, 0) == moved + reindented(rest, from, to, 0)
        }),
{
    let whole = line.push('\n');
    let raw = whole + rest;
    lemma_end_of(raw, 0);
    let end = end_of_line(raw, 0);
    assert(end == line.len()) by {
        assert(raw[line.len() as int] == '\n');
        if end < line.len() {
            assert(raw[end] == line[end]);
            assert(line.contains('\n'));
        }
    }
    assert(raw.subrange(0, whole.len() as int) =~= whole);
    lemma_reindented_skips(raw, from, to, whole.len() as int, whole.len() as int);
    assert(raw.skip(whole.len() as int) =~= rest);
}

/// Text for a file with CRLF line ends has them too: each line feed becomes
/// one; text for any other file stays as it is.
pub proof fn law_added_text_has_the_line_ends_of_the_file(line: Seq<char>, rest: Seq<char>)
    requires
        !line.contains('\n'),
        !has_part(line + seq!['\n'] + rest, "\r\n"@),
    ensures
        in_style(line + seq!['\n'] + rest, false) == line + seq!['\n'] + rest,
        in_style(line + seq!['\n'] + rest, true) == line + seq!['\r', '\n'] + in_style(rest, true),
{
    reveal_strlit("\r\n");
    reveal_strlit("\n");
    let lf = "\n"@;
    let crlf = "\r\n"@;
    assert(lf =~= seq!['\n']);
    assert(crlf =~= seq!['\r', '\n']);
    let text = line + seq!['\n'] + rest;
    law_every_place_is_replaced(text, crlf, Seq::empty(), lf);
    if has_part(rest, crlf) {
        let at = choose|at: int| occurs_at(rest, crlf, at);
        let k = line.len() + 1 + at;
        assert(text.subrange(k, k + 2) =~= rest.subrange(at, at + 2));
        assert(occurs_at(text, crlf, k));
    }
    law_every_place_is_replaced(rest, crlf, Seq::empty(), lf);
    assert(text =~= line + lf + rest);
    assert forall|k: int| 0 <= k < line.len() implies !#[trigger] occurs_at(
        line + lf + rest,
        lf,
        k,
    ) by {
        if occurs_at(line + lf + rest, lf, k) {
            assert((line + lf + rest).subrange(k, k + 1)[0] == line[k]);
            assert(line.contains('\n'));
        }
    }
    law_every_place_is_replaced(line, lf, rest, crlf);
}

/// Insertions at one place come in their order.
pub proof fn law_insertions_keep_their_order(
    edits: Seq<(int, Seq<char>)>,
    place: int,
    text: Seq<char>,
    p: int,
)
    ensures
        text_at(Seq::empty(), p) == Seq::<char>::empty(),
        text_at(edits.push((place, text)), p) == if place == p {
            text_at(edits, p) + text
        } else {
            text_at(edits, p)
        },
{
    assert(edits.push((place, text)).drop_last() =~= edits);
}

proof fn lemma_spliced_tail(s: Seq<char>, place: int, text: Seq<char>, crlf: bool, p: int)
    requires
        0 <= place < p <= s.len(),
    ensures
        spliced(s, seq![(place, text)], crlf, p) == s.skip(p),
    decreases s.len() - p,
{
    let edits = seq![(place, text)];
    assert(edits.drop_last() =~= Seq::empty());
    assert(edits.last() == (place, text));
    assert(text_at(Seq::empty(), p) =~= Seq::empty());
    assert(text_at(edits, p) =~= Seq::empty());
    assert(inserted_at(s, edits, crlf, p) =~= Seq::empty());
    if p < s.len() {
        lemma_spliced_tail(s, place, text, crlf, p + 1);
        assert(seq![s[p]] + s.skip(p + 1) =~= s.skip(p));
        assert(spliced(s, edits, crlf, p) =~= s.skip(p));
    } else {
        assert(spliced(s, edits, crlf, p) =~= s.skip(p));
    }
}

proof fn lemma_spliced_head(s: Seq<char>, place: int, text: Seq<char>, crlf: bool, p: int)
    requires
        0 <= p <= place < s.len(),
    ensures
        spliced(s, seq![(place, text)], crlf, p) == s.subrange(p, place) + text + s.skip(place),
    decreases place - p,
{
    let edits = seq![(place, text)];
    assert(edits.drop_last() =~= Seq::empty());
    assert(edits.last() == (place, text));
    assert(text_at(Seq::empty(), p) =~= Seq::empty());
    if p < place {
        lemma_spliced_head(s, place, text, crlf, p + 1);
        assert(text_at(edits, p) =~= Seq::empty());
        assert(spliced(s, edits, crlf, p) =~= s.subrange(p, place) + text + s.skip(place));
    } else {
        lemma_spliced_tail(s, place, text, crlf, p + 1);
        assert(text_at(edits, p) =~= text);
        assert(spliced(s, edits, crlf, p) =~= s.subrange(p, place) + text + s.skip(place));
    }
}

/// A text inserted at a place stands there, with what was before the place
/// before it and what was behind it behind it.
pub proof fn law_insertions_stand_at_their_place(
    s: Seq<char>,
    place: int,
    text: Seq<char>,
    crlf: bool,
)
    requires
        0 <= place < s.len(),
    ensures
        spliced(s, seq![(place, text)], crlf, 0) == s.take(place) + text + s.skip(place),
{
    lemma_spliced_head(s, place, text, crlf, 0);
    assert(s.subrange(0, place) =~= s.take(place));
}

proof fn lemma_spliced_end(s: Seq<char>, text: Seq<char>, crlf: bool, p: int)
    requires
        0 <= p <= s.len(),
        text.len() > 0,
    ensures
        spliced(s, seq![(s.len() as int, text)], crlf, p) == s.skip(p) + (if s.len() > 0
            && s.last() != '\n' {
            in_style("\n"@, crlf)
        } else {
            Seq::empty()
        }) + text,
    decreases s.len() - p,
{
    let edits = seq![(s.len() as int, text)];
    assert(edits.drop_last() =~= Seq::empty());
    assert(edits.last() == (s.len() as int, text));
    assert(text_at(Seq::empty(), p) =~= Seq::empty());
    let added = (if s.len() > 0 && s.last() != '\n' {
        in_style("\n"@, crlf)
    } else {
        Seq::empty()
    }) + text;
    if p < s.len() {
        lemma_spliced_end(s, text, crlf, p + 1);
        assert(text_at(edits, p) =~= Seq::empty());
        assert(spliced(s, edits, crlf, p) =~= s.skip(p) + added);
    } else {
        assert(text_at(edits, p) =~= text);
        assert(spliced(s, edits, crlf, p) =~= s.skip(p) + added);
    }
    assert(s.skip(p) + added =~= s.skip(p) + (if s.len() > 0 && s.last() != '\n' {
        in_style("\n"@, crlf)
    } else {
        Seq::empty()
    }) + text);
}

/// A text inserted at the end stands there on a line of its own.
pub proof fn law_insertions_at_the_end_start_a_line(s: Seq<char>, text: Seq<char>, crlf: bool)
    requires
        text.len() > 0,
    ensures
        spliced(s, seq![(s.len() as int, text)], crlf, 0) == s + (if s.len() > 0 && s.last()
            != '\n' {
            in_style("\n"@, crlf)
        } else {
            Seq::empty()
        }) + text,
{
    lemma_spliced_end(s, text, crlf, 0);
    assert(s.skip(0) =~= s);
}

/// The unit of indentation is that of the first block whose first definition is
/// indented deeper than it.
pub proof fn law_the_first_deeper_definition_shows_the_unit(
    s: Seq<char>,
    nodes: Seq<SourceView>,
    i: int,
)
    requires
        0 <= i < nodes.len(),
    ensures
        indent_unit(s, nodes, nodes.len() as int) is None,
        nodes[i].kind == ActualKind::Test ==> indent_unit(s, nodes, i) == indent_unit(
            s,
            nodes,
            i + 1,
        ),
        nodes[i].kind == ActualKind::Block && nodes[i].children.len() == 0 ==> indent_unit(
            s,
            nodes,
            i,
        ) == indent_unit(s, nodes, i + 1),
        nodes[i].kind == ActualKind::Block && nodes[i].children.len() > 0 ==> {
            let step = step_between(
                line_indent(s, nodes[i].start as int),
                line_indent(s, nodes[i].children[0].start as int),
            );
            let inner = indent_unit(s, nodes[i].children, 0);
            indent_unit(s, nodes, i) == if step is Some {
                step
            } else if inner is Some {
                inner
            } else {
                indent_unit(s, nodes, i + 1)
            }
        },
{
    reveal_with_fuel(indent_unit, 2);
}

/// What is added for a node are the whole lines of its definition in a rendered
/// file, with the line of its marker before them where it is a test that needs
/// one, indented for its place.
pub proof fn law_added_lines_are_those_of_the_definition(
    rendered: Seq<char>,
    nodes: Seq<SourceView>,
    wrappers: Seq<Seq<char>>,
    wanted: ExpectedView,
    marked: bool,
    indent: Seq<char>,
    root: Option<int>,
    at: int,
)
    requires
        root_of(nodes, wrappers) == Ok::<Option<int>, ErrorView>(root),
    ensures
        ({
            let top = match root {
                Some(k) => nodes[k].children,
                None => nodes,
            };
            let found = top[at];
            let line = line_start(rendered, found.start as int);
            let first = if wanted.kind == ActualKind::Test && marked && line > 0 {
                line_start(rendered, line - 1)
            } else {
                line
            };
            let next = next_line(rendered, found.end as int);
            let clean = forall|i: int|
                found.end <= i < next ==> is_white(#[trigger] rendered[i]) || rendered[i] == ';';
            let snippet = snippet_of(rendered, nodes, wrappers, wanted, marked, indent);
            &&& first_match(top, wanted.kind, wanted.name, 0) is None ==> snippet is Err
            &&& first_match(top, wanted.kind, wanted.name, 0) == Some(at) && clean && first <= next
                ==> snippet == Ok::<Seq<char>, ErrorView>(
                reindented(
                    rendered.subrange(first, next),
                    line_indent(rendered, found.start as int),
                    indent,
                    0,
                ),
            )
            &&& first_match(top, wanted.kind, wanted.name, 0) == Some(at) && !clean ==> snippet
                is Err
        }),
{
}

} // verus!
