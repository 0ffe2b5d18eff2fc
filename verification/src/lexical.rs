//! Lexical extraction backend: blob-free packs for the long tail of
//! languages.
//!
//! Instead of a compiled grammar, a `source = "lexical"` pack declares a
//! small lexical profile — comment and string syntax, nesting brackets —
//! plus regex openers for blocks and tests. Extraction then:
//!
//! 1. masks comments and strings, failing on anything unterminated;
//! 2. matches the opener regexes against a copy of the source with
//!    comments blanked to spaces (so legal trivia like
//!    `describe/* c */("x")` matches as whitespace), rejecting matches
//!    whose keyword is not real code or whose title is not in the state
//!    `name_syntax` promises (a string literal for `js-string`, plain
//!    code for `raw` identifiers);
//! 3. derives each match's span from the first bracket the match itself
//!    contains (`it(` → the call's parens; `mod foo {` → the body), and
//!    nesting from span containment.
//!
//! A profile may also say what binds a name to a value. What a source binds
//! outside all brackets to a function of the pack then counts as that function
//! in the openers.
//!
//! This is deliberately not a lexer-generator. The contract that makes the
//! tradeoff safe is failing closed: malformed profiles fail at pack load, and
//! files the scan cannot fully account for (unbalanced brackets, unterminated
//! strings or comments) are errors, never silent partial extractions.

use vstd::prelude::*;
use crate::aliases::{expand, resolve_aliases, Dialect};
use crate::error::Error;
use crate::bytes::{line_of, slice, stands_at, width};
use crate::extract::{
    actual_nodes, decode_name, nest, order_captures, ActualKind, ActualNode, Capture, Extraction,
    Unsupported,
};
use crate::pack::{Lexical, NameSyntax, Opener, StringRule};
use crate::patterns::{all_matches, captures_at, compile, group_names};
use crate::text::{chars_of, concat2, concat3, count_text, debug, owned};

verus! {

use vstd::utf8::encode_utf8;
use crate::aliases::{aliases_of, expanded};
use crate::bytes::{
    bytes_at, law_offsets_give_the_part_back, lemma_encode_prefix, lemma_encode_push, line_at,
    slice_between, width_of,
};
use crate::error::ErrorView;
use crate::extract::{
    actual_of, decoded, forest, in_order, law_tests_are_leaves, pruned, tests_are_leaves,
    without_repeats, CaptureView, ExtractionView, UnsupportedView,
};
use crate::pack::{pair_views, LexicalView, StringRuleView};
use crate::patterns::{name_views, regex_captures, regex_fault, regex_groups, regex_matches, regex_text};
use crate::text::{debug_of, decimal_of, opt_view, views};

broadcast use vstd::string::group_string_axioms;

/// What a byte of source belongs to, per the pack's lexical profile.
#[derive(Debug, Clone, Copy, PartialEq, Eq, Structural)]
pub enum State {
    /// Real code.
    Code,
    /// A comment.
    Comment,
    /// A string literal.
    Str,
}

/// What is wrong with the comment and string tokens of a profile: a scan
/// moves forward only over tokens that are not empty, and over line comments
/// that do not start at the end of a line.
pub open spec fn token_fault(cfg: LexicalView) -> Option<Seq<char>> {
    if cfg.line_comment matches Some(token) && token.len() == 0 {
        Some("line_comment must not be empty"@)
    } else if cfg.line_comment matches Some(token) && token[0] == '\n' {
        Some("line_comment must not start with a line break"@)
    } else if cfg.block_comment matches Some((open, close)) && (open.len() == 0 || close.len()
        == 0) {
        Some("block_comment tokens must not be empty"@)
    } else {
        string_fault(cfg.strings)
    }
}

/// What is wrong with the string rules of a profile.
pub open spec fn string_fault(rules: Seq<StringRuleView>) -> Option<Seq<char>>
    decreases rules.len(),
{
    if rules.len() == 0 {
        None
    } else {
        match string_fault(rules.drop_last()) {
            Some(message) => Some(message),
            None => if rules.last().delim.len() == 0 {
                Some("string delim must not be empty"@)
            } else if rules.last().escape matches Some(token) && token.len() == 0 {
                Some("string escape must not be empty"@)
            } else {
                None
            },
        }
    }
}

proof fn lemma_string_fault_stays(rules: Seq<StringRuleView>, n: int)
    requires
        0 <= n <= rules.len(),
        string_fault(rules.take(n)) is Some,
    ensures
        string_fault(rules) == string_fault(rules.take(n)),
    decreases rules.len() - n,
{
    if n < rules.len() {
        assert(rules.take(n + 1).drop_last() =~= rules.take(n));
        lemma_string_fault_stays(rules, n + 1);
    } else {
        assert(rules.take(n) =~= rules);
    }
}

proof fn lemma_string_fault_none(rules: Seq<StringRuleView>, i: int)
    requires
        string_fault(rules) is None,
        0 <= i < rules.len(),
    ensures
        rules[i].delim.len() > 0,
    decreases rules.len(),
{
    if i < rules.len() - 1 {
        lemma_string_fault_none(rules.drop_last(), i);
    }
}

fn check_tokens(cfg: &Lexical) -> (out: Option<String>)
    ensures
        opt_view(out) == token_fault(cfg@),
{
    if let Some(token) = &cfg.line_comment {
        if token.as_str().is_empty() {
            return Some(owned("line_comment must not be empty"));
        }
        if token.as_str().get_char(0) == '\n' {
            return Some(owned("line_comment must not start with a line break"));
        }
    }
    if let Some((open, close)) = &cfg.block_comment {
        if open.as_str().is_empty() || close.as_str().is_empty() {
            return Some(owned("block_comment tokens must not be empty"));
        }
    }
    let ghost all = views(cfg.strings@);
    let mut i: usize = 0;
    assert(all.take(0) =~= Seq::empty());
    while i < cfg.strings.len()
        invariant
            i <= cfg.strings@.len(),
            all == views(cfg.strings@),
            string_fault(all.take(i as int)) is None,
            token_fault(cfg@) == string_fault(all),
        decreases cfg.strings@.len() - i,
    {
        let rule = &cfg.strings[i];
        assert(all.take(i + 1).drop_last() =~= all.take(i as int));
        assert(all.take(i + 1).last() == rule@);
        if rule.delim.as_str().is_empty() {
            proof {
                lemma_string_fault_stays(all, i + 1);
            }
            return Some(owned("string delim must not be empty"));
        }
        if let Some(token) = &rule.escape {
            if token.as_str().is_empty() {
                proof {
                    lemma_string_fault_stays(all, i + 1);
                }
                return Some(owned("string escape must not be empty"));
            }
        }
        i += 1;
    }
    assert(all.take(i as int) =~= all);
    None
}

/// The byte that a text consists of, if it is just one.
pub open spec fn single_byte(s: Seq<char>) -> Option<u8> {
    if encode_utf8(s).len() == 1 {
        Some(encode_utf8(s)[0])
    } else {
        None
    }
}

/// The profile's bracket pairs as bytes: each must be two distinct single
/// characters.
pub open spec fn pairs_of(nest: Seq<(Seq<char>, Seq<char>)>) -> Result<Seq<(u8, u8)>, Seq<char>>
    decreases nest.len(),
{
    if nest.len() == 0 {
        Ok(Seq::empty())
    } else {
        match pairs_of(nest.drop_last()) {
            Err(message) => Err(message),
            Ok(before) => match (single_byte(nest.last().0), single_byte(nest.last().1)) {
                (Some(o), Some(c)) if o != c => Ok(before.push((o, c))),
                _ => Err(
                    "nest pair ["@ + debug_of(nest.last().0) + ", "@ + debug_of(nest.last().1)
                        + "] must be two distinct single characters"@,
                ),
            },
        }
    }
}

proof fn lemma_pairs_stop(nest: Seq<(Seq<char>, Seq<char>)>, n: int)
    requires
        0 <= n <= nest.len(),
        pairs_of(nest.take(n)) is Err,
    ensures
        pairs_of(nest) == pairs_of(nest.take(n)),
    decreases nest.len() - n,
{
    if n < nest.len() {
        assert(nest.take(n + 1).drop_last() =~= nest.take(n));
        lemma_pairs_stop(nest, n + 1);
    } else {
        assert(nest.take(n) =~= nest);
    }
}

/// The profile's bracket pairs as single bytes (multi-byte brackets are
/// not supported).
fn bracket_pairs(cfg: &Lexical) -> (out: Result<Vec<(u8, u8)>, String>)
    ensures
        match out {
            Ok(pairs) => pairs_of(cfg@.nest) == Ok::<Seq<(u8, u8)>, Seq<char>>(pairs@),
            Err(message) => pairs_of(cfg@.nest) == Err::<Seq<(u8, u8)>, Seq<char>>(message@),
        },
{
    let mut pairs: Vec<(u8, u8)> = Vec::new();
    let ghost all = pair_views(cfg.nest@);
    let mut i: usize = 0;
    assert(all.take(0) =~= Seq::empty());
    while i < cfg.nest.len()
        invariant
            i <= cfg.nest@.len(),
            all == pair_views(cfg.nest@),
            all == cfg@.nest,
            pairs_of(all.take(i as int)) == Ok::<Seq<(u8, u8)>, Seq<char>>(pairs@),
        decreases cfg.nest@.len() - i,
    {
        let (open, close) = &cfg.nest[i];
        proof {
            assert(all.take(i + 1).drop_last() =~= all.take(i as int));
            assert(all.take(i + 1).last() == (open@, close@));
            if pairs_of(all.take(i + 1)) is Err {
                lemma_pairs_stop(all, i + 1);
            }
        }
        let o = open.as_str().as_bytes();
        let c = close.as_str().as_bytes();
        if o.len() == 1 && c.len() == 1 && o[0] != c[0] {
            pairs.push((o[0], c[0]));
        } else {
            let mut message = concat3("nest pair [", debug(open.as_str()).as_str(), ", ");
            message.append(debug(close.as_str()).as_str());
            message.append("] must be two distinct single characters");
            return Err(message);
        }
        i += 1;
    }
    assert(all.take(i as int) =~= all);
    Ok(pairs)
}

/// The number of the first group with a name.
pub open spec fn group_position(groups: Seq<Option<Seq<char>>>, want: Seq<char>) -> Option<int>
    decreases groups.len(),
{
    if groups.len() == 0 {
        None
    } else {
        match group_position(groups.drop_last(), want) {
            Some(i) => Some(i),
            None => if groups.last() == Some(want) {
                Some(groups.len() - 1)
            } else {
                None
            },
        }
    }
}

proof fn lemma_group_position_stays(groups: Seq<Option<Seq<char>>>, want: Seq<char>, n: int)
    requires
        0 <= n <= groups.len(),
        group_position(groups.take(n), want) is Some,
    ensures
        group_position(groups, want) == group_position(groups.take(n), want),
    decreases groups.len() - n,
{
    if n < groups.len() {
        assert(groups.take(n + 1).drop_last() =~= groups.take(n));
        lemma_group_position_stays(groups, want, n + 1);
    } else {
        assert(groups.take(n) =~= groups);
    }
}

/// The number of the first group with a name.
pub fn find_group(groups: &Vec<Option<String>>, want: &str) -> (out: Option<usize>)
    ensures
        match out {
            Some(i) => group_position(name_views(groups@), want@) == Some(i as int) && i
                < groups@.len(),
            None => group_position(name_views(groups@), want@) is None,
        },
{
    let ghost all = name_views(groups@);
    let mut i: usize = 0;
    assert(all.take(0) =~= Seq::empty());
    while i < groups.len()
        invariant
            i <= groups@.len(),
            all == name_views(groups@),
            group_position(all.take(i as int), want@) is None,
        decreases groups@.len() - i,
    {
        assert(all.take(i + 1).drop_last() =~= all.take(i as int));
        assert(all.take(i + 1).last() == opt_view(groups@[i as int]));
        if let Some(name) = &groups[i] {
            if crate::text::same(name.as_str(), want) {
                proof {
                    lemma_group_position_stays(all, want@, i + 1);
                }
                return Some(i);
            }
        }
        i += 1;
    }
    assert(all.take(i as int) =~= all);
    None
}

/// What is wrong with an opener pattern, given whether it compiles and the
/// names of its groups.
pub open spec fn opener_fault(
    which: Seq<char>,
    compile_fault: Option<Seq<char>>,
    groups: Seq<Option<Seq<char>>>,
) -> Option<Seq<char>> {
    let place = "[lexical."@ + which + "] "@;
    match compile_fault {
        Some(fault) => Some(place + ("invalid opener pattern: "@ + fault)),
        None => if group_position(groups, "kw"@) is None {
            Some(place + "open must define a (?<kw>...) group"@)
        } else if group_position(groups, "name"@) is None {
            Some(place + "open must define a (?<name>...) group"@)
        } else {
            None
        },
    }
}

/// What is wrong with an opener whose groups are the given ones.
pub fn check_groups(which: &str, groups: &Vec<Option<String>>) -> (out: Option<String>)
    ensures
        opt_view(out) == opener_fault(which@, None, name_views(groups@)),
{
    let mut place = concat3("[lexical.", which, "] ");
    if find_group(groups, "kw").is_none() {
        place.append("open must define a (?<kw>...) group");
        return Some(place);
    }
    if find_group(groups, "name").is_none() {
        place.append("open must define a (?<name>...) group");
        return Some(place);
    }
    None
}

fn check_opener(which: &str, pattern: &str) -> (out: Option<String>)
    ensures
        opt_view(out) == opener_fault(which@, regex_fault(pattern@), regex_groups(pattern@)),
{
    match compile(pattern) {
        Ok(re) => check_groups(which, &group_names(&re)),
        Err(fault) => {
            let mut place = concat3("[lexical.", which, "] ");
            place.append(concat2("invalid opener pattern: ", fault.as_str()).as_str());
            Some(place)
        },
    }
}

/// A profile with the names of the functions of a pack written into its
/// openers.
pub open spec fn with_names(
    cfg: LexicalView,
    known: Seq<Seq<char>>,
    aliases: Seq<(Seq<char>, Seq<char>)>,
) -> LexicalView {
    LexicalView {
        block: expanded(Dialect::Pattern, cfg.block, known, aliases),
        test: expanded(Dialect::Pattern, cfg.test, known, aliases),
        unsupported: match cfg.unsupported {
            Some(pattern) => Some(expanded(Dialect::Pattern, pattern, known, aliases)),
            None => None,
        },
        ..cfg
    }
}

/// What is wrong with the pattern of a profile that binds names.
pub open spec fn alias_fault(
    compile_fault: Option<Seq<char>>,
    groups: Seq<Option<Seq<char>>>,
) -> Option<Seq<char>> {
    match compile_fault {
        Some(fault) => Some("[lexical.alias] "@ + ("invalid opener pattern: "@ + fault)),
        None => if group_position(groups, "name"@) is None {
            Some("[lexical.alias] open must define a (?<name>...) group"@)
        } else if group_position(groups, "value"@) is None {
            Some("[lexical.alias] open must define a (?<value>...) group"@)
        } else {
            None
        },
    }
}

/// The first thing that is wrong with the openers of a lexical profile.
pub open spec fn openers_fault(cfg: LexicalView) -> Option<Seq<char>> {
    if opener_fault("block"@, regex_fault(cfg.block), regex_groups(cfg.block)) is Some {
        opener_fault("block"@, regex_fault(cfg.block), regex_groups(cfg.block))
    } else if opener_fault("test"@, regex_fault(cfg.test), regex_groups(cfg.test)) is Some {
        opener_fault("test"@, regex_fault(cfg.test), regex_groups(cfg.test))
    } else if cfg.unsupported matches Some(pattern) && regex_fault(pattern) is Some {
        Some(
            "[lexical.unsupported] "@ + ("invalid opener pattern: "@ + regex_fault(
                cfg.unsupported->0,
            )->0),
        )
    } else if cfg.alias matches Some(pattern) {
        alias_fault(regex_fault(cfg.alias->0), regex_groups(cfg.alias->0))
    } else {
        None
    }
}

/// The first thing that is wrong with a lexical profile, whose openers may
/// name the functions in `known`.
pub open spec fn profile_fault(cfg: LexicalView, known: Seq<Seq<char>>) -> Option<Seq<char>> {
    if token_fault(cfg) is Some {
        token_fault(cfg)
    } else if cfg.nest.len() == 0 {
        Some("nest must declare at least one bracket pair"@)
    } else if pairs_of(cfg.nest) is Err {
        Some(pairs_of(cfg.nest)->Err_0)
    } else {
        openers_fault(with_names(cfg, known, Seq::empty()))
    }
}

fn alias_message(fault: &str) -> (out: String)
    ensures
        out@ == "[lexical.alias] "@ + ("invalid opener pattern: "@ + fault@),
{
    let mut message = owned("[lexical.alias] ");
    message.append(concat2("invalid opener pattern: ", fault).as_str());
    message
}

fn check_bound(groups: &Vec<Option<String>>) -> (out: Option<String>)
    ensures
        opt_view(out) == alias_fault(None, name_views(groups@)),
{
    if find_group(groups, "name").is_none() {
        Some(owned("[lexical.alias] open must define a (?<name>...) group"))
    } else if find_group(groups, "value").is_none() {
        Some(owned("[lexical.alias] open must define a (?<value>...) group"))
    } else {
        None
    }
}

fn check_alias(pattern: &str) -> (out: Option<String>)
    ensures
        opt_view(out) == alias_fault(regex_fault(pattern@), regex_groups(pattern@)),
{
    match compile(pattern) {
        Err(fault) => Some(alias_message(fault.as_str())),
        Ok(re) => check_bound(&group_names(&re)),
    }
}

/// Validate a lexical profile at pack-load time: every token non-empty,
/// bracket pairs usable, opener regexes compiling and defining the
/// required capture groups. A malformed profile must fail the pack load —
/// never hang or panic extraction later.
pub fn validate_profile(cfg: &Lexical, known: &Vec<String>) -> (out: Result<(), String>)
    ensures
        match out {
            Ok(_) => profile_fault(cfg@, views(known@)) is None,
            Err(message) => profile_fault(cfg@, views(known@)) == Some(message@),
        },
{
    if let Some(message) = check_tokens(cfg) {
        return Err(message);
    }
    assert(cfg@.nest.len() == cfg.nest@.len());
    if cfg.nest.len() == 0 {
        return Err(owned("nest must declare at least one bracket pair"));
    }
    if let Err(message) = bracket_pairs(cfg) {
        return Err(message);
    }
    let openers = name_openers(cfg, known, &Vec::new());
    assert(pair_views(Seq::<(String, String)>::empty()) =~= Seq::empty());
    if let Some(message) = check_opener("block", openers.block.as_str()) {
        return Err(message);
    }
    if let Some(message) = check_opener("test", openers.test.as_str()) {
        return Err(message);
    }
    if let Some(pattern) = &openers.unsupported {
        if let Err(fault) = compile(pattern.as_str()) {
            let mut message = owned("[lexical.unsupported] ");
            message.append(concat2("invalid opener pattern: ", fault.as_str()).as_str());
            return Err(message);
        }
    }
    if let Some(opener) = &cfg.alias {
        if let Some(message) = check_alias(opener.open.as_str()) {
            return Err(message);
        }
    }
    Ok(())
}

/// The openers of a profile with the names of functions written in.
struct Openers {
    block: String,
    test: String,
    unsupported: Option<String>,
}

fn name_openers(cfg: &Lexical, known: &Vec<String>, aliases: &Vec<(String, String)>) -> (out: Openers)
    ensures
        ({
            let named = with_names(cfg@, views(known@), pair_views(aliases@));
            &&& out.block@ == named.block
            &&& out.test@ == named.test
            &&& opt_view(out.unsupported) == named.unsupported
        }),
{
    Openers {
        block: expand(Dialect::Pattern, cfg.block.open.as_str(), known, aliases),
        test: expand(Dialect::Pattern, cfg.test.open.as_str(), known, aliases),
        unsupported: match &cfg.unsupported {
            Some(opener) => Some(
                expand(Dialect::Pattern, opener.open.as_str(), known, aliases),
            ),
            None => None,
        },
    }
}

/// The end of the line comment at `i`: the next line feed, or the end.
pub open spec fn comment_end(source: Seq<u8>, i: int) -> int
    decreases source.len() - i,
{
    if i < 0 || i >= source.len() || source[i] == 10u8 {
        i
    } else {
        comment_end(source, i + 1)
    }
}

/// The first place at or after `from` where `token` stands.
pub open spec fn next_token(source: Seq<u8>, token: Seq<u8>, from: int) -> Option<int>
    decreases source.len() - from,
{
    if from < 0 || from >= source.len() {
        None
    } else if bytes_at(source, token, from) {
        Some(from)
    } else {
        next_token(source, token, from + 1)
    }
}

/// The end of the string whose content goes on at `from`: after the next
/// delimiter that no escape precedes. An escape takes the byte after it
/// along.
pub open spec fn string_end(source: Seq<u8>, rule: StringRuleView, from: int) -> Option<int>
    decreases source.len() + 1 - from,
{
    if from < 0 || from >= source.len() {
        None
    } else if rule.escape matches Some(escape) && bytes_at(source, encode_utf8(escape), from) {
        string_end(source, rule, from + encode_utf8(rule.escape->0).len() + 1)
    } else if bytes_at(source, encode_utf8(rule.delim), from) {
        Some(from + encode_utf8(rule.delim).len())
    } else {
        string_end(source, rule, from + 1)
    }
}

/// The first string rule whose delimiter stands at `i`.
pub open spec fn string_at(source: Seq<u8>, rules: Seq<StringRuleView>, i: int) -> Option<
    StringRuleView,
>
    decreases rules.len(),
{
    if rules.len() == 0 {
        None
    } else {
        match string_at(source, rules.drop_last(), i) {
            Some(rule) => Some(rule),
            None => if bytes_at(source, encode_utf8(rules.last().delim), i) {
                Some(rules.last())
            } else {
                None
            },
        }
    }
}

/// What starts at a place in the source: a stretch in one state up to its
/// end, or something that never ends.
pub enum Region {
    Stretch { state: State, end: int },
    Endless { what: Seq<char> },
}

/// What starts at `i`: a comment, a string, or one byte of code.
pub open spec fn region_at(source: Seq<u8>, cfg: LexicalView, i: int) -> Region {
    if cfg.line_comment matches Some(token) && bytes_at(source, encode_utf8(token), i) {
        Region::Stretch { state: State::Comment, end: comment_end(source, i) }
    } else if cfg.block_comment matches Some((open, close)) && bytes_at(
        source,
        encode_utf8(open),
        i,
    ) {
        let (start, stop) = cfg.block_comment->0;
        let open = encode_utf8(start);
        let close = encode_utf8(stop);
        match next_token(source, close, i + open.len()) {
            Some(at) => Region::Stretch { state: State::Comment, end: at + close.len() },
            None => Region::Endless { what: "unterminated block comment"@ },
        }
    } else {
        match string_at(source, cfg.strings, i) {
            Some(rule) => match string_end(source, rule, i + encode_utf8(rule.delim).len()) {
                Some(end) => Region::Stretch { state: State::Str, end },
                None => Region::Endless { what: "unterminated string"@ },
            },
            None => Region::Stretch { state: State::Code, end: i + 1 },
        }
    }
}

/// `n` times the same state.
pub open spec fn all_in(state: State, n: int) -> Seq<State> {
    Seq::new(
        if n < 0 {
            0
        } else {
            n as nat
        },
        |i: int| state,
    )
}

/// The state of every byte from `i` on, or where something starts that never
/// ends.
pub open spec fn states_from(source: Seq<u8>, cfg: LexicalView, i: int) -> Result<
    Seq<State>,
    (int, Seq<char>),
>
    decreases source.len() - i,
{
    if i < 0 || i >= source.len() {
        Ok(Seq::empty())
    } else {
        match region_at(source, cfg, i) {
            Region::Endless { what } => Err((i, what)),
            Region::Stretch { state, end } => if end <= i || end > source.len() {
                Ok(Seq::empty())
            } else {
                match states_from(source, cfg, end) {
                    Ok(rest) => Ok(all_in(state, end - i) + rest),
                    Err(fault) => Err(fault),
                }
            },
        }
    }
}

/// The state of every byte of a source, or where something starts that never
/// ends.
pub open spec fn masked(source: Seq<u8>, cfg: LexicalView) -> Result<Seq<State>, (int, Seq<char>)> {
    states_from(source, cfg, 0)
}

proof fn lemma_encode_len(s: Seq<char>)
    ensures
        s.len() > 0 ==> encode_utf8(s).len() > 0,
{
    if s.len() > 0 {
        vstd::utf8::char_is_scalar(s[0]);
    }
}

proof fn lemma_comment_end(source: Seq<u8>, i: int)
    requires
        0 <= i <= source.len(),
    ensures
        i <= comment_end(source, i) <= source.len(),
        i < source.len() && source[i] != 10u8 ==> i < comment_end(source, i),
    decreases source.len() - i,
{
    if i < source.len() && source[i] != 10u8 {
        lemma_comment_end(source, i + 1);
    }
}

proof fn lemma_next_token(source: Seq<u8>, token: Seq<u8>, from: int)
    requires
        0 <= from,
    ensures
        next_token(source, token, from) matches Some(at) ==> from <= at && at + token.len()
            <= source.len(),
    decreases source.len() - from,
{
    if from < source.len() && !bytes_at(source, token, from) {
        lemma_next_token(source, token, from + 1);
    }
}

proof fn lemma_string_end(source: Seq<u8>, rule: StringRuleView, from: int)
    requires
        0 <= from,
    ensures
        string_end(source, rule, from) matches Some(end) ==> from <= end <= source.len(),
    decreases source.len() + 1 - from,
{
    if from < source.len() {
        if rule.escape matches Some(escape) && bytes_at(source, encode_utf8(escape), from) {
            lemma_string_end(source, rule, from + encode_utf8(rule.escape->0).len() + 1);
        } else if !bytes_at(source, encode_utf8(rule.delim), from) {
            lemma_string_end(source, rule, from + 1);
        }
    }
}

proof fn lemma_string_at(source: Seq<u8>, rules: Seq<StringRuleView>, i: int)
    ensures
        string_at(source, rules, i) matches Some(rule) ==> bytes_at(
            source,
            encode_utf8(rule.delim),
            i,
        ) && rules.contains(rule),
    decreases rules.len(),
{
    if rules.len() > 0 {
        lemma_string_at(source, rules.drop_last(), i);
        if let Some(rule) = string_at(source, rules.drop_last(), i) {
            let k = choose|k: int| 0 <= k < rules.len() - 1 && rules.drop_last()[k] == rule;
            assert(rules[k] == rule);
        } else {
            assert(rules[rules.len() - 1] == rules.last());
        }
    }
}

proof fn lemma_string_at_stays(source: Seq<u8>, rules: Seq<StringRuleView>, i: int, n: int)
    requires
        0 <= n <= rules.len(),
        string_at(source, rules.take(n), i) is Some,
    ensures
        string_at(source, rules, i) == string_at(source, rules.take(n), i),
    decreases rules.len() - n,
{
    if n < rules.len() {
        assert(rules.take(n + 1).drop_last() =~= rules.take(n));
        lemma_string_at_stays(source, rules, i, n + 1);
    } else {
        assert(rules.take(n) =~= rules);
    }
}

/// With usable tokens every stretch moves the scan forward and stays inside
/// the source.
proof fn lemma_region_moves(source: Seq<u8>, cfg: LexicalView, i: int)
    requires
        token_fault(cfg) is None,
        0 <= i < source.len(),
    ensures
        region_at(source, cfg, i) matches Region::Stretch { state, end } ==> i < end
            <= source.len(),
{
    if cfg.line_comment matches Some(token) && bytes_at(source, encode_utf8(token), i) {
        let token = cfg.line_comment->0;
        let bytes = encode_utf8(token);
        lemma_encode_len(token);
        assert(source.subrange(i, i + bytes.len())[0] == bytes[0]);
        assert(source[i] != 10u8) by {
            vstd::utf8::char_is_scalar(token[0]);
            let v = token[0] as u32;
            lemma_first_byte(token);
        }
        lemma_comment_end(source, i);
    } else if cfg.block_comment matches Some((open, close)) && bytes_at(
        source,
        encode_utf8(open),
        i,
    ) {
        let (open, close) = cfg.block_comment->0;
        lemma_encode_len(open);
        lemma_encode_len(close);
        lemma_next_token(source, encode_utf8(close), i + encode_utf8(open).len());
    } else {
        lemma_string_at(source, cfg.strings, i);
        if let Some(rule) = string_at(source, cfg.strings, i) {
            let k = choose|k: int| 0 <= k < cfg.strings.len() && cfg.strings[k] == rule;
            lemma_string_fault_none(cfg.strings, k);
            lemma_encode_len(rule.delim);
            lemma_string_end(source, rule, i + encode_utf8(rule.delim).len());
        }
    }
}

/// Only a line feed encodes to bytes that start with one.
#[verifier::spinoff_prover]
#[verifier::rlimit(40)]
proof fn lemma_first_byte(token: Seq<char>)
    requires
        token.len() > 0,
        token[0] != '\n',
    ensures
        encode_utf8(token)[0] != 10u8,
{
    let v = token[0] as u32;
    vstd::utf8::char_is_scalar(token[0]);
    vstd::utf8::char_u32_cast(token[0], v);
    assert(v != 10);
    assert(encode_utf8(token)[0] == vstd::utf8::encode_scalar(v)[0]);
    assert(v <= 0x7f && v != 10 ==> (v & 0x7f) as u8 != 10u8) by (bit_vector);
    assert(0xc0u8 | ((v >> 6) & 0x1f) as u8 != 10u8) by (bit_vector);
    assert(0xe0u8 | ((v >> 12) & 0x0f) as u8 != 10u8) by (bit_vector);
    assert(0xf0u8 | ((v >> 18) & 0x7) as u8 != 10u8) by (bit_vector);
}

fn skip_comment(source: &[u8], i: usize) -> (end: usize)
    requires
        i <= source@.len(),
    ensures
        end == comment_end(source@, i as int),
        i <= end <= source@.len(),
{
    let mut at: usize = i;
    while at < source.len() && source[at] != 10
        invariant
            i <= at <= source@.len(),
            comment_end(source@, at as int) == comment_end(source@, i as int),
        decreases source@.len() - at,
    {
        at += 1;
    }
    at
}

fn find_token(source: &[u8], token: &[u8], from: usize) -> (found: Option<usize>)
    ensures
        match found {
            Some(at) => next_token(source@, token@, from as int) == Some(at as int) && from <= at
                && at + token@.len() <= source@.len(),
            None => next_token(source@, token@, from as int) is None,
        },
{
    let mut at: usize = from;
    while at < source.len()
        invariant
            from <= at,
            next_token(source@, token@, at as int) == next_token(source@, token@, from as int),
        decreases source@.len() - at,
    {
        if stands_at(source, token, at) {
            return Some(at);
        }
        at += 1;
    }
    None
}

fn skip_string(source: &[u8], rule: &StringRule, from: usize) -> (found: Option<usize>)
    ensures
        match found {
            Some(end) => string_end(source@, rule@, from as int) == Some(end as int) && end
                <= source@.len(),
            None => string_end(source@, rule@, from as int) is None,
        },
{
    let delim = rule.delim.as_str().as_bytes();
    let mut at: usize = from;
    let len: usize = source.len();
    while at < len
        invariant
            len == source@.len(),
            delim@ == encode_utf8(rule@.delim),
            string_end(source@, rule@, at as int) == string_end(source@, rule@, from as int),
        decreases source@.len() - at,
    {
        if let Some(token) = &rule.escape {
            let escape = token.as_str().as_bytes();
            if stands_at(source, escape, at) {
                // An escape at the very end takes nothing along.
                if escape.len() >= len - at {
                    assert(string_end(source@, rule@, at + escape@.len() + 1) is None);
                    return None;
                }
                at += escape.len() + 1;
                continue;
            }
        }
        if stands_at(source, delim, at) {
            return Some(at + delim.len());
        }
        at += 1;
    }
    None
}

fn find_string<'a>(source: &[u8], cfg: &'a Lexical, i: usize) -> (found: Option<&'a StringRule>)
    requires
        i <= source@.len(),
    ensures
        match found {
            Some(rule) => string_at(source@, cfg@.strings, i as int) == Some(rule@),
            None => string_at(source@, cfg@.strings, i as int) is None,
        },
{
    let ghost all = views(cfg.strings@);
    let mut k: usize = 0;
    assert(all.take(0) =~= Seq::empty());
    while k < cfg.strings.len()
        invariant
            k <= cfg.strings@.len(),
            i <= source@.len(),
            all == views(cfg.strings@),
            all == cfg@.strings,
            string_at(source@, all.take(k as int), i as int) is None,
        decreases cfg.strings@.len() - k,
    {
        let rule = &cfg.strings[k];
        assert(all.take(k + 1).drop_last() =~= all.take(k as int));
        assert(all.take(k + 1).last() == rule@);
        if stands_at(source, rule.delim.as_str().as_bytes(), i) {
            proof {
                lemma_string_at_stays(source@, all, i as int, k + 1);
            }
            return Some(rule);
        }
        k += 1;
    }
    assert(all.take(k as int) =~= all);
    None
}

/// What starts at `i`: the state of the stretch and its end, or what never
/// ends.
fn stretch(source: &[u8], cfg: &Lexical, i: usize) -> (out: Result<(State, usize), String>)
    requires
        token_fault(cfg@) is None,
        i < source@.len(),
    ensures
        match out {
            Ok((state, end)) => region_at(source@, cfg@, i as int) == (Region::Stretch {
                state,
                end: end as int,
            }) && i < end <= source@.len(),
            Err(what) => region_at(source@, cfg@, i as int) == (Region::Endless { what: what@ }),
        },
{
    proof {
        lemma_region_moves(source@, cfg@, i as int);
    }
    let len: usize = source.len();
    if let Some(token) = &cfg.line_comment {
        if stands_at(source, token.as_str().as_bytes(), i) {
            return Ok((State::Comment, skip_comment(source, i)));
        }
    }
    if let Some((open, close)) = &cfg.block_comment {
        let open = open.as_str().as_bytes();
        let close = close.as_str().as_bytes();
        if stands_at(source, open, i) {
            let from: usize = i + open.len();
            return match find_token(source, close, from) {
                Some(at) => Ok((State::Comment, at + close.len())),
                None => Err(owned("unterminated block comment")),
            };
        }
    }
    match find_string(source, cfg, i) {
        Some(rule) => {
            proof {
                lemma_string_at(source@, cfg@.strings, i as int);
            }
            let from: usize = i + rule.delim.as_str().as_bytes().len();
            match skip_string(source, rule, from) {
                Some(end) => Ok((State::Str, end)),
                None => Err(owned("unterminated string")),
            }
        },
        None => Ok((State::Code, i + 1)),
    }
}

/// Classify every byte as code, comment, or string content. Comments and
/// strings are matched greedily left-to-right; string escapes consume the
/// following byte so an escaped delimiter does not close the literal.
///
/// Fails closed: an unterminated string or block comment means the
/// profile does not understand this file, and masking through EOF would
/// let extraction silently drop everything after the error.
pub fn mask(source: &[u8], cfg: &Lexical) -> (out: Result<Vec<State>, (usize, String)>)
    requires
        token_fault(cfg@) is None,
    ensures
        match out {
            Ok(states) => masked(source@, cfg@) == Ok::<Seq<State>, (int, Seq<char>)>(states@)
                && states@.len() == source@.len(),
            Err((pos, what)) => masked(source@, cfg@) == Err::<Seq<State>, (int, Seq<char>)>(
                (pos as int, what@),
            ) && pos < source@.len(),
        },
{
    let mut states: Vec<State> = Vec::new();
    let mut i: usize = 0;
    proof {
        if let Ok(rest) = masked(source@, cfg@) {
            assert(states@ + rest =~= rest);
        }
    }
    while i < source.len()
        invariant
            i <= source@.len(),
            states@.len() == i,
            token_fault(cfg@) is None,
            match states_from(source@, cfg@, i as int) {
                Ok(rest) => masked(source@, cfg@) == Ok::<Seq<State>, (int, Seq<char>)>(
                    states@ + rest,
                ),
                Err(fault) => masked(source@, cfg@) == Err::<Seq<State>, (int, Seq<char>)>(fault),
            },
        decreases source@.len() - i,
    {
        match stretch(source, cfg, i) {
            Err(what) => {
                return Err((i, what));
            },
            Ok((state, end)) => {
                let ghost before = states@;
                let ghost start = i;
                while i < end
                    invariant
                        start <= i <= end,
                        states@ == before + all_in(state, i - start),
                    decreases end - i,
                {
                    states.push(state);
                    i += 1;
                    assert(states@ =~= before + all_in(state, i - start));
                }
                proof {
                    if let Ok(rest) = states_from(source@, cfg@, end as int) {
                        assert(before + (all_in(state, end - start) + rest) =~= states@ + rest);
                    }
                }
            },
        }
    }
    assert(states@ + Seq::<State>::empty() =~= states@);
    Ok(states)
}

/// The text with every character that lies in a comment replaced by as many
/// spaces as it has bytes, where the text starts at byte `from`.
pub open spec fn blanked(s: Seq<char>, states: Seq<State>) -> Seq<char>
    decreases s.len(),
{
    if s.len() == 0 {
        Seq::empty()
    } else {
        let at = encode_utf8(s.drop_last()).len() as int;
        blanked(s.drop_last(), states) + if at < states.len() && states[at] == State::Comment {
            Seq::new(width_of(s.last()), |i: int| ' ')
        } else {
            seq![s.last()]
        }
    }
}

proof fn lemma_encode_spaces(s: Seq<char>, n: nat)
    ensures
        encode_utf8(s + Seq::new(n, |i: int| ' ')).len() == encode_utf8(s).len() + n,
    decreases n,
{
    let spaces = Seq::new(n, |i: int| ' ');
    if n == 0 {
        assert(s + spaces =~= s);
    } else {
        let fewer = Seq::new((n - 1) as nat, |i: int| ' ');
        lemma_encode_spaces(s, (n - 1) as nat);
        lemma_encode_push(s + fewer, ' ');
        assert(s + spaces =~= (s + fewer).push(' '));
    }
}

/// Blanking comments moves nothing: the blanked text has the bytes' length of
/// the source, so byte offsets stay what they were.
pub proof fn law_blanking_keeps_offsets(s: Seq<char>, states: Seq<State>)
    ensures
        encode_utf8(blanked(s, states)).len() == encode_utf8(s).len(),
    decreases s.len(),
{
    if s.len() > 0 {
        let front = s.drop_last();
        law_blanking_keeps_offsets(front, states);
        lemma_encode_push(front, s.last());
        assert(front.push(s.last()) =~= s);
        let before = blanked(front, states);
        let at = encode_utf8(front).len() as int;
        if at < states.len() && states[at] == State::Comment {
            lemma_encode_spaces(before, width_of(s.last()));
        } else {
            lemma_encode_push(before, s.last());
            assert(before + seq![s.last()] =~= before.push(s.last()));
        }
    }
}

/// A copy of the source with comments blanked to spaces, byte offsets
/// unchanged. Opener regexes match against this, so comment trivia between
/// tokens behaves as the whitespace the language says it is, while the state
/// mask still knows what was really a comment.
pub fn blank_comments(source: &str, states: &Vec<State>) -> (out: String)
    requires
        encode_utf8(source@).len() <= usize::MAX,
    ensures
        out@ == blanked(source@, states@),
{
    let chars = chars_of(source);
    let mut out = String::new();
    let mut at: usize = 0;
    let mut i: usize = 0;
    assert(chars@.take(0) =~= Seq::empty());
    assert(encode_utf8(chars@.take(0)).len() == 0);
    while i < chars.len()
        invariant
            i <= chars@.len(),
            chars@ == source@,
            encode_utf8(source@).len() <= usize::MAX,
            at == encode_utf8(chars@.take(i as int)).len(),
            out@ == blanked(chars@.take(i as int), states@),
        decreases chars@.len() - i,
    {
        let c = chars[i];
        let ghost now = chars@.take(i + 1);
        proof {
            assert(now.drop_last() =~= chars@.take(i as int));
            assert(now =~= chars@.take(i as int).push(c));
            lemma_encode_push(chars@.take(i as int), c);
            lemma_encode_prefix(source@, i + 1);
        }
        let n: usize = width(c);
        let ghost before = out@;
        if at < states.len() && states[at] == State::Comment {
            let mut k: usize = 0;
            while k < n
                invariant
                    k <= n,
                    out@ == before + Seq::new(k as nat, |i: int| ' '),
                decreases n - k,
            {
                out.push(' ');
                k += 1;
                assert(out@ =~= before + Seq::new(k as nat, |i: int| ' '));
            }
        } else {
            out.push(c);
            assert(out@ =~= before + seq![c]);
        }
        at += n;
        i += 1;
    }
    assert(chars@.take(i as int) =~= source@);
    out
}

/// The closer that belongs to an opening bracket.
pub open spec fn closer_of(pairs: Seq<(u8, u8)>, b: u8) -> Option<u8>
    decreases pairs.len(),
{
    if pairs.len() == 0 {
        None
    } else {
        match closer_of(pairs.drop_last(), b) {
            Some(close) => Some(close),
            None => if pairs.last().0 == b {
                Some(pairs.last().1)
            } else {
                None
            },
        }
    }
}

/// Whether a byte closes some bracket.
pub open spec fn is_closer(pairs: Seq<(u8, u8)>, b: u8) -> bool {
    exists|i: int| 0 <= i < pairs.len() && (#[trigger] pairs[i]).1 == b
}

/// The brackets of a stretch of source: those still open, each with the
/// closer it waits for, and the place of the closer of each that is closed.
pub struct Brackets {
    pub open: Seq<(u8, int)>,
    pub closers: Seq<Option<int>>,
}

/// The brackets of the first `n` bytes, or where they do not balance and
/// what stands there.
pub open spec fn brackets_of(
    source: Seq<u8>,
    states: Seq<State>,
    pairs: Seq<(u8, u8)>,
    n: int,
) -> Result<Brackets, (int, u8)>
    decreases n,
{
    if n <= 0 {
        Ok(
            Brackets { open: Seq::empty(), closers: Seq::new(source.len(), |i: int| None) },
        )
    } else {
        let i = n - 1;
        let b = source[i];
        match brackets_of(source, states, pairs, i) {
            Err(fault) => Err(fault),
            Ok(before) => if states[i] != State::Code {
                Ok(before)
            } else {
                match closer_of(pairs, b) {
                    Some(close) => Ok(Brackets { open: before.open.push((close, i)), ..before }),
                    None => if !is_closer(pairs, b) {
                        Ok(before)
                    } else if before.open.len() > 0 && before.open.last().0 == b {
                        Ok(
                            Brackets {
                                open: before.open.drop_last(),
                                closers: before.closers.update(before.open.last().1, Some(i)),
                            },
                        )
                    } else {
                        Err((i, b))
                    },
                }
            },
        }
    }
}

/// The closer of every opening bracket of a source, or the place and the
/// description of the bracket that does not balance.
pub open spec fn closers_of(source: Seq<u8>, states: Seq<State>, pairs: Seq<(u8, u8)>) -> Result<
    Seq<Option<int>>,
    (int, Seq<char>),
> {
    match brackets_of(source, states, pairs, source.len() as int) {
        Err((i, b)) => Err((i, "unbalanced `"@ + seq![b as char] + "`"@)),
        Ok(found) => if found.open.len() > 0 {
            Err(
                (
                    found.open.last().1,
                    "unclosed delimiter, expected `"@ + seq![found.open.last().0 as char] + "`"@,
                ),
            )
        } else {
            Ok(found.closers)
        },
    }
}

proof fn lemma_brackets_stop(
    source: Seq<u8>,
    states: Seq<State>,
    pairs: Seq<(u8, u8)>,
    n: int,
    m: int,
)
    requires
        0 <= n <= m,
        brackets_of(source, states, pairs, n) is Err,
    ensures
        brackets_of(source, states, pairs, m) == brackets_of(source, states, pairs, n),
    decreases m - n,
{
    if n < m {
        lemma_brackets_stop(source, states, pairs, n, m - 1);
    }
}

/// Whether the brackets found in the first `n` bytes nest: open ones stand in
/// order, each closed one ends after it starts, and no two cross.
pub open spec fn nests(found: Brackets, n: int) -> bool {
    &&& forall|i: int, j: int|
        0 <= i < j < found.open.len() ==> (#[trigger] found.open[i]).1 < (
        #[trigger] found.open[j]).1
    &&& forall|i: int|
        0 <= i < found.open.len() ==> 0 <= (#[trigger] found.open[i]).1 < n
            && found.closers[found.open[i].1] is None
    &&& forall|i: int|
        0 <= i < found.closers.len() && (#[trigger] found.closers[i]) is Some ==> i
            < found.closers[i]->0 < n
    &&& forall|i: int, k: int|
        0 <= i < found.closers.len() && (#[trigger] found.closers[i]) is Some && 0 <= k
            < found.open.len() && i < (#[trigger] found.open[k]).1 ==> found.closers[i]->0
            < found.open[k].1
    &&& forall|i: int, k: int|
        0 <= i < k < found.closers.len() && (#[trigger] found.closers[i]) is Some && (
        #[trigger] found.closers[k]) is Some && k < found.closers[i]->0 ==> found.closers[k]->0
            < found.closers[i]->0
}

/// Whether every opening bracket of code in the first `n` bytes is open or
/// closed.
pub open spec fn accounts_for(
    found: Brackets,
    source: Seq<u8>,
    states: Seq<State>,
    pairs: Seq<(u8, u8)>,
    n: int,
) -> bool {
    forall|i: int|
        #![trigger found.closers[i]]
        0 <= i < n && states[i] == State::Code && closer_of(pairs, source[i]) is Some
            ==> found.closers[i] is Some || exists|k: int|
            0 <= k < found.open.len() && (#[trigger] found.open[k]).1 == i
}

proof fn lemma_brackets_nest(source: Seq<u8>, states: Seq<State>, pairs: Seq<(u8, u8)>, n: int)
    requires
        0 <= n <= source.len(),
    ensures
        brackets_of(source, states, pairs, n) matches Ok(found) ==> found.closers.len()
            == source.len() && nests(found, n) && accounts_for(found, source, states, pairs, n),
    decreases n,
{
    if n > 0 {
        lemma_brackets_nest(source, states, pairs, n - 1);
        if let Ok(found) = brackets_of(source, states, pairs, n) {
            let before = brackets_of(source, states, pairs, n - 1)->Ok_0;
            let i = n - 1;
            if states[i] == State::Code && closer_of(pairs, source[i]) is Some {
                assert(before.closers[i] is None);
                assert forall|j: int|
                    #![trigger found.closers[j]]
                    0 <= j < n && states[j] == State::Code && closer_of(pairs, source[j])
                        is Some implies found.closers[j] is Some || exists|k: int|
                    0 <= k < found.open.len() && (#[trigger] found.open[k]).1 == j by {
                    if j == i {
                        assert(found.open[found.open.len() - 1].1 == i);
                    } else if before.closers[j] is None {
                        let k = choose|k: int|
                            0 <= k < before.open.len() && (#[trigger] before.open[k]).1 == j;
                        assert(found.open[k].1 == j);
                    }
                }
            } else if states[i] == State::Code && is_closer(pairs, source[i]) {
                let opened = before.open.last().1;
                assert forall|j: int|
                    #![trigger found.closers[j]]
                    0 <= j < n && states[j] == State::Code && closer_of(pairs, source[j])
                        is Some implies found.closers[j] is Some || exists|k: int|
                    0 <= k < found.open.len() && (#[trigger] found.open[k]).1 == j by {
                    if j != opened && before.closers[j] is None {
                        let k = choose|k: int|
                            0 <= k < before.open.len() && (#[trigger] before.open[k]).1 == j;
                        assert(k < before.open.len() - 1);
                        assert(found.open[k].1 == j);
                    }
                }
                assert(nests(found, n));
            }
        }
    }
}

/// Map every code-position open bracket to its matching close. Fails
/// closed: brackets the scan cannot balance mean the profile does not
/// understand this file, and partial extraction would silently mis-nest.
pub fn match_brackets(source: &[u8], states: &Vec<State>, pairs: &Vec<(u8, u8)>) -> (out: Result<
    Vec<Option<usize>>,
    (usize, String),
>)
    requires
        states@.len() == source@.len(),
    ensures
        match out {
            Ok(closers) => closers_of(source@, states@, pairs@) == Ok::<
                Seq<Option<int>>,
                (int, Seq<char>),
            >(places(closers@)) && closers@.len() == source@.len() && all_closed(
                source@,
                states@,
                pairs@,
                places(closers@),
            ),
            Err((pos, what)) => closers_of(source@, states@, pairs@) == Err::<
                Seq<Option<int>>,
                (int, Seq<char>),
            >((pos as int, what@)) && pos < source@.len(),
        },
{
    let mut open: Vec<(u8, usize)> = Vec::new();
    let mut closers: Vec<Option<usize>> = Vec::new();
    let len: usize = source.len();
    let mut k: usize = 0;
    while k < len
        invariant
            k <= len,
            closers@.len() == k,
            forall|j: int| 0 <= j < k ==> closers@[j] is None,
        decreases len - k,
    {
        closers.push(None);
        k += 1;
    }
    let mut i: usize = 0;
    assert(open_places(open@) =~= Seq::empty());
    assert(places(closers@) =~= Seq::new(source@.len(), |i: int| None));
    while i < len
        invariant
            i <= len,
            len == source@.len(),
            len == states@.len(),
            closers@.len() == len,
            brackets_of(source@, states@, pairs@, i as int) == Ok::<Brackets, (int, u8)>(
                Brackets { open: open_places(open@), closers: places(closers@) },
            ),
        decreases len - i,
    {
        let ghost before = Brackets { open: open_places(open@), closers: places(closers@) };
        proof {
            lemma_brackets_nest(source@, states@, pairs@, i as int);
            if brackets_of(source@, states@, pairs@, i + 1) is Err {
                lemma_brackets_stop(source@, states@, pairs@, i + 1, len as int);
            }
        }
        let b: u8 = source[i];
        if states[i] == State::Code {
            match find_closer(pairs, b) {
                Some(close) => {
                    open.push((close, i));
                    assert(open_places(open@) =~= before.open.push((close, i as int)));
                },
                None => {
                    if closes(pairs, b) {
                        match open.pop() {
                            Some((expected, at)) => {
                                assert(before.open.last() == (expected, at as int));
                                assert(before.open[before.open.len() - 1].1 < i);
                                if expected != b {
                                    return Err((i, unbalanced(b)));
                                }
                                closers.set(at, Some(i));
                                assert(open_places(open@) =~= before.open.drop_last());
                                assert(places(closers@) =~= before.closers.update(
                                    at as int,
                                    Some(i as int),
                                ));
                            },
                            None => {
                                return Err((i, unbalanced(b)));
                            },
                        }
                    }
                },
            }
        }
        i += 1;
    }
    proof {
        lemma_brackets_nest(source@, states@, pairs@, len as int);
    }
    if open.len() > 0 {
        let (expected, at) = open[open.len() - 1];
        let ghost found = Brackets { open: open_places(open@), closers: places(closers@) };
        assert(found.open.last() == (expected, at as int));
        assert(found.open[found.open.len() - 1].1 < len);
        let mut what = owned("unclosed delimiter, expected `");
        let ghost head = what@;
        what.push(expected as char);
        assert(what@ =~= head + seq![expected as char]);
        what.append("`");
        return Err((at, what));
    }
    assert(all_closed(source@, states@, pairs@, places(closers@))) by {
        let found = Brackets { open: open_places(open@), closers: places(closers@) };
        assert(accounts_for(found, source@, states@, pairs@, len as int));
    }
    Ok(closers)
}

/// Places in a source, as numbers.
pub open spec fn places(closers: Seq<Option<usize>>) -> Seq<Option<int>> {
    closers.map_values(
        |at: Option<usize>|
            match at {
                Some(at) => Some(at as int),
                None => None,
            },
    )
}

spec fn open_places(open: Seq<(u8, usize)>) -> Seq<(u8, int)> {
    open.map_values(|entry: (u8, usize)| (entry.0, entry.1 as int))
}

/// Whether every opening bracket of code has a closer inside the source.
pub open spec fn all_closed(
    source: Seq<u8>,
    states: Seq<State>,
    pairs: Seq<(u8, u8)>,
    closers: Seq<Option<int>>,
) -> bool {
    &&& closers.len() == source.len()
    &&& forall|i: int|
        #![trigger closers[i]]
        0 <= i < source.len() && states[i] == State::Code && closer_of(pairs, source[i]) is Some
            ==> (closers[i] matches Some(at) && i < at < source.len())
}

fn unbalanced(b: u8) -> (out: String)
    ensures
        out@ == "unbalanced `"@ + seq![b as char] + "`"@,
{
    let mut out = owned("unbalanced `");
    let ghost head = out@;
    out.push(b as char);
    assert(out@ =~= head + seq![b as char]);
    out.append("`");
    out
}

fn find_closer(pairs: &Vec<(u8, u8)>, b: u8) -> (out: Option<u8>)
    ensures
        out == closer_of(pairs@, b),
{
    let mut i: usize = 0;
    assert(pairs@.take(0) =~= Seq::empty());
    while i < pairs.len()
        invariant
            i <= pairs@.len(),
            closer_of(pairs@.take(i as int), b) is None,
        decreases pairs@.len() - i,
    {
        assert(pairs@.take(i + 1).drop_last() =~= pairs@.take(i as int));
        if pairs[i].0 == b {
            proof {
                lemma_closer_stays(pairs@, b, i + 1);
            }
            return Some(pairs[i].1);
        }
        i += 1;
    }
    assert(pairs@.take(i as int) =~= pairs@);
    None
}

proof fn lemma_closer_stays(pairs: Seq<(u8, u8)>, b: u8, n: int)
    requires
        0 <= n <= pairs.len(),
        closer_of(pairs.take(n), b) is Some,
    ensures
        closer_of(pairs, b) == closer_of(pairs.take(n), b),
    decreases pairs.len() - n,
{
    if n < pairs.len() {
        assert(pairs.take(n + 1).drop_last() =~= pairs.take(n));
        lemma_closer_stays(pairs, b, n + 1);
    } else {
        assert(pairs.take(n) =~= pairs);
    }
}

fn closes(pairs: &Vec<(u8, u8)>, b: u8) -> (yes: bool)
    ensures
        yes == is_closer(pairs@, b),
{
    let mut i: usize = 0;
    while i < pairs.len()
        invariant
            i <= pairs@.len(),
            forall|j: int| 0 <= j < i ==> (#[trigger] pairs@[j]).1 != b,
        decreases pairs@.len() - i,
    {
        if pairs[i].1 == b {
            return true;
        }
        i += 1;
    }
    false
}

/// Matched brackets nest: each closes after it opens, and of two bracket
/// pairs one lies inside the other or they do not meet.
pub proof fn law_brackets_nest(
    source: Seq<u8>,
    states: Seq<State>,
    pairs: Seq<(u8, u8)>,
    i: int,
    k: int,
)
    requires
        closers_of(source, states, pairs) is Ok,
        0 <= i < k < source.len(),
        closers_of(source, states, pairs)->Ok_0[i] is Some,
        closers_of(source, states, pairs)->Ok_0[k] is Some,
    ensures
        ({
            let closers = closers_of(source, states, pairs)->Ok_0;
            i < closers[i]->0 && k < closers[k]->0 && (closers[i]->0 < k || closers[k]->0
                < closers[i]->0)
        }),
{
    lemma_brackets_nest(source, states, pairs, source.len() as int);
    let found = brackets_of(source, states, pairs, source.len() as int)->Ok_0;
    assert(found.closers[i] is Some && found.closers[k] is Some);
    lemma_closers_distinct(source, states, pairs, source.len() as int, i, k);
}

proof fn lemma_closers_distinct(
    source: Seq<u8>,
    states: Seq<State>,
    pairs: Seq<(u8, u8)>,
    n: int,
    i: int,
    k: int,
)
    requires
        0 <= n <= source.len(),
        brackets_of(source, states, pairs, n) is Ok,
        0 <= i < k < source.len(),
        brackets_of(source, states, pairs, n)->Ok_0.closers[i] is Some,
        brackets_of(source, states, pairs, n)->Ok_0.closers[k] is Some,
    ensures
        brackets_of(source, states, pairs, n)->Ok_0.closers[i] != brackets_of(
            source,
            states,
            pairs,
            n,
        )->Ok_0.closers[k],
        closer_of(pairs, source[brackets_of(source, states, pairs, n)->Ok_0.closers[i]->0]) is None,
        closer_of(pairs, source[k]) is Some,
    decreases n,
{
    lemma_brackets_nest(source, states, pairs, n);
    if n > 0 {
        let found = brackets_of(source, states, pairs, n)->Ok_0;
        let before = brackets_of(source, states, pairs, n - 1)->Ok_0;
        lemma_brackets_nest(source, states, pairs, n - 1);
        lemma_open_opens(source, states, pairs, n - 1);
        assert(found.closers[i] is Some && found.closers[k] is Some);
        if before.closers[i] is Some && before.closers[k] is Some {
            lemma_closers_distinct(source, states, pairs, n - 1, i, k);
        } else {
            lemma_closed_opens(source, states, pairs, n, k);
            lemma_closer_closes(source, states, pairs, n, i);
        }
    } else {
        assert(brackets_of(source, states, pairs, n)->Ok_0.closers[i] is None);
    }
}

proof fn lemma_open_opens(source: Seq<u8>, states: Seq<State>, pairs: Seq<(u8, u8)>, n: int)
    requires
        0 <= n <= source.len(),
    ensures
        brackets_of(source, states, pairs, n) matches Ok(found) ==> forall|k: int|
            0 <= k < found.open.len() ==> closer_of(pairs, source[(#[trigger] found.open[k]).1])
                is Some,
    decreases n,
{
    if n > 0 {
        lemma_open_opens(source, states, pairs, n - 1);
    }
}

proof fn lemma_closed_opens(
    source: Seq<u8>,
    states: Seq<State>,
    pairs: Seq<(u8, u8)>,
    n: int,
    k: int,
)
    requires
        0 <= n <= source.len(),
        brackets_of(source, states, pairs, n) is Ok,
        0 <= k < source.len(),
        brackets_of(source, states, pairs, n)->Ok_0.closers[k] is Some,
    ensures
        closer_of(pairs, source[k]) is Some,
    decreases n,
{
    if n > 0 {
        lemma_brackets_nest(source, states, pairs, n - 1);
        lemma_open_opens(source, states, pairs, n - 1);
        let before = brackets_of(source, states, pairs, n - 1)->Ok_0;
        if before.closers[k] is Some {
            lemma_closed_opens(source, states, pairs, n - 1, k);
        } else {
            assert(before.open[before.open.len() - 1].1 == k);
        }
    } else {
        assert(brackets_of(source, states, pairs, n)->Ok_0.closers[k] is None);
    }
}

proof fn lemma_closer_closes(
    source: Seq<u8>,
    states: Seq<State>,
    pairs: Seq<(u8, u8)>,
    n: int,
    k: int,
)
    requires
        0 <= n <= source.len(),
        brackets_of(source, states, pairs, n) is Ok,
        0 <= k < source.len(),
        brackets_of(source, states, pairs, n)->Ok_0.closers[k] is Some,
    ensures
        closer_of(pairs, source[brackets_of(source, states, pairs, n)->Ok_0.closers[k]->0]) is None,
    decreases n,
{
    if n > 0 {
        lemma_brackets_nest(source, states, pairs, n - 1);
        let before = brackets_of(source, states, pairs, n - 1)->Ok_0;
        if before.closers[k] is Some && brackets_of(source, states, pairs, n)->Ok_0.closers[k]
            == before.closers[k] {
            lemma_closer_closes(source, states, pairs, n - 1, k);
        }
    } else {
        assert(brackets_of(source, states, pairs, n)->Ok_0.closers[k] is None);
    }
}

/// What one opener pattern is run over, and what the scan of the source knows.
pub struct Scan {
    pub kind: ActualKind,
    pub pattern: Seq<char>,
    pub syntax: NameSyntax,
    pub source: Seq<char>,
    pub haystack: Seq<char>,
    pub states: Seq<State>,
    pub closers: Seq<Option<int>>,
    pub pairs: Seq<(u8, u8)>,
}

/// The state in which a title stands.
pub open spec fn name_state(syntax: NameSyntax) -> State {
    match syntax {
        NameSyntax::JsString => State::Str,
        NameSyntax::Raw => State::Code,
    }
}

/// The first opening bracket of code from `from` up to `to`.
pub open spec fn first_bracket(
    bytes: Seq<u8>,
    states: Seq<State>,
    pairs: Seq<(u8, u8)>,
    from: int,
    to: int,
) -> Option<int>
    decreases to - from,
{
    if from < 0 || from >= to || from >= states.len() {
        None
    } else if states[from] == State::Code && closer_of(pairs, bytes[from]) is Some {
        Some(from)
    } else {
        first_bracket(bytes, states, pairs, from + 1, to)
    }
}

/// What a match of an opener comes to: a decoy, whose start is passed over; a
/// definition, behind which the search goes on; or a fault of the pattern.
pub enum StepView {
    Decoy { start: int },
    Found { capture: CaptureView, end: int },
    Fault { message: Seq<char> },
}

/// What a match comes to, by the spans of its groups.
pub open spec fn step_of(scan: Scan, kw: int, name: int, groups: Seq<Option<(usize, usize)>>) -> StepView {
    let bytes = encode_utf8(scan.source);
    match (groups[0], groups[kw], groups[name]) {
        (_, None, _) => StepView::Fault { message: "(?<kw>...) did not participate in a match"@ },
        (_, _, None) => StepView::Fault { message: "(?<name>...) did not participate in a match"@ },
        (None, _, _) => StepView::Fault { message: Seq::empty() },
        (Some((start, end)), Some((kw_start, _)), Some((name_start, name_end))) => {
            if kw_start >= scan.states.len() || scan.states[kw_start as int] != State::Code
                || name_start >= scan.states.len() || scan.states[name_start as int] != name_state(
                scan.syntax,
            ) {
                StepView::Decoy { start: start as int }
            } else {
                match first_bracket(bytes, scan.states, scan.pairs, kw_start as int, end as int) {
                    None => StepView::Fault {
                        message: "opener at line "@ + decimal_of(line_at(bytes, kw_start as int))
                            + " contains no span bracket (the pattern must include the definition's opening bracket)"@,
                    },
                    Some(open) => match slice_between(
                        scan.source,
                        name_start as int,
                        name_end as int,
                    ) {
                        None => StepView::Fault {
                            message: "opener at line "@ + decimal_of(
                                line_at(bytes, kw_start as int),
                            ) + " ends its (?<name>...) inside a character"@,
                        },
                        Some(raw) => StepView::Found {
                            capture: CaptureView {
                                kind: scan.kind,
                                name: decoded(scan.syntax, raw),
                                line: line_at(bytes, kw_start as int),
                                start: kw_start as nat,
                                end: (scan.closers[open]->0 + 1) as nat,
                            },
                            end: end as int,
                        },
                    },
                }
            }
        },
    }
}

/// The definitions that an opener finds from byte offset `at` on, or the
/// first fault. A decoy moves the search one byte past its start, so that it
/// cannot shadow a real opener that it overlaps.
pub open spec fn collected_from(scan: Scan, kw: int, name: int, at: int) -> Result<
    Seq<CaptureView>,
    Seq<char>,
>
    decreases encode_utf8(scan.haystack).len() + 1 - at,
{
    let len = encode_utf8(scan.haystack).len();
    if at < 0 || at > len {
        Ok(Seq::empty())
    } else {
        match regex_captures(scan.pattern, scan.haystack, at as nat) {
            None => Ok(Seq::empty()),
            Some(groups) => match step_of(scan, kw, name, groups) {
                StepView::Fault { message } => Err(message),
                StepView::Decoy { start } => if start < at || start > len {
                    Ok(Seq::empty())
                } else {
                    collected_from(scan, kw, name, start + 1)
                },
                StepView::Found { capture, end } => if end <= at || end > len {
                    Ok(Seq::empty())
                } else {
                    match collected_from(scan, kw, name, end) {
                        Ok(rest) => Ok(seq![capture] + rest),
                        Err(message) => Err(message),
                    }
                },
            },
        }
    }
}

/// The definitions that an opener finds, or the first fault.
pub open spec fn collected(scan: Scan) -> Result<Seq<CaptureView>, Seq<char>> {
    if regex_fault(scan.pattern) is Some {
        Err("invalid opener pattern: "@ + regex_fault(scan.pattern)->0)
    } else {
        let groups = regex_groups(scan.pattern);
        match (group_position(groups, "kw"@), group_position(groups, "name"@)) {
            (None, _) => Err("opener pattern must define a (?<kw>...) group"@),
            (_, None) => Err("opener pattern must define a (?<name>...) group"@),
            (Some(kw), Some(name)) => collected_from(scan, kw, name, 0),
        }
    }
}

/// What a match of an opener comes to.
pub enum Step {
    /// Not a definition: the search goes on one byte past this start.
    Decoy { start: usize },
    /// A definition: the search goes on at this end.
    Found { capture: Capture, end: usize },
    /// The pattern is at fault.
    Fault { message: String },
}

impl View for Step {
    type V = StepView;

    open spec fn view(&self) -> StepView {
        match *self {
            Step::Decoy { start } => StepView::Decoy { start: start as int },
            Step::Found { capture, end } => StepView::Found { capture: capture@, end: end as int },
            Step::Fault { message } => StepView::Fault { message: message@ },
        }
    }
}

/// Whether the spans of a match's groups are spans of a text with `len`
/// bytes: the match ends in the text, and each group lies within the match.
pub open spec fn spans_fit(groups: Seq<Option<(usize, usize)>>, len: nat) -> bool {
    &&& groups.len() > 0
    &&& groups[0] matches Some(whole) && whole.0 <= whole.1 <= len && forall|i: int|
        0 <= i < groups.len() ==> (#[trigger] groups[i] matches Some(span) ==> whole.0 <= span.0
            <= span.1 <= whole.1)
}

fn find_bracket(
    bytes: &[u8],
    states: &Vec<State>,
    pairs: &Vec<(u8, u8)>,
    from: usize,
    to: usize,
) -> (out: Option<usize>)
    requires
        states@.len() == bytes@.len(),
    ensures
        match out {
            Some(at) => first_bracket(bytes@, states@, pairs@, from as int, to as int) == Some(
                at as int,
            ) && from <= at < to && at < states@.len() && states@[at as int] == State::Code
                && closer_of(pairs@, bytes@[at as int]) is Some,
            None => first_bracket(bytes@, states@, pairs@, from as int, to as int) is None,
        },
{
    let mut at: usize = from;
    while at < to && at < states.len()
        invariant
            from <= at,
            states@.len() == bytes@.len(),
            first_bracket(bytes@, states@, pairs@, at as int, to as int) == first_bracket(
                bytes@,
                states@,
                pairs@,
                from as int,
                to as int,
            ),
        decreases to - at,
    {
        if states[at] == State::Code && find_closer(pairs, bytes[at]).is_some() {
            return Some(at);
        }
        at += 1;
    }
    None
}

/// What one match of an opener comes to, by the spans of its groups. A match
/// is kept where its keyword is real code and its title is in the state the
/// pack's `name_syntax` promises. The span runs to the matching closer of the
/// first bracket the match itself contains: the call's parens for
/// `it("x", ...)`, the body brace for `mod foo {` — so the pattern must
/// include the definition's opening bracket.
pub fn match_step(
    kind: ActualKind,
    syntax: NameSyntax,
    source: &str,
    states: &Vec<State>,
    closers: &Vec<Option<usize>>,
    pairs: &Vec<(u8, u8)>,
    kw: usize,
    name: usize,
    groups: &Vec<Option<(usize, usize)>>,
) -> (out: Step)
    requires
        kw < groups@.len(),
        name < groups@.len(),
        states@.len() == encode_utf8(source@).len(),
        spans_fit(groups@, encode_utf8(source@).len()),
        all_closed(encode_utf8(source@), states@, pairs@, places(closers@)),
    ensures
        forall|scan: Scan|
            scan.kind == kind && scan.syntax == syntax && scan.source == source@ && scan.states
                == states@ && scan.closers == places(closers@) && scan.pairs == pairs@ ==> out@
                == #[trigger] step_of(scan, kw as int, name as int, groups@),
        out matches Step::Decoy { start } ==> start == (groups@[0]->0).0,
        out matches Step::Found { end, .. } ==> end == (groups@[0]->0).1 && (groups@[0]->0).0 < end,
{
    let bytes = source.as_bytes();
    let (start, end) = match groups[0] {
        Some(whole) => whole,
        None => (0, 0),
    };
    let kw_start = match groups[kw] {
        Some((kw_start, _)) => kw_start,
        None => {
            return Step::Fault { message: owned("(?<kw>...) did not participate in a match") };
        },
    };
    let (name_start, name_end) = match groups[name] {
        Some(span) => span,
        None => {
            return Step::Fault { message: owned("(?<name>...) did not participate in a match") };
        },
    };
    let wanted = match syntax {
        NameSyntax::JsString => State::Str,
        NameSyntax::Raw => State::Code,
    };
    if kw_start >= states.len() || states[kw_start] != State::Code || name_start >= states.len()
        || states[name_start] != wanted {
        return Step::Decoy { start };
    }
    let line: usize = line_of(bytes, kw_start);
    let mut message = concat2("opener at line ", count_text(line).as_str());
    let open = match find_bracket(bytes, states, pairs, kw_start, end) {
        Some(open) => open,
        None => {
            message.append(
                " contains no span bracket (the pattern must include the definition's opening bracket)",
            );
            return Step::Fault { message };
        },
    };
    match slice(source, name_start, name_end) {
        Some(raw) => {
            let ghost at = places(closers@)[open as int];
            assert(at is Some);
            let stop: usize = match closers[open] {
                Some(close) => close + 1,
                None => end,
            };
            let capture = Capture {
                kind,
                name: decode_name(syntax, raw.as_str()),
                line,
                start: kw_start,
                end: stop,
            };
            Step::Found { capture, end }
        },
        None => {
            message.append(" ends its (?<name>...) inside a character");
            Step::Fault { message }
        },
    }
}

/// Run one opener pattern over the comment-blanked source, keeping
/// matches whose keyword is real code and whose title is in the state the
/// pack's `name_syntax` promises. A rejected match (a decoy inside a
/// comment or string) resumes the search one byte past its start so it
/// cannot shadow a real opener it overlapped.
fn collect(
    kind: ActualKind,
    pattern: &str,
    syntax: NameSyntax,
    source: &str,
    haystack: &str,
    states: &Vec<State>,
    closers: &Vec<Option<usize>>,
    pairs: &Vec<(u8, u8)>,
) -> (out: Result<Vec<Capture>, String>)
    requires
        states@.len() == encode_utf8(source@).len(),
        haystack@ == blanked(source@, states@),
        all_closed(encode_utf8(source@), states@, pairs@, places(closers@)),
    ensures
        ({
            let scan = Scan {
                kind,
                pattern: pattern@,
                syntax,
                source: source@,
                haystack: haystack@,
                states: states@,
                closers: places(closers@),
                pairs: pairs@,
            };
            match out {
                Ok(captures) => collected(scan) == Ok::<Seq<CaptureView>, Seq<char>>(
                    views(captures@),
                ),
                Err(message) => collected(scan) == Err::<Seq<CaptureView>, Seq<char>>(message@),
            }
        }),
{
    let ghost scan = Scan {
        kind,
        pattern: pattern@,
        syntax,
        source: source@,
        haystack: haystack@,
        states: states@,
        closers: places(closers@),
        pairs: pairs@,
    };
    let re = match compile(pattern) {
        Ok(re) => re,
        Err(fault) => {
            return Err(concat2("invalid opener pattern: ", fault.as_str()));
        },
    };
    let groups = group_names(&re);
    let kw: usize = match find_group(&groups, "kw") {
        Some(i) => i,
        None => {
            return Err(owned("opener pattern must define a (?<kw>...) group"));
        },
    };
    let name: usize = match find_group(&groups, "name") {
        Some(i) => i,
        None => {
            return Err(owned("opener pattern must define a (?<name>...) group"));
        },
    };
    proof {
        law_blanking_keeps_offsets(source@, states@);
    }
    let len: usize = haystack.as_bytes().len();
    let mut captures: Vec<Capture> = Vec::new();
    let mut at: usize = 0;
    assert(views(captures@) =~= Seq::empty());
    proof {
        if let Ok(rest) = collected_from(scan, kw as int, name as int, 0) {
            assert(views(captures@) + rest =~= rest);
        }
    }
    while at <= len
        invariant
            scan == (Scan {
                kind,
                pattern: pattern@,
                syntax,
                source: source@,
                haystack: haystack@,
                states: states@,
                closers: places(closers@),
                pairs: pairs@,
            }),
            at <= len,
            len == encode_utf8(haystack@).len(),
            len == encode_utf8(source@).len(),
            states@.len() == len,
            all_closed(encode_utf8(source@), states@, pairs@, places(closers@)),
            regex_text(re) == pattern@,
            regex_fault(pattern@) is None,
            group_position(regex_groups(pattern@), "kw"@) == Some(kw as int),
            group_position(regex_groups(pattern@), "name"@) == Some(name as int),
            kw < regex_groups(pattern@).len(),
            name < regex_groups(pattern@).len(),
            collected(scan) == after(
                views(captures@),
                collected_from(scan, kw as int, name as int, at as int),
            ),
        decreases len - at,
    {
        let found = match captures_at(&re, haystack, at) {
            Some(found) => found,
            None => {
                assert(views(captures@) + Seq::<CaptureView>::empty() =~= views(captures@));
                return Ok(captures);
            },
        };
        match match_step(kind, syntax, source, states, closers, pairs, kw, name, &found) {
            Step::Fault { message } => {
                return Err(message);
            },
            Step::Decoy { start } => {
                if start >= len {
                    assert(collected_from(scan, kw as int, name as int, start + 1) == Ok::<
                        Seq<CaptureView>,
                        Seq<char>,
                    >(Seq::empty()));
                    assert(views(captures@) + Seq::<CaptureView>::empty() =~= views(captures@));
                    return Ok(captures);
                }
                at = start + 1;
            },
            Step::Found { capture, end } => {
                let ghost before = views(captures@);
                captures.push(capture);
                at = end;
                proof {
                    assert(views(captures@) =~= before + seq![capture@]);
                    if let Ok(rest) = collected_from(scan, kw as int, name as int, end as int) {
                        assert(before + (seq![capture@] + rest) =~= views(captures@) + rest);
                    }
                }
            },
        }
    }
    Ok(captures)
}

spec fn after(
    found: Seq<CaptureView>,
    rest: Result<Seq<CaptureView>, Seq<char>>,
) -> Result<Seq<CaptureView>, Seq<char>> {
    match rest {
        Ok(rest) => Ok(found + rest),
        Err(message) => Err(message),
    }
}

/// Whether a byte is white space: a space, tab, line feed, form feed or
/// carriage return.
pub open spec fn is_blank(b: u8) -> bool {
    b == 9 || b == 10 || b == 12 || b == 13 || b == 32
}

/// The first byte of a span that is code and not white space.
pub open spec fn first_code(bytes: Seq<u8>, states: Seq<State>, from: int, to: int) -> Option<int>
    decreases to - from,
{
    if from < 0 || from >= to || from >= states.len() {
        None
    } else if states[from] == State::Code && !is_blank(bytes[from]) {
        Some(from)
    } else {
        first_code(bytes, states, from + 1, to)
    }
}

/// The numbers with `line` put before those that are larger.
pub open spec fn insert_line(lines: Seq<UnsupportedView>, line: UnsupportedView) -> Seq<
    UnsupportedView,
>
    decreases lines.len(),
{
    if lines.len() == 0 || lines.last().line <= line.line {
        lines.push(line)
    } else {
        insert_line(lines.drop_last(), line).push(lines.last())
    }
}

/// The lines of the matches that contain real code, in ascending order.
pub open spec fn unsupported_lines(
    bytes: Seq<u8>,
    states: Seq<State>,
    matches: Seq<(usize, usize)>,
) -> Seq<UnsupportedView>
    decreases matches.len(),
{
    if matches.len() == 0 {
        Seq::empty()
    } else {
        let before = unsupported_lines(bytes, states, matches.drop_last());
        match first_code(bytes, states, matches.last().0 as int, matches.last().1 as int) {
            Some(at) => insert_line(before, UnsupportedView { line: line_at(bytes, at) }),
            None => before,
        }
    }
}

fn find_code(bytes: &[u8], states: &Vec<State>, from: usize, to: usize) -> (out: Option<usize>)
    requires
        states@.len() == bytes@.len(),
    ensures
        match out {
            Some(at) => first_code(bytes@, states@, from as int, to as int) == Some(at as int) && at
                < bytes@.len(),
            None => first_code(bytes@, states@, from as int, to as int) is None,
        },
{
    let mut at: usize = from;
    while at < to && at < states.len()
        invariant
            from <= at,
            states@.len() == bytes@.len(),
            first_code(bytes@, states@, at as int, to as int) == first_code(
                bytes@,
                states@,
                from as int,
                to as int,
            ),
        decreases to - at,
    {
        let b: u8 = bytes[at];
        let blank = b == 9 || b == 10 || b == 12 || b == 13 || b == 32;
        if states[at] == State::Code && !blank {
            return Some(at);
        }
        at += 1;
    }
    None
}

fn put_line(lines: &mut Vec<Unsupported>, line: Unsupported)
    ensures
        views(final(lines)@) == insert_line(views(old(lines)@), line@),
{
    let ghost before = views(lines@);
    let mut at: usize = lines.len();
    assert(before.take(at as int) =~= before);
    assert(insert_line(before, line@) + before.skip(at as int) =~= insert_line(before, line@));
    while at > 0 && lines[at - 1].line > line.line
        invariant
            at <= lines@.len(),
            before == views(lines@),
            insert_line(before, line@) == insert_line(before.take(at as int), line@) + before.skip(
                at as int,
            ),
        decreases at,
    {
        proof {
            let head = before.take(at as int);
            assert(head.last() == lines@[at - 1]@);
            assert(head.drop_last() =~= before.take(at - 1));
            assert(insert_line(head.drop_last(), line@).push(head.last()) + before.skip(at as int)
                =~= insert_line(before.take(at - 1), line@) + before.skip(at - 1));
        }
        at -= 1;
    }
    proof {
        if at > 0 {
            assert(before.take(at as int).last() == lines@[at - 1]@);
        }
    }
    lines.insert(at, line);
    assert(views(lines@) =~= before.take(at as int).push(line@) + before.skip(at as int));
}

/// The lines of the matches that contain real code, in ascending order.
pub fn unsupported_in(source: &str, states: &Vec<State>, matches: &Vec<(usize, usize)>) -> (out: Vec<
    Unsupported,
>)
    requires
        states@.len() == encode_utf8(source@).len(),
    ensures
        views(out@) == unsupported_lines(encode_utf8(source@), states@, matches@),
{
    let bytes = source.as_bytes();
    let mut out: Vec<Unsupported> = Vec::new();
    let mut i: usize = 0;
    assert(views(out@) =~= Seq::empty());
    assert(matches@.take(0) =~= Seq::empty());
    while i < matches.len()
        invariant
            i <= matches@.len(),
            bytes@ == encode_utf8(source@),
            states@.len() == bytes@.len(),
            views(out@) == unsupported_lines(bytes@, states@, matches@.take(i as int)),
        decreases matches@.len() - i,
    {
        assert(matches@.take(i + 1).drop_last() =~= matches@.take(i as int));
        let (from, to) = matches[i];
        if let Some(at) = find_code(bytes, states, from, to) {
            put_line(&mut out, Unsupported { line: line_of(bytes, at) });
        }
        i += 1;
    }
    assert(matches@.take(i as int) =~= matches@);
    out
}

/// The constructs that a profile's `unsupported` pattern finds.
pub open spec fn unsupported_of(
    unsupported: Option<Seq<char>>,
    source: Seq<char>,
    states: Seq<State>,
) -> Result<Seq<UnsupportedView>, Seq<char>> {
    match unsupported {
        None => Ok(Seq::empty()),
        Some(pattern) => match regex_fault(pattern) {
            Some(fault) => Err("invalid opener pattern: "@ + fault),
            None => Ok(
                unsupported_lines(
                    encode_utf8(source),
                    states,
                    regex_matches(pattern, blanked(source, states)),
                ),
            ),
        },
    }
}

/// Collect line-only findings whose match contains real, non-trivia code.
fn collect_unsupported(
    unsupported: &Option<String>,
    source: &str,
    haystack: &str,
    states: &Vec<State>,
) -> (out: Result<Vec<Unsupported>, String>)
    requires
        states@.len() == encode_utf8(source@).len(),
        haystack@ == blanked(source@, states@),
    ensures
        match out {
            Ok(found) => unsupported_of(opt_view(*unsupported), source@, states@) == Ok::<
                Seq<UnsupportedView>,
                Seq<char>,
            >(views(found@)),
            Err(message) => unsupported_of(opt_view(*unsupported), source@, states@) == Err::<
                Seq<UnsupportedView>,
                Seq<char>,
            >(message@),
        },
{
    match unsupported {
        None => {
            let none: Vec<Unsupported> = Vec::new();
            assert(views(none@) =~= Seq::empty());
            Ok(none)
        },
        Some(pattern) => match compile(pattern.as_str()) {
            Err(fault) => Err(concat2("invalid opener pattern: ", fault.as_str())),
            Ok(re) => Ok(unsupported_in(source, states, &all_matches(&re, haystack))),
        },
    }
}

/// A fault and the line of the source that it stands on.
pub open spec fn located(source: Seq<char>, pos: int, what: Seq<char>) -> Seq<char> {
    what + " (line "@ + decimal_of(line_at(encode_utf8(source), pos)) + ")"@
}

/// The structure that the captures of a source make up.
pub open spec fn structured(captures: Seq<CaptureView>, unsupported: Seq<UnsupportedView>) -> ExtractionView {
    let nodes = forest(without_repeats(in_order(captures)));
    ExtractionView {
        nodes: pruned(actual_of(nodes)),
        unsupported,
        source_nodes: nodes,
        has_parse_errors: false,
    }
}

/// The scan of one opener over a source.
pub open spec fn scan_for(
    kind: ActualKind,
    pattern: Seq<char>,
    syntax: NameSyntax,
    source: Seq<char>,
    states: Seq<State>,
    closers: Seq<Option<int>>,
    pairs: Seq<(u8, u8)>,
) -> Scan {
    Scan {
        kind,
        pattern,
        syntax,
        source,
        haystack: blanked(source, states),
        states,
        closers,
        pairs,
    }
}

/// What a lexical profile extracts from a source once its bytes are
/// classified and its brackets are matched.
pub open spec fn extracted_with(
    cfg: LexicalView,
    syntax: NameSyntax,
    source: Seq<char>,
    states: Seq<State>,
    closers: Seq<Option<int>>,
    pairs: Seq<(u8, u8)>,
) -> Result<ExtractionView, Seq<char>> {
    let blocks = collected(
        scan_for(ActualKind::Block, cfg.block, syntax, source, states, closers, pairs),
    );
    let tests = collected(
        scan_for(ActualKind::Test, cfg.test, syntax, source, states, closers, pairs),
    );
    match (blocks, tests, unsupported_of(cfg.unsupported, source, states)) {
        (Err(message), _, _) => Err(message),
        (_, Err(message), _) => Err(message),
        (_, _, Err(message)) => Err(message),
        (Ok(blocks), Ok(tests), Ok(unsupported)) => Ok(structured(blocks + tests, unsupported)),
    }
}

/// Whether a place lies outside all brackets.
pub open spec fn is_top_level(closers: Seq<Option<int>>, at: int) -> bool {
    forall|open: int|
        0 <= open < at && open < closers.len() ==> (#[trigger] closers[open] matches Some(close)
            ==> close < at)
}

/// Whether each place of a source lies outside all brackets.
fn find_top_level(closers: &Vec<Option<usize>>) -> (out: Vec<bool>)
    ensures
        out@.len() == closers@.len(),
        forall|at: int|
            0 <= at < out@.len() ==> #[trigger] out@[at] == is_top_level(places(closers@), at),
{
    let ghost all = places(closers@);
    let mut out: Vec<bool> = Vec::new();
    // The last closing bracket of those opened so far, if any.
    let mut reach: Option<usize> = None;
    let mut at: usize = 0;
    while at < closers.len()
        invariant
            at <= closers@.len(),
            all == places(closers@),
            all.len() == closers@.len(),
            out@.len() == at,
            forall|i: int| 0 <= i < at ==> #[trigger] out@[i] == is_top_level(all, i),
            forall|open: int|
                0 <= open < at ==> (#[trigger] all[open] matches Some(close) ==> reach is Some
                    && close <= reach->0),
            reach matches Some(far) ==> exists|open: int|
                0 <= open < at && #[trigger] all[open] == Some(far as int),
        decreases closers@.len() - at,
    {
        let outside = match reach {
            Some(far) => far < at,
            None => true,
        };
        assert(outside == is_top_level(all, at as int));
        out.push(outside);
        if let Some(close) = closers[at] {
            assert(all[at as int] == Some(close as int));
            reach = match reach {
                Some(far) if far >= close => Some(far),
                _ => Some(close),
            };
        }
        at += 1;
    }
    out
}

/// What a match of a profile's alias pattern binds, by the spans of its
/// groups: real code outside all brackets.
pub open spec fn binding_at(
    source: Seq<char>,
    states: Seq<State>,
    closers: Seq<Option<int>>,
    name: Option<(usize, usize)>,
    value: Option<(usize, usize)>,
) -> Option<(Seq<char>, Seq<char>)> {
    match (name, value) {
        (Some((name_start, name_end)), Some((value_start, value_end))) => {
            if name_start < states.len() && states[name_start as int] == State::Code && value_start
                < states.len() && states[value_start as int] == State::Code && is_top_level(
                closers,
                name_start as int,
            ) {
                match (
                    slice_between(source, name_start as int, name_end as int),
                    slice_between(source, value_start as int, value_end as int),
                ) {
                    (Some(name), Some(value)) => Some((name, value)),
                    _ => None,
                }
            } else {
                None
            }
        },
        _ => None,
    }
}

/// The bindings that an alias pattern finds from byte offset `at` on. A match
/// that binds nothing moves the search one byte past its start.
pub open spec fn bound_from(
    pattern: Seq<char>,
    name: int,
    value: int,
    source: Seq<char>,
    states: Seq<State>,
    closers: Seq<Option<int>>,
    at: int,
) -> Seq<(Seq<char>, Seq<char>)>
    decreases encode_utf8(source).len() + 1 - at,
{
    let haystack = blanked(source, states);
    let len = encode_utf8(source).len();
    if at < 0 || at > len {
        Seq::empty()
    } else {
        match regex_captures(pattern, haystack, at as nat) {
            Some(groups) if groups[0] is Some && at <= (groups[0]->0).0 <= (groups[0]->0).1 <= len => {
                let (start, end) = groups[0]->0;
                match binding_at(source, states, closers, groups[name], groups[value]) {
                    Some(binding) => seq![binding] + bound_from(
                        pattern,
                        name,
                        value,
                        source,
                        states,
                        closers,
                        if start < end {
                            end as int
                        } else {
                            start + 1
                        },
                    ),
                    None => bound_from(pattern, name, value, source, states, closers, start + 1),
                }
            },
            _ => Seq::empty(),
        }
    }
}

/// What a source binds at its top level, as a profile finds it.
pub open spec fn bindings_of(
    alias: Option<Seq<char>>,
    source: Seq<char>,
    states: Seq<State>,
    closers: Seq<Option<int>>,
) -> Result<Seq<(Seq<char>, Seq<char>)>, Seq<char>> {
    match alias {
        None => Ok(Seq::empty()),
        Some(pattern) => match alias_fault(regex_fault(pattern), regex_groups(pattern)) {
            Some(message) => Err(message),
            None => {
                let groups = regex_groups(pattern);
                Ok(
                    bound_from(
                        pattern,
                        group_position(groups, "name"@)->0,
                        group_position(groups, "value"@)->0,
                        source,
                        states,
                        closers,
                        0,
                    ),
                )
            },
        },
    }
}

fn bind(
    source: &str,
    states: &Vec<State>,
    top_level: &Vec<bool>,
    name: Option<(usize, usize)>,
    value: Option<(usize, usize)>,
) -> (out: Option<(String, String)>)
    requires
        top_level@.len() == states@.len(),
    ensures
        forall|closers: Seq<Option<int>>|
            (forall|at: int|
                0 <= at < top_level@.len() ==> top_level@[at] == is_top_level(closers, at))
                ==> #[trigger] binding_at(source@, states@, closers, name, value) == match out {
                Some((name, value)) => Some((name@, value@)),
                None => None,
            },
{
    match (name, value) {
        (Some((name_start, name_end)), Some((value_start, value_end))) => {
            if name_start < states.len() && states[name_start] == State::Code && value_start
                < states.len() && states[value_start] == State::Code && top_level[name_start] {
                match (slice(source, name_start, name_end), slice(source, value_start, value_end)) {
                    (Some(name), Some(value)) => Some((name, value)),
                    _ => None,
                }
            } else {
                None
            }
        },
        _ => None,
    }
}

/// What a source binds at its top level, as a profile finds it.
fn find_bindings(
    alias: &Option<Opener>,
    source: &str,
    haystack: &str,
    states: &Vec<State>,
    closers: &Vec<Option<usize>>,
) -> (out: Result<Vec<(String, String)>, String>)
    requires
        states@.len() == encode_utf8(source@).len(),
        closers@.len() == states@.len(),
        haystack@ == blanked(source@, states@),
    ensures
        ({
            let pattern = match *alias {
                Some(opener) => Some(opener.open@),
                None => None,
            };
            match out {
                Ok(found) => bindings_of(pattern, source@, states@, places(closers@)) == Ok::<
                    Seq<(Seq<char>, Seq<char>)>,
                    Seq<char>,
                >(pair_views(found@)),
                Err(message) => bindings_of(pattern, source@, states@, places(closers@)) == Err::<
                    Seq<(Seq<char>, Seq<char>)>,
                    Seq<char>,
                >(message@),
            }
        }),
{
    let mut found: Vec<(String, String)> = Vec::new();
    assert(pair_views(found@) =~= Seq::empty());
    let pattern = match alias {
        Some(opener) => opener.open.as_str(),
        None => {
            return Ok(found);
        },
    };
    let re = match compile(pattern) {
        Ok(re) => re,
        Err(fault) => {
            return Err(alias_message(fault.as_str()));
        },
    };
    let groups = group_names(&re);
    if let Some(message) = check_bound(&groups) {
        return Err(message);
    }
    let (name, value) = match (find_group(&groups, "name"), find_group(&groups, "value")) {
        (Some(name), Some(value)) => (name, value),
        _ => {
            return Ok(found);
        },
    };
    let top_level = find_top_level(closers);
    let ghost all = places(closers@);
    proof {
        law_blanking_keeps_offsets(source@, states@);
    }
    let len: usize = haystack.as_bytes().len();
    let ghost whole = bound_from(
        pattern@,
        name as int,
        value as int,
        source@,
        states@,
        all,
        0,
    );
    let mut at: usize = 0;
    assert(pair_views(found@) + whole =~= whole);
    while at <= len
        invariant
            at <= len,
            len == encode_utf8(haystack@).len(),
            len == encode_utf8(source@).len(),
            haystack@ == blanked(source@, states@),
            states@.len() == len,
            top_level@.len() == len,
            all == places(closers@),
            forall|i: int|
                0 <= i < top_level@.len() ==> #[trigger] top_level@[i] == is_top_level(all, i),
            regex_text(re) == pattern@,
            name < regex_groups(pattern@).len(),
            value < regex_groups(pattern@).len(),
            alias matches Some(opener) && opener.open@ == pattern@,
            alias_fault(regex_fault(pattern@), regex_groups(pattern@)) is None,
            group_position(regex_groups(pattern@), "name"@) == Some(name as int),
            group_position(regex_groups(pattern@), "value"@) == Some(value as int),
            whole == bound_from(
                pattern@,
                name as int,
                value as int,
                source@,
                states@,
                all,
                0,
            ),
            pair_views(found@) + bound_from(
                pattern@,
                name as int,
                value as int,
                source@,
                states@,
                all,
                at as int,
            ) == whole,
        decreases len - at,
    {
        let ghost before = pair_views(found@);
        let spans = match captures_at(&re, haystack, at) {
            Some(spans) => spans,
            None => {
                assert(before + Seq::<(Seq<char>, Seq<char>)>::empty() =~= before);
                return Ok(found);
            },
        };
        let (start, end) = match spans[0] {
            Some(span) => span,
            None => (at, at),
        };
        let mut next: usize = end;
        match bind(source, states, &top_level, spans[name], spans[value]) {
            Some(binding) => {
                let ghost added = (binding.0@, binding.1@);
                found.push(binding);
                proof {
                    assert(pair_views(found@) =~= before.push(added));
                    let rest = bound_from(
                        pattern@,
                        name as int,
                        value as int,
                        source@,
                        states@,
                        all,
                        if start < end {
                            end as int
                        } else {
                            start + 1
                        },
                    );
                    assert(before + (seq![added] + rest) =~= before.push(added) + rest);
                }
            },
            None => {
                next = start;
            },
        }
        if next <= start {
            if start >= len {
                proof {
                    let rest = bound_from(
                        pattern@,
                        name as int,
                        value as int,
                        source@,
                        states@,
                        all,
                        start + 1,
                    );
                    assert(rest =~= Seq::empty());
                    assert(pair_views(found@) + rest =~= pair_views(found@));
                }
                return Ok(found);
            }
            next = start + 1;
        }
        at = next;
    }
    Ok(found)
}

/// What a lexical profile extracts from a source, or why it cannot. The names
/// that the source binds to the functions in `known` count as those functions.
pub open spec fn extracted(
    cfg: LexicalView,
    known: Seq<Seq<char>>,
    syntax: NameSyntax,
    source: Seq<char>,
) -> Result<ExtractionView, Seq<char>> {
    let bytes = encode_utf8(source);
    if token_fault(cfg) is Some {
        Err(token_fault(cfg)->0)
    } else {
        match pairs_of(cfg.nest) {
            Err(message) => Err(message),
            Ok(pairs) => match masked(bytes, cfg) {
                Err((pos, what)) => Err(located(source, pos, what)),
                Ok(states) => match closers_of(bytes, states, pairs) {
                    Err((pos, what)) => Err(located(source, pos, what)),
                    Ok(closers) => match bindings_of(cfg.alias, source, states, closers) {
                        Err(message) => Err(message),
                        Ok(bindings) => extracted_with(
                            with_names(cfg, known, aliases_of(bindings, known)),
                            syntax,
                            source,
                            states,
                            closers,
                            pairs,
                        ),
                    },
                },
            },
        }
    }
}

fn locate(bytes: &[u8], pos: usize, what: String) -> (out: String)
    requires
        pos < bytes@.len(),
    ensures
        out@ == what@ + " (line "@ + decimal_of(line_at(bytes@, pos as int)) + ")"@,
{
    let mut out = what;
    out.append(" (line ");
    out.append(count_text(line_of(bytes, pos)).as_str());
    out.append(")");
    out
}

/// Extract the actual test structure using the pack's lexical profile. The
/// error of a source or profile that the scan cannot account for is
/// [`Error::Lexical`] with the pack's name.
pub fn extract(
    pack: &str,
    cfg: &Lexical,
    known: &Vec<String>,
    syntax: NameSyntax,
    source: &str,
) -> (out: Result<Extraction, Error>)
    ensures
        match out {
            Ok(found) => extracted(cfg@, views(known@), syntax, source@) == Ok::<ExtractionView, Seq<char>>(
                found@,
            ),
            Err(e) => extracted(cfg@, views(known@), syntax, source@) is Err && e@ == (ErrorView::Lexical {
                pack: pack@,
                message: extracted(cfg@, views(known@), syntax, source@)->Err_0,
            }),
        },
{
    match scan(cfg, known, syntax, source) {
        Ok(found) => Ok(found),
        Err(message) => Err(Error::Lexical { pack: owned(pack), message }),
    }
}

fn scan(cfg: &Lexical, known: &Vec<String>, syntax: NameSyntax, source: &str) -> (out: Result<
    Extraction,
    String,
>)
    ensures
        match out {
            Ok(found) => extracted(cfg@, views(known@), syntax, source@) == Ok::<ExtractionView, Seq<char>>(
                found@,
            ),
            Err(message) => extracted(cfg@, views(known@), syntax, source@) == Err::<ExtractionView, Seq<char>>(
                message@,
            ),
        },
{
    // Profiles are validated at pack load; these stay as defensive errors.
    if let Some(message) = check_tokens(cfg) {
        return Err(message);
    }
    let pairs = bracket_pairs(cfg)?;
    let bytes = source.as_bytes();
    let states = match mask(bytes, cfg) {
        Ok(states) => states,
        Err((pos, what)) => {
            return Err(locate(bytes, pos, what));
        },
    };
    let closers = match match_brackets(bytes, &states, &pairs) {
        Ok(closers) => closers,
        Err((pos, what)) => {
            return Err(locate(bytes, pos, what));
        },
    };
    let len: usize = bytes.len();
    let haystack = blank_comments(source, &states);
    let bindings = find_bindings(&cfg.alias, source, haystack.as_str(), &states, &closers)?;
    let aliases = resolve_aliases(&bindings, known);
    let openers = name_openers(cfg, known, &aliases);
    let mut captures = collect(
        ActualKind::Block,
        openers.block.as_str(),
        syntax,
        source,
        haystack.as_str(),
        &states,
        &closers,
        &pairs,
    )?;
    let ghost blocks = views(captures@);
    let mut tests = collect(
        ActualKind::Test,
        openers.test.as_str(),
        syntax,
        source,
        haystack.as_str(),
        &states,
        &closers,
        &pairs,
    )?;
    let ghost found = views(tests@);
    captures.append(&mut tests);
    assert(views(captures@) =~= blocks + found);
    let unsupported = collect_unsupported(&openers.unsupported, source, haystack.as_str(), &states)?;
    let ordered = order_captures(captures);
    let source_nodes = nest(ordered.as_slice());
    Ok(
        Extraction {
            nodes: ActualNode::prune_empty_blocks(actual_nodes(&source_nodes)),
            unsupported,
            source_nodes,
            has_parse_errors: false,
        },
    )
}

/// Extraction fails closed: a source with an unterminated string or comment,
/// or with brackets that do not balance, gives an error and no structure.
pub proof fn law_extraction_fails_closed(
    cfg: LexicalView,
    known: Seq<Seq<char>>,
    syntax: NameSyntax,
    source: Seq<char>,
)
    requires
        profile_fault(cfg, known) is None,
    ensures
        extracted(cfg, known, syntax, source) is Ok ==> {
            let states = masked(encode_utf8(source), cfg);
            &&& states is Ok
            &&& closers_of(encode_utf8(source), states->Ok_0, pairs_of(cfg.nest)->Ok_0) is Ok
        },
{
}

/// A line is ended by a line feed only: the number of the line that an offset
/// lies on grows by one with each line feed before it.
pub proof fn law_lines_are_counted_by_line_feeds(bytes: Seq<u8>, pos: int)
    requires
        0 <= pos < bytes.len(),
    ensures
        line_at(bytes, 0) == 1,
        line_at(bytes, pos + 1) == line_at(bytes, pos) + if bytes[pos] == 10u8 {
            1nat
        } else {
            0nat
        },
{
    assert(bytes.take(pos + 1).drop_last() =~= bytes.take(pos));
    assert(bytes.take(pos + 1).last() == bytes[pos]);
}

/// A line comment goes up to the next line feed, which it leaves out, or to the
/// end of the source.
pub proof fn law_line_comments_end_with_the_line(source: Seq<u8>, i: int)
    requires
        0 <= i <= source.len(),
    ensures
        ({
            let end = comment_end(source, i);
            &&& i <= end <= source.len()
            &&& forall|k: int| i <= k < end ==> #[trigger] source[k] != 10u8
            &&& end < source.len() ==> source[end] == 10u8
        }),
    decreases source.len() - i,
{
    if i < source.len() && source[i] != 10u8 {
        law_line_comments_end_with_the_line(source, i + 1);
    }
}

/// A closing token is the first one at or behind the place where the search
/// starts.
pub proof fn law_the_first_closing_token_counts(source: Seq<u8>, token: Seq<u8>, from: int)
    requires
        0 <= from,
    ensures
        match next_token(source, token, from) {
            Some(at) => {
                &&& from <= at < source.len()
                &&& bytes_at(source, token, at)
                &&& forall|k: int| from <= k < at ==> !#[trigger] bytes_at(source, token, k)
            },
            None => forall|k: int|
                from <= k < source.len() ==> !#[trigger] bytes_at(source, token, k),
        },
    decreases source.len() - from,
{
    if from < source.len() && !bytes_at(source, token, from) {
        law_the_first_closing_token_counts(source, token, from + 1);
    }
}

/// Whether an escape of a string rule stands at a place.
pub open spec fn escape_at(source: Seq<u8>, rule: StringRuleView, i: int) -> bool {
    rule.escape matches Some(escape) && bytes_at(source, encode_utf8(escape), i)
}

/// Whether `next` is one step behind `i` in the inside of a string: behind an
/// escape and the byte that follows it, or one byte on where neither an escape
/// nor the delimiter stands.
pub open spec fn is_next(source: Seq<u8>, rule: StringRuleView, i: int, next: int) -> bool {
    if escape_at(source, rule, i) {
        next == i + encode_utf8(rule.escape->0).len() + 1
    } else {
        !bytes_at(source, encode_utf8(rule.delim), i) && next == i + 1
    }
}

/// Whether `cuts` goes through the inside of a string step by step.
pub open spec fn goes_through(source: Seq<u8>, rule: StringRuleView, cuts: Seq<int>) -> bool {
    forall|k: int, l: int|
        0 <= k && l == k + 1 && l < cuts.len() ==> #[trigger] is_next(
            source,
            rule,
            cuts[k],
            cuts[l],
        )
}

/// A string ends behind the first delimiter that no escape takes along, and
/// only there: where going through the source meets the end first, the string
/// has no end.
pub proof fn law_strings_end_at_the_first_bare_delimiter(
    source: Seq<u8>,
    rule: StringRuleView,
    cuts: Seq<int>,
)
    requires
        cuts.len() > 0,
        0 <= cuts[0],
        goes_through(source, rule, cuts),
        forall|k: int| 0 <= k < cuts.len() - 1 ==> 0 <= #[trigger] cuts[k] < source.len(),
        0 <= cuts.last(),
    ensures
        cuts.last() < source.len() && !escape_at(source, rule, cuts.last()) && bytes_at(
            source,
            encode_utf8(rule.delim),
            cuts.last(),
        ) ==> string_end(source, rule, cuts[0]) == Some(
            cuts.last() + encode_utf8(rule.delim).len(),
        ),
        cuts.last() >= source.len() ==> string_end(source, rule, cuts[0]) is None,
    decreases cuts.len(),
{
    if cuts.len() > 1 {
        let rest = cuts.drop_first();
        assert(rest[0] == cuts[1]);
        assert(cuts[0] < source.len());
        assert(rest.last() == cuts.last());
        if cuts.len() > 2 {
            assert(0 <= cuts[1] < source.len());
        }
        assert(is_next(source, rule, cuts[0], cuts[1]));
        assert forall|k: int, l: int|
            0 <= k && l == k + 1 && l < rest.len() implies #[trigger] is_next(
            source,
            rule,
            rest[k],
            rest[l],
        ) by {
            assert(rest[k] == cuts[k + 1] && rest[l] == cuts[l + 1]);
            assert(is_next(source, rule, cuts[k + 1], cuts[l + 1]));
        }
        assert forall|k: int| 0 <= k < rest.len() - 1 implies 0 <= #[trigger] rest[k]
            < source.len() by {
            assert(rest[k] == cuts[k + 1]);
        }
        law_strings_end_at_the_first_bare_delimiter(source, rule, rest);
    }
}

/// Of the string rules the first whose delimiter stands at a place counts.
pub proof fn law_the_first_string_rule_counts(
    source: Seq<u8>,
    rules: Seq<StringRuleView>,
    i: int,
    k: int,
)
    ensures
        (0 <= k < rules.len() && bytes_at(source, encode_utf8(rules[k].delim), i) && forall|j: int|
            0 <= j < k ==> !bytes_at(source, encode_utf8((#[trigger] rules[j]).delim), i))
            ==> string_at(source, rules, i) == Some(rules[k]),
        (forall|j: int|
            0 <= j < rules.len() ==> !bytes_at(source, encode_utf8((#[trigger] rules[j]).delim), i))
            ==> string_at(source, rules, i) is None,
    decreases rules.len(),
{
    if rules.len() > 0 {
        let front = rules.drop_last();
        law_the_first_string_rule_counts(source, front, i, k);
        assert(rules[rules.len() - 1] == rules.last());
        if 0 <= k < rules.len() && (forall|j: int|
            0 <= j < k ==> !bytes_at(source, encode_utf8((#[trigger] rules[j]).delim), i)) {
            assert forall|j: int| 0 <= j < k && j < front.len() implies !bytes_at(
                source,
                encode_utf8((#[trigger] front[j]).delim),
                i,
            ) by {
                assert(front[j] == rules[j]);
            }
            if k < front.len() {
                assert(front[k] == rules[k]);
            }
        }
        if forall|j: int|
            0 <= j < rules.len() ==> !bytes_at(source, encode_utf8((#[trigger] rules[j]).delim), i) {
            assert forall|j: int| 0 <= j < front.len() implies !bytes_at(
                source,
                encode_utf8((#[trigger] front[j]).delim),
                i,
            ) by {
                assert(front[j] == rules[j]);
            }
        }
    }
}

/// Whether a line comment of a profile starts at a place.
pub open spec fn line_comment_at(source: Seq<u8>, cfg: LexicalView, i: int) -> bool {
    cfg.line_comment matches Some(token) && bytes_at(source, encode_utf8(token), i)
}

/// Whether a block comment of a profile starts at a place.
pub open spec fn block_comment_at(source: Seq<u8>, cfg: LexicalView, i: int) -> bool {
    cfg.block_comment matches Some((open, close)) && bytes_at(source, encode_utf8(open), i)
}

/// The bytes of a line comment, from its token to the end of the line, are
/// comment, whatever else starts in them.
pub proof fn law_a_line_comment_is_comment(
    source: Seq<u8>,
    cfg: LexicalView,
    i: int,
    end: int,
    rest: Seq<State>,
)
    requires
        0 <= i < end <= source.len(),
        line_comment_at(source, cfg, i),
        forall|k: int| i <= k < end ==> #[trigger] source[k] != 10u8,
        end < source.len() ==> source[end] == 10u8,
        states_from(source, cfg, end) == Ok::<Seq<State>, (int, Seq<char>)>(rest),
    ensures
        states_from(source, cfg, i) == Ok::<Seq<State>, (int, Seq<char>)>(
            Seq::new((end - i) as nat, |k: int| State::Comment) + rest,
        ),
{
    law_line_comments_end_with_the_line(source, i);
    let found = comment_end(source, i);
    assert(found == end) by {
        if found < end {
            assert(source[found] != 10u8);
        }
        if end < found {
            assert(source[end] != 10u8);
        }
    }
    assert(all_in(State::Comment, end - i) =~= Seq::new((end - i) as nat, |k: int| State::Comment));
}

/// The bytes of a block comment, from its opening token to the end of the first
/// closing token behind that, are comment; without such a token the scan fails
/// at the start of the comment.
pub proof fn law_a_block_comment_is_comment(
    source: Seq<u8>,
    cfg: LexicalView,
    open: Seq<char>,
    close: Seq<char>,
    i: int,
    at: int,
    rest: Seq<State>,
)
    requires
        0 <= i < source.len(),
        cfg.block_comment == Some((open, close)),
        encode_utf8(open).len() > 0,
        encode_utf8(close).len() > 0,
        !line_comment_at(source, cfg, i),
        bytes_at(source, encode_utf8(open), i),
    ensures
        (i + encode_utf8(open).len() <= at && bytes_at(source, encode_utf8(close), at) && (forall|
            k: int,
        |
            i + encode_utf8(open).len() <= k < at ==> !#[trigger] bytes_at(
                source,
                encode_utf8(close),
                k,
            )) && states_from(source, cfg, at + encode_utf8(close).len()) == Ok::<
            Seq<State>,
            (int, Seq<char>),
        >(rest)) ==> states_from(source, cfg, i) == Ok::<Seq<State>, (int, Seq<char>)>(
            Seq::new((at + encode_utf8(close).len() - i) as nat, |k: int| State::Comment) + rest,
        ),
        (forall|k: int|
            i + encode_utf8(open).len() <= k ==> !#[trigger] bytes_at(
                source,
                encode_utf8(close),
                k,
            )) ==> states_from(source, cfg, i) == Err::<Seq<State>, (int, Seq<char>)>(
            (i, "unterminated block comment"@),
        ),
{
    let from = i + encode_utf8(open).len();
    law_the_first_closing_token_counts(source, encode_utf8(close), from);
    if from <= at && bytes_at(source, encode_utf8(close), at) && (forall|k: int|
        from <= k < at ==> !#[trigger] bytes_at(source, encode_utf8(close), k)) {
        match next_token(source, encode_utf8(close), from) {
            Some(found) => {
                assert(!(found < at));
                assert(!(at < found));
            },
            None => {},
        }
        let end = at + encode_utf8(close).len();
        assert(all_in(State::Comment, end - i) =~= Seq::new(
            (end - i) as nat,
            |k: int| State::Comment,
        ));
    }
}

/// The bytes of a string, from its opening delimiter to the end of its closing
/// one, are string, whatever else starts in them; a string without an end
/// fails the scan where it starts.
pub proof fn law_a_string_is_string(
    source: Seq<u8>,
    cfg: LexicalView,
    rule: StringRuleView,
    i: int,
    rest: Seq<State>,
)
    requires
        0 <= i < source.len(),
        encode_utf8(rule.delim).len() > 0,
        !line_comment_at(source, cfg, i),
        !block_comment_at(source, cfg, i),
        string_at(source, cfg.strings, i) == Some(rule),
        bytes_at(source, encode_utf8(rule.delim), i),
    ensures
        match string_end(source, rule, i + encode_utf8(rule.delim).len()) {
            Some(end) => states_from(source, cfg, end) == Ok::<Seq<State>, (int, Seq<char>)>(rest)
                ==> states_from(source, cfg, i) == Ok::<Seq<State>, (int, Seq<char>)>(
                Seq::new((end - i) as nat, |k: int| State::Str) + rest,
            ),
            None => states_from(source, cfg, i) == Err::<Seq<State>, (int, Seq<char>)>(
                (i, "unterminated string"@),
            ),
        },
{
    lemma_string_end(source, rule, i + encode_utf8(rule.delim).len());
    match string_end(source, rule, i + encode_utf8(rule.delim).len()) {
        Some(end) => {
            assert(all_in(State::Str, end - i) =~= Seq::new((end - i) as nat, |k: int| State::Str));
        },
        None => {},
    }
}

/// A byte at which no comment and no string starts is code, and the scan goes
/// on behind it.
pub proof fn law_anything_else_is_code(
    source: Seq<u8>,
    cfg: LexicalView,
    i: int,
    rest: Seq<State>,
)
    requires
        0 <= i < source.len(),
        !line_comment_at(source, cfg, i),
        !block_comment_at(source, cfg, i),
        forall|j: int|
            0 <= j < cfg.strings.len() ==> !bytes_at(
                source,
                encode_utf8((#[trigger] cfg.strings[j]).delim),
                i,
            ),
        states_from(source, cfg, i + 1) == Ok::<Seq<State>, (int, Seq<char>)>(rest),
    ensures
        states_from(source, cfg, i) == Ok::<Seq<State>, (int, Seq<char>)>(
            seq![State::Code] + rest,
        ),
        states_from(source, cfg, source.len() as int) == Ok::<Seq<State>, (int, Seq<char>)>(
            Seq::empty(),
        ),
{
    law_the_first_string_rule_counts(source, cfg.strings, i, 0);
    assert(all_in(State::Code, 1) =~= seq![State::Code]);
}

/// A character in a comment becomes spaces, as many as it has bytes; any other
/// stays.
pub proof fn law_only_comments_are_blanked(s: Seq<char>, c: char, states: Seq<State>)
    ensures
        blanked(Seq::empty(), states) == Seq::<char>::empty(),
        ({
            let at = encode_utf8(s).len() as int;
            at < states.len() ==> blanked(s.push(c), states) == blanked(s, states) + if states[at]
                == State::Comment {
                Seq::new(encode_utf8(seq![c]).len(), |i: int| ' ')
            } else {
                seq![c]
            }
        }),
{
    assert(s.push(c).drop_last() =~= s);
    lemma_encode_push(Seq::empty(), c);
    assert(Seq::<char>::empty().push(c) =~= seq![c]);
    assert(encode_utf8(seq![c]) =~= vstd::utf8::encode_scalar(c as u32));
}

/// An opening bracket belongs to the closer of the first pair that it opens.
pub proof fn law_the_first_pair_of_an_opener_counts(pairs: Seq<(u8, u8)>, b: u8, k: int)
    ensures
        (0 <= k < pairs.len() && pairs[k].0 == b && forall|j: int|
            0 <= j < k ==> (#[trigger] pairs[j]).0 != b) ==> closer_of(pairs, b) == Some(
            pairs[k].1,
        ),
        (forall|j: int| 0 <= j < pairs.len() ==> (#[trigger] pairs[j]).0 != b) ==> closer_of(
            pairs,
            b,
        ) is None,
    decreases pairs.len(),
{
    if pairs.len() > 0 {
        let front = pairs.drop_last();
        law_the_first_pair_of_an_opener_counts(front, b, k);
        assert(pairs[pairs.len() - 1] == pairs.last());
        assert(forall|j: int| 0 <= j < front.len() ==> #[trigger] front[j] == pairs[j]);
        if 0 <= k < front.len() {
            assert(front[k] == pairs[k]);
        }
    }
}

proof fn lemma_open_pairs(source: Seq<u8>, states: Seq<State>, pairs: Seq<(u8, u8)>, n: int)
    requires
        0 <= n <= source.len(),
    ensures
        brackets_of(source, states, pairs, n) matches Ok(found) ==> forall|k: int|
            0 <= k < found.open.len() ==> closer_of(pairs, source[(#[trigger] found.open[k]).1])
                == Some(found.open[k].0) && states[found.open[k].1] == State::Code,
    decreases n,
{
    if n > 0 {
        lemma_open_pairs(source, states, pairs, n - 1);
    }
}

proof fn lemma_closed_pairs(
    source: Seq<u8>,
    states: Seq<State>,
    pairs: Seq<(u8, u8)>,
    n: int,
    k: int,
)
    requires
        0 <= n <= source.len(),
        brackets_of(source, states, pairs, n) is Ok,
        0 <= k < source.len(),
        brackets_of(source, states, pairs, n)->Ok_0.closers[k] is Some,
    ensures
        ({
            let at = brackets_of(source, states, pairs, n)->Ok_0.closers[k]->0;
            &&& 0 <= at < n
            &&& closer_of(pairs, source[k]) == Some(source[at])
            &&& states[k] == State::Code
            &&& states[at] == State::Code
        }),
    decreases n,
{
    if n > 0 {
        lemma_brackets_nest(source, states, pairs, n - 1);
        lemma_open_pairs(source, states, pairs, n - 1);
        let before = brackets_of(source, states, pairs, n - 1)->Ok_0;
        if before.closers[k] is Some {
            lemma_closed_pairs(source, states, pairs, n - 1, k);
            if before.open.len() > 0 {
                assert(before.closers[before.open[before.open.len() - 1].1] is None);
            }
        } else {
            assert(before.open[before.open.len() - 1].1 == k);
        }
    } else {
        assert(brackets_of(source, states, pairs, n)->Ok_0.closers[k] is None);
    }
}

/// What closes a bracket is the closer that belongs to it, and both are code.
pub proof fn law_brackets_are_closed_by_their_own(
    source: Seq<u8>,
    states: Seq<State>,
    pairs: Seq<(u8, u8)>,
    k: int,
    at: int,
)
    requires
        closers_of(source, states, pairs) is Ok,
        0 <= k < source.len(),
        closers_of(source, states, pairs)->Ok_0[k] == Some(at),
    ensures
        k < at < source.len(),
        closer_of(pairs, source[k]) == Some(source[at]),
        states[k] == State::Code,
        states[at] == State::Code,
{
    lemma_brackets_nest(source, states, pairs, source.len() as int);
    let found = brackets_of(source, states, pairs, source.len() as int)->Ok_0;
    assert(found.closers[k] is Some);
    lemma_closed_pairs(source, states, pairs, source.len() as int, k);
}

/// The span bracket of an opener is the first opening bracket of code in the
/// match.
pub proof fn law_the_first_bracket_of_code_counts(
    bytes: Seq<u8>,
    states: Seq<State>,
    pairs: Seq<(u8, u8)>,
    from: int,
    to: int,
)
    requires
        0 <= from,
        to <= states.len(),
    ensures
        match first_bracket(bytes, states, pairs, from, to) {
            Some(at) => {
                &&& from <= at < to
                &&& states[at] == State::Code
                &&& closer_of(pairs, bytes[at]) is Some
                &&& forall|k: int|
                    from <= k < at ==> states[k] != State::Code || closer_of(
                        pairs,
                        #[trigger] bytes[k],
                    ) is None
            },
            None => forall|k: int|
                from <= k < to ==> states[k] != State::Code || closer_of(
                    pairs,
                    #[trigger] bytes[k],
                ) is None,
        },
    decreases to - from,
{
    if from < to && !(states[from] == State::Code && closer_of(pairs, bytes[from]) is Some) {
        law_the_first_bracket_of_code_counts(bytes, states, pairs, from + 1, to);
    }
}

/// A match whose keyword is code and whose title stands as it should is a
/// definition: of the opener's kind, titled by the text that the name spans, on
/// the line of the keyword, from the keyword to the end of the closer of the
/// first bracket of the match. A match whose keyword stands in a comment or a
/// string, or whose title does not stand as it should, is none.
pub proof fn law_a_match_is_a_definition_or_a_decoy(
    scan: Scan,
    kw: int,
    name: int,
    groups: Seq<Option<(usize, usize)>>,
    whole: (usize, usize),
    keyword: (usize, usize),
    named: (usize, usize),
    before: Seq<char>,
    title: Seq<char>,
    after: Seq<char>,
    open: int,
    close: int,
)
    requires
        scan.source == before + title + after,
        groups[0] == Some(whole),
        groups[kw] == Some(keyword),
        groups[name] == Some(named),
        named.0 == encode_utf8(before).len(),
        named.1 == encode_utf8(before + title).len(),
        keyword.0 <= whole.1 <= scan.states.len(),
        keyword.0 < scan.states.len(),
        named.0 < scan.states.len(),
    ensures
        ({
            let fits = scan.states[keyword.0 as int] == State::Code && scan.states[named.0 as int]
                == (if scan.syntax == NameSyntax::JsString {
                State::Str
            } else {
                State::Code
            });
            let bytes = encode_utf8(scan.source);
            &&& !fits ==> step_of(scan, kw, name, groups) == (StepView::Decoy {
                start: whole.0 as int,
            })
            &&& fits && keyword.0 <= open < whole.1 && scan.states[open] == State::Code
                && closer_of(scan.pairs, bytes[open]) is Some && (forall|k: int|
                keyword.0 <= k < open ==> scan.states[k] != State::Code || closer_of(
                    scan.pairs,
                    #[trigger] bytes[k],
                ) is None) && scan.closers[open] == Some(close) && 0 <= close ==> step_of(
                scan,
                kw,
                name,
                groups,
            ) == (StepView::Found {
                capture: CaptureView {
                    kind: scan.kind,
                    name: decoded(scan.syntax, title),
                    line: line_at(bytes, keyword.0 as int),
                    start: keyword.0 as nat,
                    end: (close + 1) as nat,
                },
                end: whole.1 as int,
            })
        }),
{
    let bytes = encode_utf8(scan.source);
    law_offsets_give_the_part_back(before, title, after);
    law_the_first_bracket_of_code_counts(
        bytes,
        scan.states,
        scan.pairs,
        keyword.0 as int,
        whole.1 as int,
    );
    let found = first_bracket(bytes, scan.states, scan.pairs, keyword.0 as int, whole.1 as int);
    if keyword.0 <= open < whole.1 && scan.states[open] == State::Code && closer_of(
        scan.pairs,
        bytes[open],
    ) is Some && (forall|k: int|
        keyword.0 <= k < open ==> scan.states[k] != State::Code || closer_of(
            scan.pairs,
            #[trigger] bytes[k],
        ) is None) {
        match found {
            Some(at) => {
                assert(!(at < open)) by {
                    if at < open {
                        assert(closer_of(scan.pairs, bytes[at]) is Some);
                    }
                }
                assert(!(open < at)) by {
                    if open < at {
                        assert(closer_of(scan.pairs, bytes[open]) is Some);
                    }
                }
            },
            None => {
                assert(closer_of(scan.pairs, bytes[open]) is Some);
            },
        }
    }
}

/// The search for an opener goes on behind a definition, and one byte behind
/// the start of a decoy, so that what a decoy overlaps is not lost; it ends
/// where the pattern matches no more.
pub proof fn law_the_search_goes_on_behind_a_match(
    scan: Scan,
    kw: int,
    name: int,
    at: int,
    groups: Seq<Option<(usize, usize)>>,
)
    requires
        0 <= at <= encode_utf8(scan.haystack).len(),
    ensures
        regex_captures(scan.pattern, scan.haystack, at as nat) is None ==> collected_from(
            scan,
            kw,
            name,
            at,
        ) == Ok::<Seq<CaptureView>, Seq<char>>(Seq::empty()),
        regex_captures(scan.pattern, scan.haystack, at as nat) == Some(groups) ==> match step_of(
            scan,
            kw,
            name,
            groups,
        ) {
            StepView::Fault { message } => collected_from(scan, kw, name, at) == Err::<
                Seq<CaptureView>,
                Seq<char>,
            >(message),
            StepView::Decoy { start } => at <= start <= encode_utf8(scan.haystack).len()
                ==> collected_from(scan, kw, name, at) == collected_from(scan, kw, name, start + 1),
            StepView::Found { capture, end } => at < end <= encode_utf8(scan.haystack).len() ==> (
            collected_from(scan, kw, name, end) matches Ok(rest) ==> collected_from(
                scan,
                kw,
                name,
                at,
            ) == Ok::<Seq<CaptureView>, Seq<char>>(seq![capture] + rest)),
        },
{
}

/// Whether a byte of code that is no white space stands in a span.
pub open spec fn has_code(bytes: Seq<u8>, states: Seq<State>, from: int, to: int) -> bool {
    exists|k: int|
        from <= k < to && states[k] == State::Code && !is_blank(#[trigger] bytes[k])
}

/// What counts of a span is its first byte of code that is no white space.
pub proof fn law_the_first_byte_of_code_counts(
    bytes: Seq<u8>,
    states: Seq<State>,
    from: int,
    to: int,
)
    requires
        0 <= from,
        to <= states.len(),
    ensures
        match first_code(bytes, states, from, to) {
            Some(at) => {
                &&& from <= at < to
                &&& states[at] == State::Code
                &&& !is_blank(bytes[at])
                &&& !has_code(bytes, states, from, at)
            },
            None => !has_code(bytes, states, from, to),
        },
    decreases to - from,
{
    if from < to && !(states[from] == State::Code && !is_blank(bytes[from])) {
        law_the_first_byte_of_code_counts(bytes, states, from + 1, to);
        match first_code(bytes, states, from, to) {
            Some(at) => {
                if has_code(bytes, states, from, at) {
                    let k = choose|k: int|
                        from <= k < at && states[k] == State::Code && !is_blank(
                            #[trigger] bytes[k],
                        );
                    assert(k > from);
                    assert(has_code(bytes, states, from + 1, at));
                }
            },
            None => {
                if has_code(bytes, states, from, to) {
                    let k = choose|k: int|
                        from <= k < to && states[k] == State::Code && !is_blank(
                            #[trigger] bytes[k],
                        );
                    assert(k > from);
                    assert(has_code(bytes, states, from + 1, to));
                }
            },
        }
    }
}

/// A line feed, a tab, a form feed, a carriage return and a space are white
/// space; no other byte is.
pub proof fn law_blank_bytes(b: u8)
    ensures
        is_blank(b) <==> (b == '\t' as u8 || b == '\n' as u8 || b == '\r' as u8 || b == ' ' as u8
            || b == 0x0c),
{
}

/// How often a line stands in a list.
pub open spec fn times(lines: Seq<UnsupportedView>, line: nat) -> nat
    decreases lines.len(),
{
    if lines.len() == 0 {
        0
    } else {
        times(lines.drop_first(), line) + if lines[0].line == line {
            1nat
        } else {
            0nat
        }
    }
}

proof fn lemma_times_push(lines: Seq<UnsupportedView>, last: UnsupportedView, line: nat)
    ensures
        times(lines.push(last), line) == times(lines, line) + if last.line == line {
            1nat
        } else {
            0nat
        },
    decreases lines.len(),
{
    if lines.len() > 0 {
        lemma_times_push(lines.drop_first(), last, line);
        assert(lines.push(last).drop_first() =~= lines.drop_first().push(last));
    } else {
        assert(lines.push(last).drop_first() =~= lines);
        assert(times(lines, line) == 0);
    }
}

proof fn lemma_insert_line(lines: Seq<UnsupportedView>, new: UnsupportedView)
    requires
        forall|i: int, j: int|
            #![trigger lines[i], lines[j]]
            0 <= i < j < lines.len() ==> lines[i].line <= lines[j].line,
    ensures
        ({
            let out = insert_line(lines, new);
            &&& forall|i: int, j: int|
                #![trigger out[i], out[j]]
                0 <= i < j < out.len() ==> out[i].line <= out[j].line
            &&& forall|line: nat| #[trigger]
                times(out, line) == times(lines, line) + (if new.line == line {
                    1nat
                } else {
                    0nat
                })
            &&& forall|i: int, bound: nat|
                #![trigger out[i], max_line(bound)]
                0 <= i < out.len() && new.line <= bound && (lines.len() > 0 ==> lines.last().line
                    <= bound) ==> out[i].line <= max_line(bound)
        }),
    decreases lines.len(),
{
    let out = insert_line(lines, new);
    if lines.len() > 0 && lines.last().line > new.line {
        let front = lines.drop_last();
        lemma_insert_line(front, new);
        let inner = insert_line(front, new);
        assert(inner.push(lines.last()) =~= out);
        assert(front.push(lines.last()) =~= lines);
        assert forall|line: nat| #[trigger] times(out, line) == times(lines, line) + (if new.line
            == line {
            1nat
        } else {
            0nat
        }) by {
            lemma_times_push(inner, lines.last(), line);
            lemma_times_push(front, lines.last(), line);
        }
        let top = lines.last().line;
        assert(max_line(top) == top);
        if front.len() > 0 {
            assert(lines[lines.len() - 2] == front.last());
            assert(lines[lines.len() - 1] == lines.last());
        }
        assert forall|i: int, j: int|
            #![trigger out[i], out[j]]
            0 <= i < j < out.len() implies out[i].line <= out[j].line by {
            assert(out[i] == inner[i]);
            if j < inner.len() {
                assert(out[j] == inner[j]);
            } else {
                assert(inner[i].line <= max_line(top));
            }
        }
        assert forall|i: int, bound: nat|
            #![trigger out[i], max_line(bound)]
            0 <= i < out.len() && new.line <= bound && (lines.len() > 0 ==> lines.last().line
                <= bound) implies out[i].line <= max_line(bound) by {
            if i < inner.len() {
                assert(out[i] == inner[i]);
                assert(inner[i].line <= max_line(top));
            }
        }
    } else {
        assert forall|line: nat| #[trigger] times(out, line) == times(lines, line) + (if new.line
            == line {
            1nat
        } else {
            0nat
        }) by {
            lemma_times_push(lines, new, line);
        }
        assert forall|i: int| 0 <= i < lines.len() implies (#[trigger] lines[i]).line
            <= lines.last().line by {
            if i < lines.len() - 1 {
                assert(lines[i].line <= lines[lines.len() - 1].line);
            }
        }
        assert forall|i: int, j: int|
            #![trigger out[i], out[j]]
            0 <= i < j < out.len() implies out[i].line <= out[j].line by {
            assert(out[i] == lines[i]);
            if j < lines.len() {
                assert(out[j] == lines[j]);
            }
        }
        assert forall|i: int, bound: nat|
            #![trigger out[i], max_line(bound)]
            0 <= i < out.len() && new.line <= bound && (lines.len() > 0 ==> lines.last().line
                <= bound) implies out[i].line <= max_line(bound) by {
            if i < lines.len() {
                assert(out[i] == lines[i]);
            }
        }
    }
}

/// A bound on line numbers.
spec fn max_line(bound: nat) -> nat {
    bound
}

/// The unsupported lines of a source ascend. A match that contains code adds
/// the line on which its first byte of code stands, and a match without code
/// adds nothing.
pub proof fn law_unsupported_lines_ascend(
    bytes: Seq<u8>,
    states: Seq<State>,
    matches: Seq<(usize, usize)>,
    new: (usize, usize),
    line: nat,
)
    ensures
        forall|i: int, j: int|
            #![trigger unsupported_lines(bytes, states, matches)[i], unsupported_lines(bytes, states, matches)[j]]
            0 <= i < j < unsupported_lines(bytes, states, matches).len() ==> unsupported_lines(
                bytes,
                states,
                matches,
            )[i].line <= unsupported_lines(bytes, states, matches)[j].line,
        times(unsupported_lines(bytes, states, Seq::empty()), line) == 0,
        times(unsupported_lines(bytes, states, matches.push(new)), line) == times(
            unsupported_lines(bytes, states, matches),
            line,
        ) + if (first_code(bytes, states, new.0 as int, new.1 as int) matches Some(at) && line_at(
            bytes,
            at,
        ) == line) {
            1nat
        } else {
            0nat
        },
    decreases matches.len(),
{
    if matches.len() > 0 {
        let front = matches.drop_last();
        law_unsupported_lines_ascend(bytes, states, front, new, line);
        let before = unsupported_lines(bytes, states, front);
        match first_code(bytes, states, matches.last().0 as int, matches.last().1 as int) {
            Some(at) => {
                lemma_insert_line(before, UnsupportedView { line: line_at(bytes, at) });
            },
            None => {},
        }
    }
    let all = unsupported_lines(bytes, states, matches);
    assert(matches.push(new).drop_last() =~= matches);
    match first_code(bytes, states, new.0 as int, new.1 as int) {
        Some(at) => {
            lemma_insert_line(all, UnsupportedView { line: line_at(bytes, at) });
        },
        None => {},
    }
}

/// What a source binds outside all brackets, in code on both sides, is a
/// binding of the two texts; what stands in a bracket, or in a comment or a
/// string, binds nothing.
pub proof fn law_bindings_stand_at_the_top_level(
    states: Seq<State>,
    closers: Seq<Option<int>>,
    name: (usize, usize),
    value: (usize, usize),
    source: Seq<char>,
    name_text: Seq<char>,
    value_text: Seq<char>,
)
    requires
        name.0 < states.len(),
        value.0 < states.len(),
        slice_between(source, name.0 as int, name.1 as int) == Some(name_text),
        slice_between(source, value.0 as int, value.1 as int) == Some(value_text),
    ensures
        binding_at(source, states, closers, Some(name), Some(value)) == if states[name.0 as int]
            == State::Code && states[value.0 as int] == State::Code && (forall|open: int|
            0 <= open < closers.len() && open < name.0 ==> (
            #[trigger] closers[open] matches Some(close) ==> close < name.0)) {
            Some((name_text, value_text))
        } else {
            None
        },
        binding_at(source, states, closers, None, Some(value)) is None,
        binding_at(source, states, closers, Some(name), None) is None,
{
    if forall|open: int|
        0 <= open < closers.len() && open < name.0 ==> (
        #[trigger] closers[open] matches Some(close) ==> close < name.0) {
        assert(is_top_level(closers, name.0 as int));
    } else {
        let open = choose|open: int|
            0 <= open < closers.len() && open < name.0 && !(
            #[trigger] closers[open] matches Some(close) ==> close < name.0);
        assert(closers[open] is Some);
        assert(!is_top_level(closers, name.0 as int));
    }
}

/// A profile is accepted exactly where its tokens are not empty, its line
/// comment does not start with a line break, its brackets are pairs of two
/// different bytes, at least one, and its openers are patterns with the groups
/// that they need.
pub proof fn law_profiles_are_accepted(cfg: LexicalView, known: Seq<Seq<char>>)
    ensures
        profile_fault(cfg, known) is None <==> {
            let named = with_names(cfg, known, Seq::empty());
            &&& cfg.line_comment matches Some(token) ==> token.len() > 0 && token[0] != '\n'
            &&& cfg.block_comment matches Some((open, close)) ==> open.len() > 0 && close.len() > 0
            &&& forall|i: int|
                0 <= i < cfg.strings.len() ==> (#[trigger] cfg.strings[i]).delim.len() > 0 && (
                cfg.strings[i].escape matches Some(token) ==> token.len() > 0)
            &&& cfg.nest.len() > 0
            &&& forall|i: int|
                0 <= i < cfg.nest.len() ==> encode_utf8((#[trigger] cfg.nest[i]).0).len() == 1
                    && encode_utf8(cfg.nest[i].1).len() == 1 && encode_utf8(cfg.nest[i].0)[0]
                    != encode_utf8(cfg.nest[i].1)[0]
            &&& is_opener(named.block, "kw"@, "name"@)
            &&& is_opener(named.test, "kw"@, "name"@)
            &&& named.unsupported matches Some(pattern) ==> regex_fault(pattern) is None
            &&& named.alias matches Some(pattern) ==> is_opener(pattern, "name"@, "value"@)
        },
{
    lemma_string_rules(cfg.strings);
    lemma_pairs(cfg.nest);
    let named = with_names(cfg, known, Seq::empty());
    lemma_group_is_named(regex_groups(named.block), "kw"@);
    lemma_group_is_named(regex_groups(named.block), "name"@);
    lemma_group_is_named(regex_groups(named.test), "kw"@);
    lemma_group_is_named(regex_groups(named.test), "name"@);
    if let Some(pattern) = named.alias {
        lemma_group_is_named(regex_groups(pattern), "name"@);
        lemma_group_is_named(regex_groups(pattern), "value"@);
    }
}

/// Whether a pattern compiles and has groups of two names.
pub open spec fn is_opener(pattern: Seq<char>, first: Seq<char>, second: Seq<char>) -> bool {
    &&& regex_fault(pattern) is None
    &&& regex_groups(pattern).contains(Some(first))
    &&& regex_groups(pattern).contains(Some(second))
}

proof fn lemma_group_is_named(groups: Seq<Option<Seq<char>>>, want: Seq<char>)
    ensures
        group_position(groups, want) is Some <==> groups.contains(Some(want)),
        group_position(groups, want) matches Some(i) ==> 0 <= i < groups.len() && groups[i] == Some(
            want,
        ),
    decreases groups.len(),
{
    if groups.len() > 0 {
        let front = groups.drop_last();
        lemma_group_is_named(front, want);
        if front.contains(Some(want)) {
            let i = choose|i: int| 0 <= i < front.len() && front[i] == Some(want);
            assert(groups[i] == Some(want));
        }
        if groups.contains(Some(want)) {
            let i = choose|i: int| 0 <= i < groups.len() && groups[i] == Some(want);
            if i < front.len() {
                assert(front[i] == groups[i]);
            }
        }
        if groups.last() == Some(want) {
            assert(groups[groups.len() - 1] == Some(want));
        }
    }
}

/// The group of a name is the first that has it.
pub proof fn law_the_first_group_of_a_name_counts(
    groups: Seq<Option<Seq<char>>>,
    want: Seq<char>,
    k: int,
)
    requires
        0 <= k < groups.len(),
        groups[k] == Some(want),
        forall|j: int| 0 <= j < k ==> #[trigger] groups[j] != Some(want),
    ensures
        group_position(groups, want) == Some(k),
    decreases groups.len(),
{
    let front = groups.drop_last();
    lemma_group_is_named(front, want);
    if k < front.len() {
        assert(forall|j: int| 0 <= j < k ==> #[trigger] front[j] == groups[j]);
        law_the_first_group_of_a_name_counts(front, want, k);
    } else {
        match group_position(front, want) {
            Some(i) => {
                assert(groups[i] == front[i]);
            },
            None => {},
        }
    }
}

proof fn lemma_string_rules(rules: Seq<StringRuleView>)
    ensures
        string_fault(rules) is None <==> forall|i: int|
            0 <= i < rules.len() ==> (#[trigger] rules[i]).delim.len() > 0 && (
            rules[i].escape matches Some(token) ==> token.len() > 0),
    decreases rules.len(),
{
    if rules.len() > 0 {
        let front = rules.drop_last();
        lemma_string_rules(front);
        assert(forall|i: int| 0 <= i < front.len() ==> #[trigger] front[i] == rules[i]);
        assert(rules[rules.len() - 1] == rules.last());
        if forall|i: int|
            0 <= i < front.len() ==> (#[trigger] front[i]).delim.len() > 0 && (
            front[i].escape matches Some(token) ==> token.len() > 0) {
            assert forall|i: int| 0 <= i < front.len() implies (#[trigger] rules[i]).delim.len() > 0
                && (rules[i].escape matches Some(token) ==> token.len() > 0) by {
                assert(front[i] == rules[i]);
            }
        }
    }
}

proof fn lemma_pairs(nest: Seq<(Seq<char>, Seq<char>)>)
    ensures
        pairs_of(nest) is Ok <==> forall|i: int|
            0 <= i < nest.len() ==> encode_utf8((#[trigger] nest[i]).0).len() == 1 && encode_utf8(
                nest[i].1,
            ).len() == 1 && encode_utf8(nest[i].0)[0] != encode_utf8(nest[i].1)[0],
        pairs_of(nest) matches Ok(pairs) ==> pairs.len() == nest.len() && forall|i: int|
            0 <= i < nest.len() ==> #[trigger] pairs[i] == (
                encode_utf8(nest[i].0)[0],
                encode_utf8(nest[i].1)[0],
            ),
    decreases nest.len(),
{
    if nest.len() > 0 {
        let front = nest.drop_last();
        lemma_pairs(front);
        assert(nest[nest.len() - 1] == nest.last());
        assert(forall|i: int| 0 <= i < front.len() ==> #[trigger] front[i] == nest[i]);
        if forall|i: int|
            0 <= i < nest.len() ==> encode_utf8((#[trigger] nest[i]).0).len() == 1 && encode_utf8(
                nest[i].1,
            ).len() == 1 && encode_utf8(nest[i].0)[0] != encode_utf8(nest[i].1)[0] {
            assert forall|i: int| 0 <= i < front.len() implies encode_utf8(
                (#[trigger] front[i]).0,
            ).len() == 1 && encode_utf8(front[i].1).len() == 1 && encode_utf8(front[i].0)[0]
                != encode_utf8(front[i].1)[0] by {
                assert(front[i] == nest[i]);
            }
        }
        if pairs_of(nest) is Ok {
            assert forall|i: int| 0 <= i < front.len() implies encode_utf8(
                (#[trigger] nest[i]).0,
            ).len() == 1 && encode_utf8(nest[i].1).len() == 1 && encode_utf8(nest[i].0)[0]
                != encode_utf8(nest[i].1)[0] by {
                assert(front[i] == nest[i]);
            }
        }
    }
}

/// The brackets of a profile are the bytes of its pairs, opener first.
pub proof fn law_brackets_are_the_pairs_of_the_profile(
    nest: Seq<(Seq<char>, Seq<char>)>,
    pairs: Seq<(u8, u8)>,
    i: int,
)
    requires
        pairs_of(nest) == Ok::<Seq<(u8, u8)>, Seq<char>>(pairs),
        0 <= i < nest.len(),
    ensures
        pairs.len() == nest.len(),
        encode_utf8(nest[i].0) == seq![pairs[i].0],
        encode_utf8(nest[i].1) == seq![pairs[i].1],
{
    lemma_pairs(nest);
    assert(encode_utf8(nest[i].0) =~= seq![pairs[i].0]);
    assert(encode_utf8(nest[i].1) =~= seq![pairs[i].1]);
}

/// The structure that a lexical profile extracts is that of its definitions
/// without the blocks that hold no test.
pub proof fn lemma_lexical_structure(
    cfg: LexicalView,
    known: Seq<Seq<char>>,
    syntax: NameSyntax,
    source: Seq<char>,
)
    ensures
        extracted(cfg, known, syntax, source) matches Ok(found) ==> found.nodes == pruned(
            actual_of(found.source_nodes),
        ) && tests_are_leaves(found.source_nodes) && !found.has_parse_errors,
{
    match extracted(cfg, known, syntax, source) {
        Ok(found) => {
            let bytes = encode_utf8(source);
            let pairs = pairs_of(cfg.nest)->Ok_0;
            let states = masked(bytes, cfg)->Ok_0;
            let closers = closers_of(bytes, states, pairs)->Ok_0;
            let bindings = bindings_of(cfg.alias, source, states, closers)->Ok_0;
            let named = with_names(cfg, known, aliases_of(bindings, known));
            let blocks = collected(
                scan_for(ActualKind::Block, named.block, syntax, source, states, closers, pairs),
            )->Ok_0;
            let tests = collected(
                scan_for(ActualKind::Test, named.test, syntax, source, states, closers, pairs),
            )->Ok_0;
            law_tests_are_leaves(without_repeats(in_order(blocks + tests)));
        },
        Err(_) => {},
    }
}

/// Names are written into the three patterns that find definitions, and nothing
/// else of a profile changes.
pub proof fn law_names_are_written_into_the_openers(
    cfg: LexicalView,
    known: Seq<Seq<char>>,
    aliases: Seq<(Seq<char>, Seq<char>)>,
    pattern: Seq<char>,
)
    ensures
        ({
            let named = with_names(cfg, known, aliases);
            &&& named.block == expanded(Dialect::Pattern, cfg.block, known, aliases)
            &&& named.test == expanded(Dialect::Pattern, cfg.test, known, aliases)
            &&& cfg.unsupported == Some(pattern) ==> named.unsupported == Some(
                expanded(Dialect::Pattern, pattern, known, aliases),
            )
            &&& cfg.unsupported is None ==> named.unsupported is None
            &&& named.line_comment == cfg.line_comment
            &&& named.block_comment == cfg.block_comment
            &&& named.strings == cfg.strings
            &&& named.nest == cfg.nest
            &&& named.alias == cfg.alias
        }),
{
}

/// What a profile extracts are the definitions that its two openers find, blocks
/// and tests, in document order and each once, and the lines of what is
/// unsupported; the first opener that fails fails the extraction.
pub proof fn law_openers_become_an_extraction(
    cfg: LexicalView,
    syntax: NameSyntax,
    source: Seq<char>,
    states: Seq<State>,
    closers: Seq<Option<int>>,
    pairs: Seq<(u8, u8)>,
    blocks: Seq<CaptureView>,
    tests: Seq<CaptureView>,
    unsupported: Seq<UnsupportedView>,
)
    requires
        collected(
            scan_for(ActualKind::Block, cfg.block, syntax, source, states, closers, pairs),
        ) == Ok::<Seq<CaptureView>, Seq<char>>(blocks),
        collected(scan_for(ActualKind::Test, cfg.test, syntax, source, states, closers, pairs))
            == Ok::<Seq<CaptureView>, Seq<char>>(tests),
        unsupported_of(cfg.unsupported, source, states) == Ok::<Seq<UnsupportedView>, Seq<char>>(
            unsupported,
        ),
    ensures
        extracted_with(cfg, syntax, source, states, closers, pairs) matches Ok(found) && {
            &&& found.source_nodes == forest(without_repeats(in_order(blocks + tests)))
            &&& found.nodes == pruned(actual_of(found.source_nodes))
            &&& found.unsupported == unsupported
            &&& !found.has_parse_errors
        },
{
}

/// An opener is searched for in the source without its comments, from the start
/// on, for the groups of its keyword and its name.
pub proof fn law_openers_are_searched_from_the_start(
    kind: ActualKind,
    pattern: Seq<char>,
    syntax: NameSyntax,
    source: Seq<char>,
    states: Seq<State>,
    closers: Seq<Option<int>>,
    pairs: Seq<(u8, u8)>,
    kw: int,
    name: int,
)
    requires
        regex_fault(pattern) is None,
        group_position(regex_groups(pattern), "kw"@) == Some(kw),
        group_position(regex_groups(pattern), "name"@) == Some(name),
    ensures
        collected(scan_for(kind, pattern, syntax, source, states, closers, pairs))
            == collected_from(
            Scan {
                kind,
                pattern,
                syntax,
                source,
                haystack: blanked(source, states),
                states,
                closers,
                pairs,
            },
            kw,
            name,
            0,
        ),
{
}

/// What is unsupported is looked for in the source without its comments.
pub proof fn law_unsupported_constructs_are_matched(
    pattern: Seq<char>,
    source: Seq<char>,
    states: Seq<State>,
)
    ensures
        unsupported_of(None, source, states) == Ok::<Seq<UnsupportedView>, Seq<char>>(Seq::empty()),
        regex_fault(pattern) is None ==> unsupported_of(Some(pattern), source, states) == Ok::<
            Seq<UnsupportedView>,
            Seq<char>,
        >(
            unsupported_lines(
                encode_utf8(source),
                states,
                regex_matches(pattern, blanked(source, states)),
            ),
        ),
        regex_fault(pattern) is Some ==> unsupported_of(Some(pattern), source, states) is Err,
{
}

/// The search for bindings goes on behind a match that binds, and one byte
/// behind the start of one that does not or that is empty; it ends where the
/// pattern matches no more.
pub proof fn law_the_search_for_bindings_goes_on(
    pattern: Seq<char>,
    name: int,
    value: int,
    source: Seq<char>,
    states: Seq<State>,
    closers: Seq<Option<int>>,
    at: int,
    groups: Seq<Option<(usize, usize)>>,
    start: usize,
    end: usize,
)
    requires
        0 <= at <= start <= end <= encode_utf8(source).len(),
        groups[0] == Some((start, end)),
    ensures
        regex_captures(pattern, blanked(source, states), at as nat) is None ==> bound_from(
            pattern,
            name,
            value,
            source,
            states,
            closers,
            at,
        ) == Seq::<(Seq<char>, Seq<char>)>::empty(),
        regex_captures(pattern, blanked(source, states), at as nat) == Some(groups) ==> bound_from(
            pattern,
            name,
            value,
            source,
            states,
            closers,
            at,
        ) == match binding_at(source, states, closers, groups[name], groups[value]) {
            Some(binding) => seq![binding] + bound_from(
                pattern,
                name,
                value,
                source,
                states,
                closers,
                if start < end {
                    end as int
                } else {
                    start + 1
                },
            ),
            None => bound_from(pattern, name, value, source, states, closers, start + 1),
        },
{
}

} // verus!
