//! Mapping between spec-tree node text and test identifiers in source code.
//!
//! Packs configure how a condition like "when the key is present" becomes a
//! block name (`when_the_key_is_present`, `describe("when the key is present")`)
//! and how an action like "it returns none" becomes a test name.

use vstd::prelude::*;
use crate::text::{
    chars_of, concat2, in_word, join, lower_ascii, text_between, to_lower, to_upper, trim,
};

verus! {

use crate::text::{
    ascii_lower, ascii_upper, is_ascii_text, is_ascii_word, is_white, is_word, joined,
    law_separators_stand_between, lower_text, opt_view, trimmed, trimmed_end, trimmed_start, upper_char, views,
};

/// How the words of a node's text are put together.
#[derive(Debug, Clone, Copy, PartialEq, Eq, Structural)]
pub enum Case {
    /// Keep the text as it is (trimmed). Used by block-style runners (vitest).
    Verbatim,
    /// `words_joined_like_this`.
    Snake,
    /// `wordsJoinedLikeThis`.
    Camel,
    /// `WordsJoinedLikeThis`.
    Pascal,
}

impl Default for Case {
    fn default() -> (out: Self)
        ensures
            out == Case::Verbatim,
    {
        Case::Verbatim
    }
}

/// How the text of a node becomes an identifier.
#[derive(Debug, Clone)]
pub struct NameRule {
    /// Prefix to strip from the node text before transforming, e.g. "it ".
    pub strip_prefix: Option<String>,
    /// Prefix to prepend to the transformed name, e.g. "test_".
    pub add_prefix: Option<String>,
    /// How the words are put together.
    pub case: Case,
}

/// The model of a [`NameRule`].
pub struct NameRuleView {
    pub strip_prefix: Option<Seq<char>>,
    pub add_prefix: Option<Seq<char>>,
    pub case: Case,
}

impl View for NameRule {
    type V = NameRuleView;

    open spec fn view(&self) -> NameRuleView {
        NameRuleView {
            strip_prefix: opt_view(self.strip_prefix),
            add_prefix: opt_view(self.add_prefix),
            case: self.case,
        }
    }
}

impl Default for NameRule {
    fn default() -> (out: Self)
        ensures
            out@ == (NameRuleView { strip_prefix: None, add_prefix: None, case: Case::Verbatim }),
    {
        NameRule { strip_prefix: None, add_prefix: None, case: Case::Verbatim }
    }
}

/// Whether `s` starts with `prefix`, letters of the ASCII alphabet compared
/// without regard to case.
pub open spec fn has_prefix_ci(s: Seq<char>, prefix: Seq<char>) -> bool {
    &&& prefix.len() <= s.len()
    &&& forall|i: int|
        0 <= i < prefix.len() ==> ascii_lower(#[trigger] s[i]) == ascii_lower(prefix[i])
}

/// The words of a text: its longest runs of word characters, in order.
pub open spec fn words_of(s: Seq<char>) -> Seq<Seq<char>>
    decreases s.len(),
{
    if s.len() == 0 {
        Seq::empty()
    } else {
        let before = words_of(s.drop_last());
        if !is_word(s.last()) {
            before
        } else if s.len() > 1 && is_word(s[s.len() - 2]) {
            before.drop_last().push(before.last().push(s.last()))
        } else {
            before.push(seq![s.last()])
        }
    }
}

/// A word with its first character in upper case and the rest in lower case.
pub open spec fn capitalized(w: Seq<char>) -> Seq<char> {
    if w.len() == 0 {
        Seq::empty()
    } else {
        upper_char(w[0]) + lower_text(w.drop_first())
    }
}

/// The words, each capitalized, one after the other.
pub open spec fn pascal_of(words: Seq<Seq<char>>) -> Seq<char>
    decreases words.len(),
{
    if words.len() == 0 {
        Seq::empty()
    } else {
        pascal_of(words.drop_last()) + capitalized(words.last())
    }
}

/// The first word in lower case and the others capitalized, one after the
/// other.
pub open spec fn camel_of(words: Seq<Seq<char>>) -> Seq<char>
    decreases words.len(),
{
    if words.len() == 0 {
        Seq::empty()
    } else if words.len() == 1 {
        lower_text(words[0])
    } else {
        camel_of(words.drop_last()) + capitalized(words.last())
    }
}

/// The words of a text put together.
pub open spec fn cased(case: Case, text: Seq<char>) -> Seq<char> {
    match case {
        Case::Verbatim => trimmed(text),
        Case::Snake => lower_text(joined(words_of(text), seq!['_'])),
        Case::Camel => camel_of(words_of(text)),
        Case::Pascal => pascal_of(words_of(text)),
    }
}

/// The identifier that a rule makes of a node's text. An identifier that
/// would start with a digit gets a leading `_`; verbatim titles may start
/// with anything.
pub open spec fn name_for(rule: NameRuleView, text: Seq<char>) -> Seq<char> {
    let whole = trimmed(text);
    let rest = match rule.strip_prefix {
        Some(prefix) => if has_prefix_ci(whole, prefix) {
            whole.skip(prefix.len() as int)
        } else {
            whole
        },
        None => whole,
    };
    let name = match rule.add_prefix {
        Some(prefix) => prefix + cased(rule.case, rest),
        None => cased(rule.case, rest),
    };
    if rule.case != Case::Verbatim && name.len() > 0 && '0' <= name[0] <= '9' {
        seq!['_'] + name
    } else {
        name
    }
}

fn strip_prefix_ci(s: &str, prefix: &str) -> (out: Option<String>)
    ensures
        match out {
            Some(rest) => has_prefix_ci(s@, prefix@) && rest@ == s@.skip(prefix@.len() as int),
            None => !has_prefix_ci(s@, prefix@),
        },
{
    let chars = chars_of(s);
    let part = chars_of(prefix);
    if part.len() > chars.len() {
        return None;
    }
    let mut i: usize = 0;
    while i < part.len()
        invariant
            i <= part@.len() <= chars@.len(),
            chars@ == s@,
            part@ == prefix@,
            forall|j: int|
                0 <= j < i ==> ascii_lower(#[trigger] chars@[j]) == ascii_lower(part@[j]),
        decreases part@.len() - i,
    {
        if lower_ascii(chars[i]) != lower_ascii(part[i]) {
            assert(ascii_lower(s@[i as int]) != ascii_lower(prefix@[i as int]));
            return None;
        }
        i += 1;
    }
    let rest = text_between(&chars, part.len(), chars.len());
    assert(rest@ =~= s@.skip(prefix@.len() as int));
    Some(rest)
}

/// Split node text into identifier-safe words, dropping punctuation.
fn words(t: &str) -> (out: Vec<String>)
    ensures
        views(out@) == words_of(t@),
{
    let chars = chars_of(t);
    let mut out: Vec<String> = Vec::new();
    let mut word = String::new();
    let mut inside = false;
    let mut i: usize = 0;
    assert(chars@.take(0) =~= Seq::empty());
    assert(views(out@) =~= words_of(chars@.take(0)));
    while i < chars.len()
        invariant
            i <= chars@.len(),
            inside == (i > 0 && is_word(chars@[i - 1])),
            inside ==> words_of(chars@.take(i as int)) == views(out@).push(word@),
            !inside ==> words_of(chars@.take(i as int)) == views(out@) && word@.len() == 0,
        decreases chars@.len() - i,
    {
        let c = chars[i];
        let ghost now = chars@.take(i + 1);
        let ghost before = views(out@);
        proof {
            assert(now.drop_last() =~= chars@.take(i as int));
            assert(before.push(word@).drop_last() =~= before);
            if i > 0 {
                assert(now[now.len() - 2] == chars@[i - 1]);
            }
        }
        if in_word(c) {
            let ghost was = word@;
            word.push(c);
            assert(!inside ==> word@ =~= seq![c]);
            assert(inside ==> before.push(was).last() == was);
            inside = true;
        } else if inside {
            let ghost done = before.push(word@);
            out.push(word);
            word = String::new();
            inside = false;
            assert(views(out@) =~= done);
        }
        i += 1;
    }
    assert(chars@.take(i as int) =~= t@);
    if inside {
        let ghost done = views(out@).push(word@);
        out.push(word);
        assert(views(out@) =~= done);
    }
    out
}

fn capitalize(w: &str) -> (out: String)
    ensures
        out@ == capitalized(w@),
{
    let chars = chars_of(w);
    if chars.len() == 0 {
        return String::new();
    }
    let rest = text_between(&chars, 1, chars.len());
    assert(rest@ =~= w@.drop_first());
    concat2(to_upper(chars[0]).as_str(), to_lower(rest.as_str()).as_str())
}

fn camel(words: &[String]) -> (out: String)
    ensures
        out@ == camel_of(views(words@)),
{
    let mut out = String::new();
    let mut i: usize = 0;
    while i < words.len()
        invariant
            i <= words@.len(),
            out@ == camel_of(views(words@).take(i as int)),
        decreases words@.len() - i,
    {
        assert(views(words@).take(i + 1).drop_last() =~= views(words@).take(i as int));
        if i == 0 {
            out = to_lower(words[i].as_str());
        } else {
            out.append(capitalize(words[i].as_str()).as_str());
        }
        i += 1;
    }
    assert(views(words@).take(i as int) =~= views(words@));
    out
}

fn pascal(words: &[String]) -> (out: String)
    ensures
        out@ == pascal_of(views(words@)),
{
    let mut out = String::new();
    let mut i: usize = 0;
    while i < words.len()
        invariant
            i <= words@.len(),
            out@ == pascal_of(views(words@).take(i as int)),
        decreases words@.len() - i,
    {
        assert(views(words@).take(i + 1).drop_last() =~= views(words@).take(i as int));
        out.append(capitalize(words[i].as_str()).as_str());
        i += 1;
    }
    assert(views(words@).take(i as int) =~= views(words@));
    out
}

impl NameRule {
    /// Apply this rule to spec node text, producing the expected identifier.
    pub fn apply(&self, text: &str) -> (out: String)
        ensures
            out@ == name_for(self@, text@),
    {
        let mut t = trim(text);
        if let Some(prefix) = &self.strip_prefix {
            if let Some(rest) = strip_prefix_ci(t.as_str(), prefix.as_str()) {
                t = rest;
            }
        }
        proof {
            reveal_strlit("_");
            assert("_"@ =~= seq!['_']);
        }
        let out = match self.case {
            Case::Verbatim => trim(t.as_str()),
            Case::Snake => to_lower(join(&words(t.as_str()), "_").as_str()),
            Case::Camel => camel(&words(t.as_str())),
            Case::Pascal => pascal(&words(t.as_str())),
        };
        let name = match &self.add_prefix {
            Some(prefix) => concat2(prefix.as_str(), out.as_str()),
            None => out,
        };
        if self.case != Case::Verbatim && !name.as_str().is_empty() {
            let first = name.as_str().get_char(0);
            if '0' <= first && first <= '9' {
                return concat2("_", name.as_str());
            }
        }
        name
    }
}

/// How the spec root line maps onto the test file.
#[derive(Debug, Clone, Copy, PartialEq, Eq, Structural)]
pub enum RootMapping {
    /// The root is the file itself; top-level spec nodes map to top-level
    /// blocks/tests in the file (Rust integration tests).
    File,
    /// The root must appear as a top-level block (a `describe` in vitest).
    Block,
}

impl Default for RootMapping {
    fn default() -> (out: Self)
        ensures
            out == RootMapping::File,
    {
        RootMapping::File
    }
}

/// How the nodes of a spec map onto a test file.
#[derive(Debug, Clone)]
pub struct Mapping {
    /// What the root line maps onto.
    pub root: RootMapping,
    /// Rule for condition nodes -> block names.
    pub block: NameRule,
    /// Rule for action nodes -> test names.
    pub test: NameRule,
    /// Block names that are structurally transparent: their children are
    /// treated as if they sat at the wrapper's level. Lets Rust's
    /// `#[cfg(test)] mod tests { ... }` wrapper exist without appearing in
    /// the spec tree.
    pub wrappers: Vec<String>,
}

/// The model of a [`Mapping`].
pub struct MappingView {
    pub root: RootMapping,
    pub block: NameRuleView,
    pub test: NameRuleView,
    pub wrappers: Seq<Seq<char>>,
}

impl View for Mapping {
    type V = MappingView;

    open spec fn view(&self) -> MappingView {
        MappingView {
            root: self.root,
            block: self.block@,
            test: self.test@,
            wrappers: views(self.wrappers@),
        }
    }
}

impl Default for Mapping {
    fn default() -> (out: Self)
        ensures
            out@.root == RootMapping::File,
            out@.block == (NameRuleView {
                strip_prefix: None,
                add_prefix: None,
                case: Case::Verbatim,
            }),
            out@.test == out@.block,
            out@.wrappers == Seq::<Seq<char>>::empty(),
    {
        let out = Mapping {
            root: RootMapping::File,
            block: NameRule::default(),
            test: NameRule::default(),
            wrappers: Vec::new(),
        };
        assert(views(out.wrappers@) =~= Seq::empty());
        out
    }
}

/// No identifier starts with a digit.
pub proof fn law_identifiers_start_with_no_digit(rule: NameRuleView, text: Seq<char>)
    requires
        rule.case != Case::Verbatim,
    ensures
        name_for(rule, text).len() > 0 ==> !('0' <= name_for(rule, text)[0] <= '9'),
{
}

/// Whether a text has no white space around it.
pub open spec fn is_trimmed(s: Seq<char>) -> bool {
    s.len() > 0 ==> !is_white(s[0]) && !is_white(s.last())
}

/// Taking white space off both ends leaves none there, and changes nothing
/// where there is none.
pub proof fn lemma_trimmed(s: Seq<char>)
    ensures
        is_trimmed(trimmed(s)),
        is_trimmed(s) ==> trimmed(s) == s,
{
    lemma_end_trimmed(s);
    lemma_start_trimmed(trimmed_end(s));
}

proof fn lemma_end_trimmed(s: Seq<char>)
    ensures
        trimmed_end(s).len() > 0 ==> !is_white(trimmed_end(s).last()),
    decreases s.len(),
{
    if s.len() > 0 && is_white(s.last()) {
        lemma_end_trimmed(s.drop_last());
    }
}

proof fn lemma_start_trimmed(s: Seq<char>)
    ensures
        trimmed_start(s).len() > 0 ==> !is_white(trimmed_start(s)[0]) && trimmed_start(s).last()
            == s.last(),
    decreases s.len(),
{
    if s.len() > 0 && is_white(s[0]) {
        lemma_start_trimmed(s.drop_first());
    }
}

/// Whether a text is made of ASCII letters, digits and underscores.
pub open spec fn is_identifier_text(s: Seq<char>) -> bool {
    forall|i: int| 0 <= i < s.len() ==> is_ascii_word(#[trigger] s[i]) || s[i] == '_'
}

proof fn lemma_identifier_concat(a: Seq<char>, b: Seq<char>)
    requires
        is_identifier_text(a),
        is_identifier_text(b),
    ensures
        is_identifier_text(a + b),
{
    assert forall|i: int| 0 <= i < (a + b).len() implies is_ascii_word(#[trigger] (a + b)[i]) || (a
        + b)[i] == '_' by {
        if i < a.len() {
            assert((a + b)[i] == a[i]);
        } else {
            assert((a + b)[i] == b[i - a.len()]);
        }
    }
}

proof fn lemma_words_ascii(s: Seq<char>, k: int)
    requires
        is_ascii_text(s),
        0 <= k < words_of(s).len(),
    ensures
        is_identifier_text(words_of(s)[k]),
    decreases s.len(),
{
    let rest = s.drop_last();
    assert forall|i: int| 0 <= i < rest.len() implies (#[trigger] rest[i] as u32) < 128 by {
        assert(rest[i] == s[i]);
    }
    assert((s[s.len() - 1] as u32) < 128);
    let before = words_of(rest);
    if k < before.len() {
        lemma_words_ascii(rest, k);
    }
    if is_word(s.last()) {
        if s.len() > 1 && is_word(s[s.len() - 2]) {
            lemma_word_open(rest);
            if k == before.len() - 1 {
                assert forall|i: int| 0 <= i < words_of(s)[k].len() implies is_ascii_word(
                    #[trigger] words_of(s)[k][i],
                ) || words_of(s)[k][i] == '_' by {
                    if i < before.last().len() {
                        assert(before[k][i] == words_of(s)[k][i]);
                    }
                }
            }
        }
    }
}

proof fn lemma_word_open(s: Seq<char>)
    requires
        s.len() > 0,
        is_word(s.last()),
    ensures
        words_of(s).len() > 0,
{
    if s.len() > 1 && is_word(s[s.len() - 2]) {
        assert(s.drop_last().last() == s[s.len() - 2]);
    }
}

proof fn lemma_lower_identifier(s: Seq<char>)
    requires
        is_identifier_text(s),
    ensures
        is_identifier_text(lower_text(s)),
{
    assert forall|i: int| 0 <= i < s.len() implies (#[trigger] s[i] as u32) < 128 by {}
    assert(is_ascii_text(s));
    assert forall|i: int| 0 <= i < lower_text(s).len() implies is_ascii_word(
        #[trigger] lower_text(s)[i],
    ) || lower_text(s)[i] == '_' by {
        assert(lower_text(s)[i] == ascii_lower(s[i]));
        assert(is_ascii_word(s[i]) || s[i] == '_');
    }
}

proof fn lemma_capitalized_identifier(w: Seq<char>)
    requires
        is_identifier_text(w),
    ensures
        is_identifier_text(capitalized(w)),
{
    if w.len() > 0 {
        let rest = w.drop_first();
        assert forall|i: int| 0 <= i < rest.len() implies is_ascii_word(#[trigger] rest[i])
            || rest[i] == '_' by {
            assert(rest[i] == w[i + 1]);
        }
        lemma_lower_identifier(rest);
        assert(is_ascii_word(w[0]) || w[0] == '_');
        let first = upper_char(w[0]);
        assert(first =~= seq![ascii_upper(w[0])]);
        assert(is_identifier_text(first));
        lemma_identifier_concat(first, lower_text(rest));
    }
}

proof fn lemma_parts_identifier(words: Seq<Seq<char>>)
    requires
        forall|k: int| 0 <= k < words.len() ==> is_identifier_text(#[trigger] words[k]),
    ensures
        is_identifier_text(joined(words, seq!['_'])),
        is_identifier_text(camel_of(words)),
        is_identifier_text(pascal_of(words)),
    decreases words.len(),
{
    if words.len() > 0 {
        let front = words.drop_last();
        assert forall|k: int| 0 <= k < front.len() implies is_identifier_text(
            #[trigger] front[k],
        ) by {
            assert(front[k] == words[k]);
        }
        lemma_parts_identifier(front);
        let last = words[words.len() - 1];
        lemma_capitalized_identifier(last);
        lemma_lower_identifier(words[0]);
        lemma_identifier_concat(pascal_of(front), capitalized(last));
        lemma_identifier_concat(camel_of(front), capitalized(last));
        assert(is_identifier_text(seq!['_']));
        lemma_identifier_concat(joined(front, seq!['_']), seq!['_']);
        lemma_identifier_concat(joined(front, seq!['_']) + seq!['_'], last);
    }
}

proof fn lemma_identifier_trimmed(s: Seq<char>)
    requires
        is_identifier_text(s),
    ensures
        is_trimmed(s),
{
    if s.len() > 0 {
        assert(is_ascii_word(s[0]) || s[0] == '_');
        assert(is_ascii_word(s[s.len() - 1]) || s[s.len() - 1] == '_');
    }
}

proof fn lemma_cased_trimmed(case: Case, text: Seq<char>)
    requires
        case == Case::Verbatim || is_ascii_text(text),
    ensures
        is_trimmed(cased(case, text)),
{
    if case == Case::Verbatim {
        lemma_trimmed(text);
    } else {
        let words = words_of(text);
        assert forall|k: int| 0 <= k < words.len() implies is_identifier_text(
            #[trigger] words[k],
        ) by {
            lemma_words_ascii(text, k);
        }
        lemma_parts_identifier(words);
        lemma_lower_identifier(joined(words, seq!['_']));
        lemma_identifier_trimmed(cased(case, text));
    }
}

/// A name has no white space around it, unless its prefix has: a title
/// whatever its text, an identifier where the text is ASCII.
pub proof fn law_names_are_trimmed(rule: NameRuleView, text: Seq<char>)
    requires
        rule.add_prefix matches Some(prefix) ==> is_trimmed(prefix),
        rule.case == Case::Verbatim || is_ascii_text(text),
    ensures
        trimmed(name_for(rule, text)) == name_for(rule, text),
{
    let whole = trimmed(text);
    let rest = match rule.strip_prefix {
        Some(prefix) => if has_prefix_ci(whole, prefix) {
            whole.skip(prefix.len() as int)
        } else {
            whole
        },
        None => whole,
    };
    if rule.case != Case::Verbatim {
        lemma_trimmed_part(text);
        assert forall|i: int| 0 <= i < rest.len() implies (#[trigger] rest[i] as u32) < 128 by {
            assert(whole.contains(rest[i]));
            let k = choose|k: int| 0 <= k < whole.len() && whole[k] == rest[i];
            assert((whole[k] as u32) < 128);
        }
    }
    let inner = cased(rule.case, rest);
    lemma_cased_trimmed(rule.case, rest);
    let name = match rule.add_prefix {
        Some(prefix) => prefix + inner,
        None => inner,
    };
    assert(is_trimmed(name)) by {
        if rule.add_prefix is Some {
            let prefix = rule.add_prefix->0;
            if prefix.len() == 0 {
                assert(name =~= inner);
            } else if inner.len() == 0 {
                assert(name =~= prefix);
            } else {
                assert(name[0] == prefix[0]);
                assert(name.last() == inner.last());
            }
        }
    }
    lemma_trimmed(name);
    lemma_trimmed(seq!['_'] + name);
}

proof fn lemma_trimmed_part(text: Seq<char>)
    requires
        is_ascii_text(text),
    ensures
        is_ascii_text(trimmed(text)),
{
    lemma_end_part(text);
    lemma_start_part(trimmed_end(text));
}

proof fn lemma_end_part(text: Seq<char>)
    requires
        is_ascii_text(text),
    ensures
        is_ascii_text(trimmed_end(text)),
    decreases text.len(),
{
    if text.len() > 0 && is_white(text.last()) {
        let rest = text.drop_last();
        assert forall|i: int| 0 <= i < rest.len() implies (#[trigger] rest[i] as u32) < 128 by {
            assert(rest[i] == text[i]);
        }
        lemma_end_part(rest);
    }
}

proof fn lemma_start_part(text: Seq<char>)
    requires
        is_ascii_text(text),
    ensures
        is_ascii_text(trimmed_start(text)),
    decreases text.len(),
{
    if text.len() > 0 && is_white(text[0]) {
        let rest = text.drop_first();
        assert forall|i: int| 0 <= i < rest.len() implies (#[trigger] rest[i] as u32) < 128 by {
            assert(rest[i] == text[i + 1]);
        }
        lemma_start_part(rest);
    }
}

proof fn lemma_words_apart(a: Seq<char>, sep: char, b: Seq<char>)
    requires
        !is_word(sep),
    ensures
        words_of(a + seq![sep] + b) == words_of(a) + words_of(b),
        b.len() > 0 && is_word(b.last()) ==> words_of(b).len() > 0,
    decreases b.len(),
{
    let s = a + seq![sep] + b;
    if b.len() == 0 {
        assert(s.drop_last() =~= a);
        assert(s.last() == sep);
        assert(words_of(a) + words_of(b) =~= words_of(a));
    } else {
        let front = b.drop_last();
        let c = b.last();
        lemma_words_apart(a, sep, front);
        assert(s.drop_last() =~= a + seq![sep] + front);
        assert(s.last() == c);
        if is_word(c) {
            if b.len() > 1 {
                assert(s[s.len() - 2] == b[b.len() - 2]);
                assert(front.last() == b[b.len() - 2]);
            } else {
                assert(s[s.len() - 2] == sep);
            }
            let before = words_of(a) + words_of(front);
            if b.len() > 1 && is_word(b[b.len() - 2]) {
                assert(before.last() == words_of(front).last());
                assert(before.drop_last() =~= words_of(a) + words_of(front).drop_last());
            }
        }
        assert(words_of(s) =~= words_of(a) + words_of(b));
    }
}

/// The words of a text are its runs of letters and digits, in their order:
/// anything else parts two words and is part of none.
pub proof fn law_words_are_runs_of_letters_and_digits(
    a: Seq<char>,
    sep: char,
    b: Seq<char>,
    word: Seq<char>,
)
    ensures
        words_of(Seq::empty()) == Seq::<Seq<char>>::empty(),
        !is_word(sep) ==> words_of(a + seq![sep] + b) == words_of(a) + words_of(b),
        word.len() > 0 && (forall|i: int| 0 <= i < word.len() ==> is_word(#[trigger] word[i]))
            ==> words_of(word) == seq![word],
    decreases word.len(),
{
    if !is_word(sep) {
        lemma_words_apart(a, sep, b);
    }
    if word.len() > 0 && (forall|i: int| 0 <= i < word.len() ==> is_word(#[trigger] word[i])) {
        let front = word.drop_last();
        assert(is_word(word[word.len() - 1]));
        if front.len() > 0 {
            assert forall|i: int| 0 <= i < front.len() implies is_word(#[trigger] front[i]) by {
                assert(front[i] == word[i]);
            }
            law_words_are_runs_of_letters_and_digits(a, sep, b, front);
            assert(is_word(word[word.len() - 2]));
            assert(front.push(word.last()) =~= word);
            assert(words_of(word) =~= seq![word]);
        } else {
            assert(words_of(front) =~= Seq::empty());
            assert(word =~= seq![word.last()]);
            assert(words_of(word) =~= seq![word]);
        }
    }
}

proof fn lemma_pascal_concat(a: Seq<Seq<char>>, b: Seq<Seq<char>>)
    ensures
        pascal_of(a + b) == pascal_of(a) + pascal_of(b),
        a.len() > 0 ==> camel_of(a + b) == camel_of(a) + pascal_of(b),
    decreases b.len(),
{
    if b.len() == 0 {
        assert(a + b =~= a);
        assert(pascal_of(a) + pascal_of(b) =~= pascal_of(a));
        assert(camel_of(a) + pascal_of(b) =~= camel_of(a));
    } else {
        lemma_pascal_concat(a, b.drop_last());
        assert((a + b).drop_last() =~= a + b.drop_last());
        assert((a + b).last() == b.last());
        assert(pascal_of(a + b) =~= pascal_of(a) + pascal_of(b));
        if a.len() > 0 {
            assert(camel_of(a + b) =~= camel_of(a) + pascal_of(b));
        }
    }
}

/// A case is applied word by word. A title stays as it is but for the white
/// space around it; the words of a snake-case name are in lower case with `_`
/// between them; those of the other two follow each other, each with a capital
/// first and small letters behind it, but for the first word of a camel-case
/// name, which is all in small letters.
pub proof fn law_cases_are_applied_word_by_word(
    a: Seq<char>,
    sep: char,
    b: Seq<char>,
    word: Seq<char>,
)
    requires
        !is_word(sep),
        words_of(a).len() > 0,
        words_of(b).len() > 0,
        word.len() > 0,
        forall|i: int| 0 <= i < word.len() ==> is_word(#[trigger] word[i]),
    ensures
        cased(Case::Verbatim, a) == trimmed(a),
        cased(Case::Snake, word) == lower_text(word),
        cased(Case::Snake, a + seq![sep] + b) == lower_text(
            joined(words_of(a), seq!['_']) + seq!['_'] + joined(words_of(b), seq!['_']),
        ),
        cased(Case::Pascal, word) == upper_char(word[0]) + lower_text(word.skip(1)),
        cased(Case::Pascal, a + seq![sep] + b) == cased(Case::Pascal, a) + cased(Case::Pascal, b),
        cased(Case::Camel, word) == lower_text(word),
        cased(Case::Camel, a + seq![sep] + b) == cased(Case::Camel, a) + cased(Case::Pascal, b),
{
    law_words_are_runs_of_letters_and_digits(a, sep, b, word);
    law_separators_stand_between(words_of(a), words_of(b), word, seq!['_']);
    lemma_pascal_concat(words_of(a), words_of(b));
    assert(seq![word].drop_last() =~= Seq::empty());
    assert(pascal_of(Seq::<Seq<char>>::empty()) =~= Seq::empty());
    assert(word.drop_first() =~= word.skip(1));
    assert(pascal_of(seq![word]) =~= capitalized(word));
}

/// A name is made in three steps. The prefix to strip goes where the text,
/// without the white space around it, starts with it in whatever ASCII case;
/// what is left is put into the case of the rule; the prefix to add stands
/// before that. An identifier that would start with a digit has `_` before it.
pub proof fn law_names_are_made_by_their_rule(
    rule: NameRuleView,
    text: Seq<char>,
    start: Seq<char>,
    rest: Seq<char>,
)
    requires
        trimmed(text) == start + rest,
        match rule.strip_prefix {
            None => start.len() == 0,
            Some(prefix) => if start.len() == 0 {
                prefix.len() == 0 || prefix.len() > rest.len() || exists|i: int|
                    0 <= i < prefix.len() && ascii_lower(#[trigger] rest[i]) != ascii_lower(
                        prefix[i],
                    )
            } else {
                start.len() == prefix.len() && forall|i: int|
                    0 <= i < start.len() ==> ascii_lower(#[trigger] start[i]) == ascii_lower(
                        prefix[i],
                    )
            },
        },
    ensures
        ({
            let plain = cased(rule.case, rest);
            let name = match rule.add_prefix {
                Some(prefix) => prefix + plain,
                None => plain,
            };
            name_for(rule, text) == if rule.case != Case::Verbatim && name.len() > 0 && '0'
                <= name[0] <= '9' {
                "_"@ + name
            } else {
                name
            }
        }),
{
    reveal_strlit("_");
    assert("_"@ =~= seq!['_']);
    let whole = start + rest;
    if let Some(prefix) = rule.strip_prefix {
        if start.len() == 0 {
            assert(whole =~= rest);
            assert(prefix.len() == 0 || !has_prefix_ci(whole, prefix));
            assert(whole.skip(0) =~= whole);
        } else {
            assert forall|i: int| 0 <= i < prefix.len() implies ascii_lower(#[trigger] whole[i])
                == ascii_lower(prefix[i]) by {
                assert(whole[i] == start[i]);
            }
            assert(has_prefix_ci(whole, prefix));
            assert(whole.skip(prefix.len() as int) =~= rest);
        }
    } else {
        assert(whole =~= rest);
    }
}

} // verus!
