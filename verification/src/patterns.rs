//! Regular expressions, as the `regex` crate runs them.

use vstd::prelude::*;
use regex::Regex;

verus! {

use vstd::utf8::encode_utf8;

/// `regex::Regex`, a compiled pattern.
#[verifier::external_type_specification]
#[verifier::external_body]
pub struct ExRegex(Regex);

/// The characters of the pattern that a compiled regex holds
/// (`Regex::as_str`).
pub uninterp spec fn regex_text(re: Regex) -> Seq<char>;

/// The message of the error that `Regex::new` gives for a pattern; nothing
/// for a pattern that compiles.
pub uninterp spec fn regex_fault(pattern: Seq<char>) -> Option<Seq<char>>;

/// The names of a pattern's groups, by group number, as
/// `Regex::capture_names` lists them.
pub uninterp spec fn regex_groups(pattern: Seq<char>) -> Seq<Option<Seq<char>>>;

/// The byte spans of the groups, by group number, of the first match of a
/// pattern at or after a byte offset, as `Regex::captures_read_at` finds it.
pub uninterp spec fn regex_captures(pattern: Seq<char>, haystack: Seq<char>, at: nat) -> Option<
    Seq<Option<(usize, usize)>>,
>;

/// The byte spans of a pattern's successive matches, as `Regex::find_iter`
/// lists them.
pub uninterp spec fn regex_matches(pattern: Seq<char>, haystack: Seq<char>) -> Seq<(usize, usize)>;

/// Optional names, by their text.
pub open spec fn name_views(names: Seq<Option<String>>) -> Seq<Option<Seq<char>>> {
    names.map_values(|name: Option<String>| crate::text::opt_view(name))
}

/// `Regex::new`: compile a pattern. Whether it compiles, and the message if
/// it does not, depend on the pattern alone; the compiled regex holds it.
#[verifier::external_body]
pub(crate) fn compile(pattern: &str) -> (out: Result<Regex, String>)
    ensures
        match out {
            Ok(re) => regex_fault(pattern@) is None && regex_text(re) == pattern@,
            Err(message) => regex_fault(pattern@) == Some(message@),
        },
{
    Regex::new(pattern).map_err(|e| e.to_string())
}

/// `Regex::capture_names`: the name of each group, in order of the groups.
#[verifier::external_body]
pub(crate) fn group_names(re: &Regex) -> (out: Vec<Option<String>>)
    ensures
        name_views(out@) == regex_groups(regex_text(*re)),
{
    re.capture_names().map(|name| name.map(str::to_string)).collect()
}

/// `Regex::captures_read_at`: the first match at or after byte offset `at`,
/// as the span of each group. The search starts at `at`, a match is a span
/// of the haystack, and groups lie within the match; group 0 is the match.
/// There is one span for each group that `Regex::capture_names` lists.
#[verifier::external_body]
pub(crate) fn captures_at(re: &Regex, haystack: &str, at: usize) -> (out: Option<
    Vec<Option<(usize, usize)>>,
>)
    requires
        at <= encode_utf8(haystack@).len(),
    ensures
        match out {
            Some(groups) => regex_captures(regex_text(*re), haystack@, at as nat) == Some(groups@)
                && groups@.len() == regex_groups(regex_text(*re)).len() && groups@.len() > 0 && (
            groups@[0] matches Some(whole) && at <= whole.0 <= whole.1
                && whole.1 <= encode_utf8(haystack@).len() && forall|i: int|
                0 <= i < groups@.len() ==> (#[trigger] groups@[i] matches Some(span) ==> whole.0
                    <= span.0 <= span.1 <= whole.1)),
            None => regex_captures(regex_text(*re), haystack@, at as nat) is None,
        },
{
    let mut locations = re.capture_locations();
    re.captures_read_at(&mut locations, haystack, at)?;
    Some((0..locations.len()).map(|i| locations.get(i)).collect())
}

/// `Regex::find_iter`: the spans of the successive matches in a haystack.
#[verifier::external_body]
pub(crate) fn all_matches(re: &Regex, haystack: &str) -> (out: Vec<(usize, usize)>)
    ensures
        out@ == regex_matches(regex_text(*re), haystack@),
{
    re.find_iter(haystack).map(|m| (m.start(), m.end())).collect()
}

} // verus!
