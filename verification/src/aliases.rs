//! Aliases: names that a source binds to the functions that define tests.
//!
//! `const d = describe;` makes `d("suite", …)` a block like any other. A pack
//! names the functions that may be bound, and writes `{describe}` in its query
//! or its patterns where a call of `describe` counts under any of its names.
//! A query or a pattern of its own finds what the source binds; the names that
//! lead to a function of the pack are then written in, and extraction goes by
//! what results.

use vstd::prelude::*;
use crate::check::is_among;
use crate::text::{chars_of, concat3, in_word, owned, replace, same};

verus! {

use crate::pack::pair_views;
use crate::text::{is_word, replaced, views};

broadcast use vstd::string::group_string_axioms;

/// How many names may stand between an alias and the function that it leads
/// to. A longer chain is not resolved.
pub const MAX_LINKS: usize = 32;

/// The position of the first binding of a name.
pub open spec fn binding_of(bindings: Seq<(Seq<char>, Seq<char>)>, name: Seq<char>) -> Option<int>
    decreases bindings.len(),
{
    if bindings.len() == 0 {
        None
    } else {
        match binding_of(bindings.drop_last(), name) {
            Some(i) => Some(i),
            None => if bindings.last().0 == name {
                Some(bindings.len() - 1)
            } else {
                None
            },
        }
    }
}

/// The known function that a name leads to, through at most `links` other
/// names. A name that is bound more than once stands for what it was first
/// bound to.
pub open spec fn leads_to(
    bindings: Seq<(Seq<char>, Seq<char>)>,
    known: Seq<Seq<char>>,
    name: Seq<char>,
    links: nat,
) -> Option<Seq<char>>
    decreases links,
{
    match binding_of(bindings, name) {
        None => None,
        Some(i) => if known.contains(bindings[i].1) {
            Some(bindings[i].1)
        } else if links == 0 {
            None
        } else {
            leads_to(bindings, known, bindings[i].1, (links - 1) as nat)
        },
    }
}

/// The names among the first `n` bindings that lead to a known function, each
/// once and with that function, in the order in which they are bound.
pub open spec fn resolved_among(
    bindings: Seq<(Seq<char>, Seq<char>)>,
    known: Seq<Seq<char>>,
    n: int,
) -> Seq<(Seq<char>, Seq<char>)>
    decreases n,
{
    if n <= 0 || n > bindings.len() {
        Seq::empty()
    } else {
        let before = resolved_among(bindings, known, n - 1);
        let name = bindings[n - 1].0;
        match leads_to(bindings, known, name, MAX_LINKS as nat) {
            Some(function) if binding_of(bindings, name) == Some(n - 1) => before.push(
                (name, function),
            ),
            _ => before,
        }
    }
}

/// The names that lead to a known function, each once and with that function,
/// in the order in which they are bound.
pub open spec fn aliases_of(
    bindings: Seq<(Seq<char>, Seq<char>)>,
    known: Seq<Seq<char>>,
) -> Seq<(Seq<char>, Seq<char>)> {
    resolved_among(bindings, known, bindings.len() as int)
}

proof fn lemma_binding_of(bindings: Seq<(Seq<char>, Seq<char>)>, name: Seq<char>)
    ensures
        match binding_of(bindings, name) {
            Some(i) => 0 <= i < bindings.len() && bindings[i].0 == name && forall|j: int|
                0 <= j < i ==> (#[trigger] bindings[j]).0 != name,
            None => forall|j: int| 0 <= j < bindings.len() ==> (#[trigger] bindings[j]).0 != name,
        },
    decreases bindings.len(),
{
    if bindings.len() > 0 {
        let front = bindings.drop_last();
        lemma_binding_of(front, name);
        assert forall|j: int| 0 <= j < front.len() implies front[j] == bindings[j] by {}
        if binding_of(front, name) is None {
            assert forall|j: int| 0 <= j < front.len() implies (#[trigger] bindings[j]).0 != name by {
                assert(front[j].0 != name);
            }
        } else {
            let i = binding_of(front, name)->0;
            assert forall|j: int| 0 <= j < i implies (#[trigger] bindings[j]).0 != name by {
                assert(front[j].0 != name);
            }
        }
    }
}

proof fn lemma_resolved(
    bindings: Seq<(Seq<char>, Seq<char>)>,
    known: Seq<Seq<char>>,
    n: int,
    name: Seq<char>,
    function: Seq<char>,
)
    requires
        0 <= n <= bindings.len(),
    ensures
        resolved_among(bindings, known, n).contains((name, function)) <==> {
            &&& leads_to(bindings, known, name, MAX_LINKS as nat) == Some(function)
            &&& binding_of(bindings, name)->0 < n
        },
    decreases n,
{
    lemma_binding_of(bindings, name);
    if n > 0 {
        let before = resolved_among(bindings, known, n - 1);
        let all = resolved_among(bindings, known, n);
        let last = bindings[n - 1].0;
        lemma_resolved(bindings, known, n - 1, name, function);
        lemma_binding_of(bindings, last);
        match leads_to(bindings, known, last, MAX_LINKS as nat) {
            Some(found) if binding_of(bindings, last) == Some(n - 1) => {
                assert(all == before.push((last, found)));
                if before.contains((name, function)) {
                    let i = before.index_of((name, function));
                    assert(all[i] == (name, function));
                }
                if (name, function) == (last, found) {
                    assert(all[all.len() - 1] == (name, function));
                }
                if all.contains((name, function)) {
                    let i = all.index_of((name, function));
                    if i < before.len() {
                        assert(before[i] == (name, function));
                    }
                }
            },
            _ => {},
        }
    } else {
        assert(!resolved_among(bindings, known, n).contains((name, function)));
    }
}

/// The aliases of a source are exactly the names that lead to a known function
/// through at most [`MAX_LINKS`] others, each with the function that it leads
/// to.
pub proof fn law_aliases_lead_to_functions(
    bindings: Seq<(Seq<char>, Seq<char>)>,
    known: Seq<Seq<char>>,
    name: Seq<char>,
    function: Seq<char>,
)
    ensures
        aliases_of(bindings, known).contains((name, function)) <==> leads_to(
            bindings,
            known,
            name,
            MAX_LINKS as nat,
        ) == Some(function),
        leads_to(bindings, known, name, MAX_LINKS as nat) == Some(function) ==> known.contains(function),
{
    lemma_resolved(bindings, known, bindings.len() as int, name, function);
    lemma_binding_of(bindings, name);
    lemma_leads_to_known(bindings, known, name, MAX_LINKS as nat);
}

proof fn lemma_leads_to_known(
    bindings: Seq<(Seq<char>, Seq<char>)>,
    known: Seq<Seq<char>>,
    name: Seq<char>,
    links: nat,
)
    ensures
        leads_to(bindings, known, name, links) matches Some(function) ==> known.contains(function),
    decreases links,
{
    if let Some(i) = binding_of(bindings, name) {
        if links > 0 {
            lemma_leads_to_known(bindings, known, bindings[i].1, (links - 1) as nat);
        }
    }
}

fn find_binding(bindings: &Vec<(String, String)>, name: &String) -> (out: Option<usize>)
    ensures
        match out {
            Some(i) => binding_of(pair_views(bindings@), name@) == Some(i as int) && i
                < bindings@.len(),
            None => binding_of(pair_views(bindings@), name@) is None,
        },
{
    let ghost all = pair_views(bindings@);
    let mut i: usize = 0;
    proof {
        lemma_binding_of(all, name@);
    }
    while i < bindings.len()
        invariant
            i <= bindings@.len(),
            all == pair_views(bindings@),
            forall|j: int| 0 <= j < i ==> (#[trigger] all[j]).0 != name@,
            match binding_of(all, name@) {
                Some(i) => 0 <= i < all.len() && all[i].0 == name@ && forall|j: int|
                    0 <= j < i ==> (#[trigger] all[j]).0 != name@,
                None => forall|j: int| 0 <= j < all.len() ==> (#[trigger] all[j]).0 != name@,
            },
        decreases bindings@.len() - i,
    {
        assert(all[i as int].0 == bindings@[i as int].0@);
        if bindings[i].0 == *name {
            return Some(i);
        }
        i += 1;
    }
    None
}

fn follow(
    bindings: &Vec<(String, String)>,
    next: &Vec<Option<usize>>,
    ends: &Vec<bool>,
    known: &Vec<String>,
    from: usize,
) -> (out: Option<usize>)
    requires
        from < bindings@.len(),
        next@.len() == bindings@.len(),
        ends@.len() == bindings@.len(),
        binding_of(pair_views(bindings@), bindings@[from as int].0@) == Some(from as int),
        forall|i: int|
            0 <= i < bindings@.len() ==> #[trigger] ends@[i] == views(known@).contains(bindings@[i].1@),
        forall|i: int|
            0 <= i < bindings@.len() ==> match #[trigger] next@[i] {
                Some(k) => k < bindings@.len() && binding_of(
                    pair_views(bindings@),
                    bindings@[i].1@,
                ) == Some(k as int),
                None => binding_of(pair_views(bindings@), bindings@[i].1@) is None,
            },
    ensures
        leads_to(
            pair_views(bindings@),
            views(known@),
            bindings@[from as int].0@,
            MAX_LINKS as nat,
        ) == match out {
            Some(i) => Some(bindings@[i as int].1@),
            None => None,
        },
        out matches Some(i) ==> i < bindings@.len(),
{
    let ghost all = pair_views(bindings@);
    let ghost functions = views(known@);
    let ghost start = bindings@[from as int].0@;
    let ghost mut name = start;
    let mut at: usize = from;
    let mut left: usize = MAX_LINKS;
    loop
        invariant
            at < bindings@.len(),
            next@.len() == bindings@.len(),
            ends@.len() == bindings@.len(),
            all == pair_views(bindings@),
            functions == views(known@),
            start == bindings@[from as int].0@,
            binding_of(all, name) == Some(at as int),
            leads_to(all, functions, start, MAX_LINKS as nat) == leads_to(
                all,
                functions,
                name,
                left as nat,
            ),
            forall|i: int|
                0 <= i < bindings@.len() ==> #[trigger] ends@[i] == functions.contains(bindings@[i].1@),
            forall|i: int|
                0 <= i < bindings@.len() ==> match #[trigger] next@[i] {
                    Some(k) => k < bindings@.len() && binding_of(all, bindings@[i].1@) == Some(
                        k as int,
                    ),
                    None => binding_of(all, bindings@[i].1@) is None,
                },
        decreases left,
    {
        assert(all[at as int].1 == bindings@[at as int].1@);
        if ends[at] {
            return Some(at);
        }
        if left == 0 {
            return None;
        }
        match next[at] {
            None => {
                assert(leads_to(all, functions, bindings@[at as int].1@, (left - 1) as nat)
                    is None);
                return None;
            },
            Some(k) => {
                proof {
                    name = bindings@[at as int].1@;
                }
                at = k;
                left -= 1;
            },
        }
    }
}

/// The names that lead to a known function, each once and with that function,
/// in the order in which they are bound.
pub fn resolve_aliases(bindings: &Vec<(String, String)>, known: &Vec<String>) -> (out: Vec<
    (String, String),
>)
    ensures
        pair_views(out@) == aliases_of(pair_views(bindings@), views(known@)),
        forall|name: Seq<char>, function: Seq<char>|
            #[trigger] pair_views(out@).contains((name, function)) <==> leads_to(
                pair_views(bindings@),
                views(known@),
                name,
                MAX_LINKS as nat,
            ) == Some(function),
{
    let ghost all = pair_views(bindings@);
    let ghost functions = views(known@);
    let mut next: Vec<Option<usize>> = Vec::new();
    let mut ends: Vec<bool> = Vec::new();
    let mut i: usize = 0;
    while i < bindings.len()
        invariant
            i <= bindings@.len(),
            next@.len() == i,
            ends@.len() == i,
            all == pair_views(bindings@),
            functions == views(known@),
            forall|j: int|
                0 <= j < i ==> #[trigger] ends@[j] == functions.contains(bindings@[j].1@),
            forall|j: int|
                0 <= j < i ==> match #[trigger] next@[j] {
                    Some(k) => k < bindings@.len() && binding_of(all, bindings@[j].1@) == Some(
                        k as int,
                    ),
                    None => binding_of(all, bindings@[j].1@) is None,
                },
        decreases bindings@.len() - i,
    {
        ends.push(is_among(known, bindings[i].1.as_str()));
        next.push(find_binding(bindings, &bindings[i].1));
        i += 1;
    }
    let mut out: Vec<(String, String)> = Vec::new();
    let mut n: usize = 0;
    assert(pair_views(out@) =~= Seq::empty());
    while n < bindings.len()
        invariant
            n <= bindings@.len(),
            next@.len() == bindings@.len(),
            ends@.len() == bindings@.len(),
            all == pair_views(bindings@),
            functions == views(known@),
            forall|j: int|
                0 <= j < bindings@.len() ==> #[trigger] ends@[j] == functions.contains(bindings@[j].1@),
            forall|j: int|
                0 <= j < bindings@.len() ==> match #[trigger] next@[j] {
                    Some(k) => k < bindings@.len() && binding_of(all, bindings@[j].1@) == Some(
                        k as int,
                    ),
                    None => binding_of(all, bindings@[j].1@) is None,
                },
            pair_views(out@) == resolved_among(all, functions, n as int),
        decreases bindings@.len() - n,
    {
        let ghost before = pair_views(out@);
        let name = &bindings[n].0;
        assert(all[n as int].0 == name@);
        match find_binding(bindings, name) {
            Some(first) if first == n => {
                if let Some(end) = follow(bindings, &next, &ends, known, n) {
                    let function = bindings[end].1.clone();
                    let alias = (name.clone(), function);
                    out.push(alias);
                    assert(pair_views(out@) =~= before.push((name@, function@)));
                }
            },
            _ => {},
        }
        n += 1;
    }
    proof {
        assert forall|name: Seq<char>, function: Seq<char>| #[trigger]
            pair_views(out@).contains((name, function)) <==> leads_to(
                all,
                functions,
                name,
                MAX_LINKS as nat,
            ) == Some(function) by {
            law_aliases_lead_to_functions(all, functions, name, function);
        }
    }
    out
}

/// What a text is that function names are written into.
#[derive(Debug, Clone, Copy, PartialEq, Eq, Structural)]
pub enum Dialect {
    /// A tree-sitter query, with the names between double quotes.
    Query,
    /// A regular expression.
    Pattern,
}

/// What stands between two names of a function.
pub open spec fn separator(dialect: Dialect) -> Seq<char> {
    match dialect {
        Dialect::Query => "\" \""@,
        Dialect::Pattern => "|"@,
    }
}

/// A name as it is written in a dialect.
pub open spec fn written(dialect: Dialect, name: Seq<char>) -> Seq<char> {
    match dialect {
        Dialect::Query => name,
        Dialect::Pattern => replaced(name, "$"@, "\\$"@),
    }
}

/// Whether a name consists of letters, digits, `_` and `$`, so that it stands
/// for itself in every dialect once it is written.
pub open spec fn is_plain(name: Seq<char>) -> bool {
    name.len() > 0 && forall|i: int|
        0 <= i < name.len() ==> is_word(#[trigger] name[i]) || name[i] == '_' || name[i] == '$'
}

/// The names under which a function is known, as alternatives.
pub open spec fn names_for(
    dialect: Dialect,
    function: Seq<char>,
    aliases: Seq<(Seq<char>, Seq<char>)>,
) -> Seq<char>
    decreases aliases.len(),
{
    if aliases.len() == 0 {
        written(dialect, function)
    } else {
        let before = names_for(dialect, function, aliases.drop_last());
        let (name, of) = aliases.last();
        if of == function && is_plain(name) {
            before + separator(dialect) + written(dialect, name)
        } else {
            before
        }
    }
}

/// A text with the names of each known function written where `{function}`
/// stands.
pub open spec fn expanded(
    dialect: Dialect,
    text: Seq<char>,
    known: Seq<Seq<char>>,
    aliases: Seq<(Seq<char>, Seq<char>)>,
) -> Seq<char>
    decreases known.len(),
{
    if known.len() == 0 {
        text
    } else {
        replaced(
            expanded(dialect, text, known.drop_last(), aliases),
            "{"@ + known.last() + "}"@,
            names_for(dialect, known.last(), aliases),
        )
    }
}

fn stands_plainly(name: &str) -> (yes: bool)
    ensures
        yes == is_plain(name@),
{
    let chars = chars_of(name);
    let mut i: usize = 0;
    while i < chars.len()
        invariant
            i <= chars@.len(),
            chars@ == name@,
            forall|j: int|
                0 <= j < i ==> is_word(#[trigger] name@[j]) || name@[j] == '_' || name@[j] == '$',
        decreases chars@.len() - i,
    {
        let c: char = chars[i];
        assert(c == name@[i as int]);
        if !in_word(c) && c != '_' && c != '$' {
            return false;
        }
        i += 1;
    }
    chars.len() > 0
}

fn write_name(dialect: Dialect, name: &str) -> (out: String)
    ensures
        out@ == written(dialect, name@),
{
    match dialect {
        Dialect::Query => owned(name),
        Dialect::Pattern => {
            proof {
                reveal_strlit("$");
            }
            replace(name, "$", "\\$")
        },
    }
}

fn write_names(dialect: Dialect, function: &str, aliases: &Vec<(String, String)>) -> (out: String)
    ensures
        out@ == names_for(dialect, function@, pair_views(aliases@)),
{
    let ghost all = pair_views(aliases@);
    let mut out = write_name(dialect, function);
    let mut i: usize = 0;
    assert(all.take(0) =~= Seq::empty());
    while i < aliases.len()
        invariant
            i <= aliases@.len(),
            all == pair_views(aliases@),
            out@ == names_for(dialect, function@, all.take(i as int)),
        decreases aliases@.len() - i,
    {
        let (name, of) = &aliases[i];
        assert(all.take(i + 1).drop_last() =~= all.take(i as int));
        assert(all.take(i + 1).last() == (name@, of@));
        if same(of.as_str(), function) && stands_plainly(name.as_str()) {
            out.append(
                match dialect {
                    Dialect::Query => "\" \"",
                    Dialect::Pattern => "|",
                },
            );
            out.append(write_name(dialect, name.as_str()).as_str());
        }
        i += 1;
    }
    assert(all.take(i as int) =~= all);
    out
}

/// A text with the names of each known function written where `{function}`
/// stands.
pub fn expand(
    dialect: Dialect,
    text: &str,
    known: &Vec<String>,
    aliases: &Vec<(String, String)>,
) -> (out: String)
    ensures
        out@ == expanded(dialect, text@, views(known@), pair_views(aliases@)),
{
    let ghost functions = views(known@);
    let mut out = owned(text);
    let mut i: usize = 0;
    assert(functions.take(0) =~= Seq::empty());
    while i < known.len()
        invariant
            i <= known@.len(),
            functions == views(known@),
            out@ == expanded(dialect, text@, functions.take(i as int), pair_views(aliases@)),
        decreases known@.len() - i,
    {
        assert(functions.take(i + 1).drop_last() =~= functions.take(i as int));
        assert(functions.take(i + 1).last() == known@[i as int]@);
        let place = concat3("{", known[i].as_str(), "}");
        proof {
            reveal_strlit("{");
        }
        let names = write_names(dialect, known[i].as_str(), aliases);
        out = replace(out.as_str(), place.as_str(), names.as_str());
        i += 1;
    }
    assert(functions.take(i as int) =~= functions);
    out
}

/// A name is bound by the first binding of it.
pub proof fn law_the_first_binding_counts(
    bindings: Seq<(Seq<char>, Seq<char>)>,
    name: Seq<char>,
    i: int,
)
    requires
        0 <= i < bindings.len(),
        bindings[i].0 == name,
        forall|j: int| 0 <= j < i ==> (#[trigger] bindings[j]).0 != name,
    ensures
        binding_of(bindings, name) == Some(i),
{
    lemma_binding_of(bindings, name);
    match binding_of(bindings, name) {
        Some(k) => {
            if k < i {
                assert(bindings[k].0 != name);
            }
        },
        None => {},
    }
}

/// Whether each name of a chain is bound to the next one.
pub open spec fn is_chain(bindings: Seq<(Seq<char>, Seq<char>)>, chain: Seq<Seq<char>>) -> bool {
    forall|k: int|
        0 <= k < chain.len() - 1 ==> (binding_of(bindings, #[trigger] chain[k]) matches Some(i)
            && bindings[i].1 == chain[k + 1])
}

/// A chain of bindings leads from its first name to the known function at its
/// end, where that is the first known one and no more names stand between the
/// two than allowed.
pub proof fn law_chains_lead_to_their_end(
    bindings: Seq<(Seq<char>, Seq<char>)>,
    known: Seq<Seq<char>>,
    chain: Seq<Seq<char>>,
    links: nat,
)
    requires
        chain.len() >= 2,
        is_chain(bindings, chain),
        known.contains(chain.last()),
        forall|k: int| 0 < k < chain.len() - 1 ==> !known.contains(#[trigger] chain[k]),
    ensures
        chain.len() - 2 <= links ==> leads_to(bindings, known, chain[0], links) == Some(
            chain.last(),
        ),
        chain.len() - 2 > links ==> leads_to(bindings, known, chain[0], links) is None,
    decreases chain.len(),
{
    assert(binding_of(bindings, chain[0]) is Some);
    if chain.len() > 2 {
        let rest = chain.drop_first();
        assert(rest[0] == chain[1]);
        assert(!known.contains(chain[1]));
        assert(rest.last() == chain.last());
        assert forall|k: int| 0 <= k < rest.len() - 1 implies (binding_of(
            bindings,
            #[trigger] rest[k],
        ) matches Some(i) && bindings[i].1 == rest[k + 1]) by {
            assert(rest[k] == chain[k + 1]);
            assert(binding_of(bindings, chain[k + 1]) is Some);
            assert(rest[k + 1] == chain[k + 2]);
        }
        assert forall|k: int| 0 < k < rest.len() - 1 implies !known.contains(
            #[trigger] rest[k],
        ) by {
            assert(rest[k] == chain[k + 1]);
        }
        if links > 0 {
            law_chains_lead_to_their_end(bindings, known, rest, (links - 1) as nat);
        }
    } else {
        assert(chain[1] == chain.last());
    }
}

/// A name that is bound to nothing leads nowhere.
pub proof fn law_unbound_names_lead_nowhere(
    bindings: Seq<(Seq<char>, Seq<char>)>,
    known: Seq<Seq<char>>,
    name: Seq<char>,
    links: nat,
)
    requires
        forall|j: int| 0 <= j < bindings.len() ==> (#[trigger] bindings[j]).0 != name,
    ensures
        leads_to(bindings, known, name, links) is None,
{
    lemma_binding_of(bindings, name);
}

/// The names of a function are the function and then its aliases in their
/// order, parted by the separator of the dialect. A name that is not made of
/// letters, digits, `_` and `$` alone is left out, and so is the alias of
/// another function.
pub proof fn law_names_are_the_function_and_its_aliases(
    dialect: Dialect,
    function: Seq<char>,
    aliases: Seq<(Seq<char>, Seq<char>)>,
    name: Seq<char>,
    of: Seq<char>,
)
    ensures
        names_for(Dialect::Query, function, Seq::empty()) == function,
        names_for(dialect, function, aliases.push((name, of))) == names_for(
            dialect,
            function,
            aliases,
        ) + if of == function && name.len() > 0 && (forall|i: int|
            0 <= i < name.len() ==> is_word(#[trigger] name[i]) || name[i] == '_' || name[i]
                == '$') {
            match dialect {
                Dialect::Query => "\" \""@ + name,
                Dialect::Pattern => "|"@ + replaced(name, "$"@, "\\$"@),
            }
        } else {
            Seq::empty()
        },
{
    let all = aliases.push((name, of));
    assert(all.drop_last() =~= aliases);
    assert(all.last() == (name, of));
    let before = names_for(dialect, function, aliases);
    assert(before + Seq::<char>::empty() =~= before);
    assert(before + separator(dialect) + written(dialect, name) =~= before + (separator(dialect)
        + written(dialect, name)));
}

/// Each known function that stands in braces is replaced by its names.
pub proof fn law_functions_in_braces_are_expanded(
    dialect: Dialect,
    text: Seq<char>,
    known: Seq<Seq<char>>,
    function: Seq<char>,
    aliases: Seq<(Seq<char>, Seq<char>)>,
)
    ensures
        expanded(dialect, text, Seq::empty(), aliases) == text,
        expanded(dialect, text, known.push(function), aliases) == replaced(
            expanded(dialect, text, known, aliases),
            "{"@ + function + "}"@,
            names_for(dialect, function, aliases),
        ),
{
    assert(known.push(function).drop_last() =~= known);
}

} // verus!
