//! Text as sequences of characters: the string operations the rest of the
//! library is written in, each with the exact sequence it produces.

use vstd::prelude::*;

verus! {

broadcast use vstd::string::group_string_axioms;

/// The views of the elements of a sequence.
pub open spec fn views<A: View>(s: Seq<A>) -> Seq<A::V> {
    s.map_values(|a: A| a@)
}

/// The view of an optional string.
pub open spec fn opt_view(s: Option<String>) -> Option<Seq<char>> {
    match s {
        Some(s) => Some(s@),
        None => None,
    }
}

/// `String::push` appends one character.
pub assume_specification[ String::push ](s: &mut String, c: char)
    ensures
        final(s)@ == old(s)@.push(c),
;

/// The characters of a string, in order.
pub fn chars_of(s: &str) -> (out: Vec<char>)
    ensures
        out@ == s@,
{
    let mut out: Vec<char> = Vec::new();
    for c in it: s.chars()
        invariant
            out@ == s@.take(it.index() as int),
            it.seq() == s@,
    {
        assert(s@.take(it.index() as int).push(c) =~= s@.take(it.index() + 1));
        out.push(c);
    }
    assert(s@.take(s@.len() as int) =~= s@);
    out
}

/// The string made of the characters from `from` up to `to`.
pub fn text_between(chars: &[char], from: usize, to: usize) -> (out: String)
    requires
        from <= to <= chars@.len(),
    ensures
        out@ == chars@.subrange(from as int, to as int),
{
    let mut out = String::new();
    let mut i: usize = from;
    while i < to
        invariant
            from <= i <= to <= chars@.len(),
            out@ == chars@.subrange(from as int, i as int),
        decreases to - i,
    {
        out.push(chars[i]);
        i += 1;
        assert(chars@.subrange(from as int, i - 1).push(chars@[i - 1]) =~= chars@.subrange(
            from as int,
            i as int,
        ));
    }
    out
}

/// An owned copy of a string.
pub fn owned(s: &str) -> (out: String)
    ensures
        out@ == s@,
{
    s.to_owned()
}

/// Whether a string holds no character.
pub fn is_empty(s: &str) -> (yes: bool)
    ensures
        yes == (s@.len() == 0),
{
    s.is_empty()
}

/// Whether two strings hold the same characters.
pub fn same(a: &str, b: &str) -> (yes: bool)
    ensures
        yes == (a@ == b@),
{
    a.to_owned() == b.to_owned()
}

/// The concatenation of two strings.
pub fn concat2(a: &str, b: &str) -> (out: String)
    ensures
        out@ == a@ + b@,
{
    let mut out = a.to_owned();
    out.append(b);
    out
}

/// The concatenation of three strings.
pub fn concat3(a: &str, b: &str, c: &str) -> (out: String)
    ensures
        out@ == a@ + b@ + c@,
{
    let mut out = concat2(a, b);
    out.append(c);
    out
}

/// The White_Space characters of Unicode.
pub open spec fn is_white(c: char) -> bool {
    let v = c as u32;
    ||| 0x9 <= v <= 0xd
    ||| v == 0x20
    ||| v == 0x85
    ||| v == 0xa0
    ||| v == 0x1680
    ||| 0x2000 <= v <= 0x200a
    ||| v == 0x2028
    ||| v == 0x2029
    ||| v == 0x202f
    ||| v == 0x205f
    ||| v == 0x3000
}

/// Whether a character is white space.
pub fn is_whitespace(c: char) -> (yes: bool)
    ensures
        yes == is_white(c),
{
    let v: u32 = c as u32;
    (0x9 <= v && v <= 0xd) || v == 0x20 || v == 0x85 || v == 0xa0 || v == 0x1680 || (0x2000 <= v
        && v <= 0x200a) || v == 0x2028 || v == 0x2029 || v == 0x202f || v == 0x205f || v == 0x3000
}

/// The text without its leading white space.
pub open spec fn trimmed_start(s: Seq<char>) -> Seq<char>
    decreases s.len(),
{
    if s.len() > 0 && is_white(s[0]) {
        trimmed_start(s.drop_first())
    } else {
        s
    }
}

/// The text without its trailing white space.
pub open spec fn trimmed_end(s: Seq<char>) -> Seq<char>
    decreases s.len(),
{
    if s.len() > 0 && is_white(s.last()) {
        trimmed_end(s.drop_last())
    } else {
        s
    }
}

/// The text without white space at either end.
pub open spec fn trimmed(s: Seq<char>) -> Seq<char> {
    trimmed_start(trimmed_end(s))
}

/// The length of the text without its trailing white space.
pub fn trimmed_len(chars: &[char]) -> (n: usize)
    ensures
        n <= chars@.len(),
        chars@.take(n as int) == trimmed_end(chars@),
{
    let mut n: usize = chars.len();
    assert(chars@.take(n as int) =~= chars@);
    while n > 0 && is_whitespace(chars[n - 1])
        invariant
            n <= chars@.len(),
            trimmed_end(chars@.take(n as int)) == trimmed_end(chars@),
        decreases n,
    {
        assert(chars@.take(n as int).drop_last() =~= chars@.take(n - 1));
        n -= 1;
    }
    n
}

/// How many leading characters are white space, looking no further than `to`.
pub fn white_prefix(chars: &[char], to: usize) -> (n: usize)
    requires
        to <= chars@.len(),
    ensures
        n <= to,
        chars@.subrange(n as int, to as int) == trimmed_start(chars@.take(to as int)),
        forall|i: int| 0 <= i < n ==> is_white(#[trigger] chars@[i]),
        n < to ==> !is_white(chars@[n as int]),
{
    let mut n: usize = 0;
    assert(chars@.subrange(0, to as int) =~= chars@.take(to as int));
    while n < to && is_whitespace(chars[n])
        invariant
            n <= to <= chars@.len(),
            trimmed_start(chars@.subrange(n as int, to as int)) == trimmed_start(
                chars@.take(to as int),
            ),
            forall|i: int| 0 <= i < n ==> is_white(#[trigger] chars@[i]),
        decreases to - n,
    {
        assert(chars@.subrange(n as int, to as int).drop_first() =~= chars@.subrange(
            n + 1,
            to as int,
        ));
        n += 1;
    }
    n
}

/// The text without its trailing white space.
pub fn trim_end(s: &str) -> (out: String)
    ensures
        out@ == trimmed_end(s@),
{
    let chars = chars_of(s);
    let n: usize = trimmed_len(&chars);
    assert(chars@.subrange(0, n as int) =~= chars@.take(n as int));
    text_between(&chars, 0, n)
}

/// The text without its leading white space.
pub fn trim_start(s: &str) -> (out: String)
    ensures
        out@ == trimmed_start(s@),
{
    let chars = chars_of(s);
    let n: usize = white_prefix(&chars, chars.len());
    assert(chars@.take(chars@.len() as int) =~= chars@);
    text_between(&chars, n, chars.len())
}

/// The text without white space at either end.
pub fn trim(s: &str) -> (out: String)
    ensures
        out@ == trimmed(s@),
{
    let chars = chars_of(s);
    let to: usize = trimmed_len(&chars);
    let from: usize = white_prefix(&chars, to);
    text_between(&chars, from, to)
}

/// Whether `part` stands in `s` at position `at`.
pub open spec fn occurs_at(s: Seq<char>, part: Seq<char>, at: int) -> bool {
    &&& 0 <= at
    &&& at + part.len() <= s.len()
    &&& s.subrange(at, at + part.len()) == part
}

/// Whether `part` stands somewhere in `s`.
pub open spec fn has_part(s: Seq<char>, part: Seq<char>) -> bool {
    exists|at: int| occurs_at(s, part, at)
}

/// The first position at or after `from` where `part` stands in `s`.
pub open spec fn first_from(s: Seq<char>, part: Seq<char>, from: int) -> Option<int>
    decreases s.len() + 1 - from,
{
    if from < 0 || from + part.len() > s.len() {
        None
    } else if occurs_at(s, part, from) {
        Some(from)
    } else {
        first_from(s, part, from + 1)
    }
}

/// [`first_from`] gives the first occurrence, and none only when there is none.
pub proof fn lemma_first_from(s: Seq<char>, part: Seq<char>, from: int)
    requires
        0 <= from,
    ensures
        match first_from(s, part, from) {
            Some(at) => from <= at && occurs_at(s, part, at) && forall|j: int|
                from <= j < at ==> !occurs_at(s, part, j),
            None => forall|j: int| from <= j ==> !occurs_at(s, part, j),
        },
    decreases s.len() + 1 - from,
{
    if from + part.len() <= s.len() && !occurs_at(s, part, from) {
        lemma_first_from(s, part, from + 1);
        assert forall|j: int| from <= j && first_from(s, part, from) is None implies !occurs_at(
            s,
            part,
            j,
        ) by {
            if j > from {
            }
        }
    }
}

/// Whether the characters of `part` stand in `chars` at position `at`.
pub fn occurs(chars: &[char], part: &[char], at: usize) -> (yes: bool)
    requires
        at + part@.len() <= chars@.len(),
    ensures
        yes == occurs_at(chars@, part@, at as int),
{
    let mut i: usize = 0;
    let n: usize = chars.len();
    while i < part.len()
        invariant
            i <= part@.len(),
            n == chars@.len(),
            at + part@.len() <= chars@.len(),
            forall|j: int| 0 <= j < i ==> chars@[at + j] == part@[j],
        decreases part@.len() - i,
    {
        if chars[at + i] != part[i] {
            assert(chars@.subrange(at as int, at + part@.len())[i as int] != part@[i as int]);
            return false;
        }
        i += 1;
    }
    assert(chars@.subrange(at as int, at + part@.len()) =~= part@);
    true
}

/// The first position at or after `from` where `part` stands.
pub fn find_from(chars: &[char], part: &[char], from: usize) -> (found: Option<usize>)
    ensures
        match found {
            Some(at) => first_from(chars@, part@, from as int) == Some(at as int),
            None => first_from(chars@, part@, from as int) is None,
        },
        found matches Some(at) ==> from <= at && at + part@.len() <= chars@.len(),
{
    let mut at: usize = from;
    if part.len() > chars.len() {
        return None;
    }
    let last: usize = chars.len() - part.len();
    while at <= last
        invariant
            from <= at,
            part@.len() <= chars@.len(),
            last == chars@.len() - part@.len(),
            first_from(chars@, part@, at as int) == first_from(chars@, part@, from as int),
        decreases last + 1 - at,
    {
        if occurs(chars, part, at) {
            return Some(at);
        }
        if at == last {
            assert(first_from(chars@, part@, at + 1) is None);
            return None;
        }
        at += 1;
    }
    None
}

/// Whether `part` stands somewhere in `s`.
pub fn contains(s: &str, part: &str) -> (yes: bool)
    ensures
        yes == has_part(s@, part@),
{
    let found = find_from(&chars_of(s), &chars_of(part), 0);
    proof {
        lemma_first_from(s@, part@, 0);
    }
    found.is_some()
}

/// The text before and after the first `sep`.
pub open spec fn cut_once(s: Seq<char>, sep: Seq<char>) -> Option<(Seq<char>, Seq<char>)> {
    match first_from(s, sep, 0) {
        Some(at) => Some((s.take(at), s.skip(at + sep.len()))),
        None => None,
    }
}

/// The text before and after the first `sep`.
pub fn split_once(s: &str, sep: &str) -> (out: Option<(String, String)>)
    ensures
        match out {
            Some((a, b)) => cut_once(s@, sep@) == Some((a@, b@)),
            None => cut_once(s@, sep@) is None,
        },
{
    let chars = chars_of(s);
    let part = chars_of(sep);
    let n: usize = chars.len();
    match find_from(&chars, &part, 0) {
        Some(at) => {
            let a = text_between(&chars, 0, at);
            let b = text_between(&chars, at + part.len(), n);
            assert(a@ =~= s@.take(at as int));
            assert(b@ =~= s@.skip(at + part@.len()));
            Some((a, b))
        },
        None => None,
    }
}

/// Whether `s` starts with `prefix`.
pub fn starts_with(s: &str, prefix: &str) -> (yes: bool)
    ensures
        yes == prefix@.is_prefix_of(s@),
{
    let chars = chars_of(s);
    let part = chars_of(prefix);
    if part.len() > chars.len() {
        return false;
    }
    occurs(&chars, &part, 0)
}

/// Whether `s` ends with `suffix`.
pub fn ends_with(s: &str, suffix: &str) -> (yes: bool)
    ensures
        yes == suffix@.is_suffix_of(s@),
{
    let chars = chars_of(s);
    let part = chars_of(suffix);
    if part.len() > chars.len() {
        return false;
    }
    occurs(&chars, &part, chars.len() - part.len())
}

/// The text after `prefix`, where `s` starts with it.
pub fn strip_prefix(s: &str, prefix: &str) -> (out: Option<String>)
    ensures
        match out {
            Some(rest) => prefix@.is_prefix_of(s@) && rest@ == s@.skip(prefix@.len() as int),
            None => !prefix@.is_prefix_of(s@),
        },
{
    if starts_with(s, prefix) {
        let chars = chars_of(s);
        let n: usize = chars_of(prefix).len();
        let rest = text_between(&chars, n, chars.len());
        assert(rest@ =~= s@.skip(n as int));
        Some(rest)
    } else {
        None
    }
}

/// The text before `suffix`, where `s` ends with it.
pub fn strip_suffix(s: &str, suffix: &str) -> (out: Option<String>)
    ensures
        match out {
            Some(rest) => suffix@.is_suffix_of(s@) && rest@ == s@.take(s@.len() - suffix@.len()),
            None => !suffix@.is_suffix_of(s@),
        },
{
    if ends_with(s, suffix) {
        let chars = chars_of(s);
        let n: usize = chars.len() - chars_of(suffix).len();
        let rest = text_between(&chars, 0, n);
        assert(rest@ =~= s@.take(n as int));
        Some(rest)
    } else {
        None
    }
}

/// The pieces of a text between the separators `sep`; never empty.
pub open spec fn pieces(s: Seq<char>, sep: char) -> Seq<Seq<char>>
    decreases s.len(),
{
    if s.len() == 0 {
        seq![Seq::<char>::empty()]
    } else {
        let before = pieces(s.drop_last(), sep);
        if s.last() == sep {
            before.push(Seq::<char>::empty())
        } else {
            before.drop_last().push(before.last().push(s.last()))
        }
    }
}

/// There is always at least one piece.
pub proof fn lemma_pieces_nonempty(s: Seq<char>, sep: char)
    ensures
        pieces(s, sep).len() > 0,
    decreases s.len(),
{
    if s.len() > 0 {
        lemma_pieces_nonempty(s.drop_last(), sep);
    }
}

/// A separator parts the pieces before it from those behind it.
pub proof fn lemma_pieces_join(a: Seq<char>, b: Seq<char>, sep: char)
    ensures
        pieces(a.push(sep) + b, sep) == pieces(a, sep) + pieces(b, sep),
    decreases b.len(),
{
    let whole = a.push(sep) + b;
    if b.len() == 0 {
        assert(whole =~= a.push(sep));
        assert(whole.drop_last() =~= a);
        assert(pieces(whole, sep) =~= pieces(a, sep) + pieces(b, sep));
    } else {
        lemma_pieces_join(a, b.drop_last(), sep);
        lemma_pieces_nonempty(b.drop_last(), sep);
        assert(whole.drop_last() =~= a.push(sep) + b.drop_last());
        assert(pieces(whole, sep) =~= pieces(a, sep) + pieces(b, sep));
    }
}

/// A text without the separator is one piece.
pub proof fn lemma_one_piece(s: Seq<char>, sep: char)
    requires
        !s.contains(sep),
    ensures
        pieces(s, sep) == seq![s],
    decreases s.len(),
{
    if s.len() > 0 {
        assert(s[s.len() - 1] != sep);
        assert forall|i: int| 0 <= i < s.drop_last().len() implies s.drop_last()[i] != sep by {
            assert(s.drop_last()[i] == s[i]);
        }
        lemma_one_piece(s.drop_last(), sep);
        assert(s.drop_last().push(s.last()) =~= s);
        assert(pieces(s, sep) =~= seq![s]);
    } else {
        assert(s =~= Seq::empty());
    }
}

/// The pieces of a text between the separators `sep`.
pub fn split(s: &str, sep: char) -> (out: Vec<String>)
    ensures
        views(out@) == pieces(s@, sep),
{
    let chars = chars_of(s);
    let mut out: Vec<String> = Vec::new();
    let mut piece = String::new();
    let mut i: usize = 0;
    assert(chars@.take(0) =~= Seq::<char>::empty());
    assert(views(out@).push(piece@) =~= pieces(chars@.take(0), sep));
    while i < chars.len()
        invariant
            i <= chars@.len(),
            views(out@).push(piece@) == pieces(chars@.take(i as int), sep),
        decreases chars@.len() - i,
    {
        let c = chars[i];
        let ghost now = chars@.take(i + 1);
        assert(now.drop_last() =~= chars@.take(i as int));
        let ghost before = pieces(chars@.take(i as int), sep);
        assert(before.drop_last() =~= views(out@));
        if c == sep {
            let ghost done = views(out@).push(piece@);
            out.push(piece);
            piece = String::new();
            assert(views(out@) =~= done);
        } else {
            piece.push(c);
        }
        i += 1;
    }
    assert(chars@.take(chars@.len() as int) =~= s@);
    let ghost done = views(out@).push(piece@);
    out.push(piece);
    assert(views(out@) =~= done);
    out
}

/// The texts, one after the other, with `sep` between each two.
pub open spec fn joined(parts: Seq<Seq<char>>, sep: Seq<char>) -> Seq<char>
    decreases parts.len(),
{
    if parts.len() == 0 {
        Seq::empty()
    } else if parts.len() == 1 {
        parts[0]
    } else {
        joined(parts.drop_last(), sep) + sep + parts.last()
    }
}

/// The texts, one after the other, with `sep` between each two.
pub fn join(parts: &[String], sep: &str) -> (out: String)
    ensures
        out@ == joined(views(parts@), sep@),
{
    let mut out = String::new();
    let mut i: usize = 0;
    while i < parts.len()
        invariant
            i <= parts@.len(),
            out@ == joined(views(parts@).take(i as int), sep@),
        decreases parts@.len() - i,
    {
        assert(views(parts@).take(i + 1).drop_last() =~= views(parts@).take(i as int));
        if i > 0 {
            out.append(sep);
        }
        out.append(parts[i].as_str());
        i += 1;
        assert(i == 1 ==> out@ =~= views(parts@).take(1)[0]);
    }
    assert(views(parts@).take(parts@.len() as int) =~= views(parts@));
    out
}

/// A line without the carriage return that ends it, if any.
pub open spec fn without_return(line: Seq<char>) -> Seq<char> {
    if line.len() > 0 && line.last() == '\r' {
        line.drop_last()
    } else {
        line
    }
}

/// The lines of a text: ended by `\n` or `\r\n`, the last one optionally.
pub open spec fn text_lines(s: Seq<char>) -> Seq<Seq<char>> {
    let parts = pieces(s, '\n');
    let ended = parts.drop_last().map_values(|line: Seq<char>| without_return(line));
    if parts.last().len() == 0 {
        ended
    } else {
        ended.push(parts.last())
    }
}

/// The lines of a text that ends with a line feed come before those of what
/// follows it.
pub proof fn lemma_lines_join(head: Seq<char>, tail: Seq<char>)
    requires
        head.len() == 0 || head.last() == '\n',
    ensures
        text_lines(head + tail) == text_lines(head) + text_lines(tail),
{
    lemma_pieces_nonempty(tail, '\n');
    if head.len() == 0 {
        assert(head + tail =~= tail);
        assert(head =~= Seq::empty());
        assert(text_lines(head) =~= Seq::empty());
        assert(text_lines(head) + text_lines(tail) =~= text_lines(tail));
    } else {
        let a = head.drop_last();
        assert(head =~= a.push('\n') + Seq::empty());
        assert(head + tail =~= a.push('\n') + tail);
        lemma_pieces_join(a, Seq::empty(), '\n');
        lemma_pieces_join(a, tail, '\n');
        let first = pieces(a, '\n');
        let rest = pieces(tail, '\n');
        assert((first + rest).drop_last() =~= first + rest.drop_last());
        assert(pieces(Seq::empty(), '\n') =~= seq![Seq::<char>::empty()]);
        assert(pieces(head, '\n').drop_last() =~= first);
        assert(text_lines(head + tail) =~= text_lines(head) + text_lines(tail));
    }
}

/// A line without line-break characters, and ended by a line feed, is the one
/// line of its text.
pub proof fn lemma_one_line(line: Seq<char>)
    requires
        !line.contains('\n'),
        !line.contains('\r'),
    ensures
        text_lines(line.push('\n')) == seq![line],
{
    assert(line.push('\n') =~= line.push('\n') + Seq::empty());
    lemma_pieces_join(line, Seq::empty(), '\n');
    lemma_one_piece(line, '\n');
    assert(pieces(Seq::empty(), '\n') =~= seq![Seq::<char>::empty()]);
    if line.len() > 0 {
        assert(line[line.len() - 1] != '\r');
    }
    assert(pieces(line.push('\n'), '\n').drop_last() =~= seq![line]);
    assert(text_lines(line.push('\n')) =~= seq![line]);
}

/// The lines of a text.
pub fn lines(s: &str) -> (out: Vec<String>)
    ensures
        views(out@) == text_lines(s@),
{
    let parts = split(s, '\n');
    proof {
        lemma_pieces_nonempty(s@, '\n');
        assert(views(parts@).len() == parts@.len());
    }
    let n: usize = parts.len() - 1;
    let mut out: Vec<String> = Vec::new();
    let mut i: usize = 0;
    let ghost ended = views(parts@).drop_last().map_values(|line: Seq<char>| without_return(line));
    while i < n
        invariant
            i <= n,
            n == parts@.len() - 1,
            ended == views(parts@).drop_last().map_values(
                |line: Seq<char>| without_return(line),
            ),
            views(out@) == ended.take(i as int),
        decreases n - i,
    {
        let line = match strip_suffix(parts[i].as_str(), "\r") {
            Some(rest) => rest,
            None => parts[i].clone(),
        };
        proof {
            reveal_strlit("\r");
            let full = parts@[i as int]@;
            if full.len() > 0 && full.last() == '\r' {
                assert("\r"@ =~= full.subrange(full.len() - 1, full.len() as int));
                assert(full.take(full.len() - 1) =~= full.drop_last());
            } else if "\r"@.is_suffix_of(full) {
                assert(full.last() == "\r"@[0]);
            }
            assert(line@ == without_return(full));
        }
        let ghost before = views(out@);
        out.push(line);
        i += 1;
        assert(views(out@) =~= before.push(line@));
        assert(ended.take(i as int) =~= ended.take(i - 1).push(ended[i - 1]));
    }
    assert(ended.take(n as int) =~= ended);
    let last = &parts[n];
    if !is_empty(last.as_str()) {
        let ghost before = views(out@);
        out.push(last.clone());
        assert(views(out@) =~= before.push(last@));
    }
    out
}

/// The text with every `from` replaced by `to`, left to right.
pub open spec fn replaced(s: Seq<char>, from: Seq<char>, to: Seq<char>) -> Seq<char>
    decreases s.len(),
{
    if s.len() == 0 || from.len() == 0 {
        s
    } else if from.is_prefix_of(s) {
        to + replaced(s.skip(from.len() as int), from, to)
    } else {
        seq![s[0]] + replaced(s.drop_first(), from, to)
    }
}

/// The text with every `from` replaced by `to`, left to right.
pub fn replace(s: &str, from: &str, to: &str) -> (out: String)
    requires
        from@.len() > 0,
    ensures
        out@ == replaced(s@, from@, to@),
{
    let chars = chars_of(s);
    let part = chars_of(from);
    let mut out = String::new();
    let mut i: usize = 0;
    assert(chars@.skip(0) =~= s@);
    while i < chars.len()
        invariant
            i <= chars@.len(),
            part@ == from@,
            part@.len() > 0,
            out@ + replaced(chars@.skip(i as int), from@, to@) == replaced(s@, from@, to@),
        decreases chars@.len() - i,
    {
        let ghost rest = chars@.skip(i as int);
        if part.len() <= chars.len() - i && occurs(&chars, &part, i) {
            let ghost before = out@;
            out.append(to);
            i += part.len();
            proof {
                assert(rest.subrange(0, part@.len() as int) =~= chars@.subrange(
                    i - part@.len(),
                    i as int,
                ));
                assert(rest.skip(part@.len() as int) =~= chars@.skip(i as int));
                assert(before + (to@ + replaced(chars@.skip(i as int), from@, to@)) =~= out@
                    + replaced(chars@.skip(i as int), from@, to@));
            }
        } else {
            let ghost before = out@;
            out.push(chars[i]);
            i += 1;
            proof {
                if from@.is_prefix_of(rest) {
                    assert(rest.subrange(0, part@.len() as int) =~= chars@.subrange(
                        i - 1,
                        i - 1 + part@.len(),
                    ));
                }
                assert(rest.drop_first() =~= chars@.skip(i as int));
                assert(before + (seq![rest[0]] + replaced(chars@.skip(i as int), from@, to@))
                    =~= out@ + replaced(chars@.skip(i as int), from@, to@));
            }
        }
    }
    assert(chars@.skip(i as int).len() == 0);
    assert(out@ + chars@.skip(i as int) =~= out@);
    out
}

/// The text `n` times over.
pub open spec fn repeated(s: Seq<char>, n: nat) -> Seq<char>
    decreases n,
{
    if n == 0 {
        Seq::empty()
    } else {
        repeated(s, (n - 1) as nat) + s
    }
}

/// The text `n` times over.
pub fn repeat(s: &str, n: usize) -> (out: String)
    ensures
        out@ == repeated(s@, n as nat),
{
    let mut out = String::new();
    let mut i: usize = 0;
    while i < n
        invariant
            i <= n,
            out@ == repeated(s@, i as nat),
        decreases n - i,
    {
        out.append(s);
        i += 1;
    }
    out
}

/// The decimal digit of a number below ten.
pub open spec fn digit_char(n: int) -> char {
    (n + 48) as char
}

/// A number in decimal.
pub open spec fn decimal_of(n: nat) -> Seq<char>
    decreases n,
{
    if n < 10 {
        seq![digit_char(n as int)]
    } else {
        decimal_of(n / 10).push(digit_char((n % 10) as int))
    }
}

/// A number in decimal.
pub fn decimal(n: u64) -> (out: String)
    ensures
        out@ == decimal_of(n as nat),
    decreases n,
{
    let digit: u8 = (n % 10) as u8 + 48;
    let mut out = if n < 10 {
        String::new()
    } else {
        decimal(n / 10)
    };
    let ghost before = out@;
    out.push(digit as char);
    assert(n < 10 ==> out@ =~= seq![digit_char(n as int)]);
    out
}

/// A count in decimal.
pub fn count_text(n: usize) -> (out: String)
    ensures
        out@ == decimal_of(n as nat),
{
    decimal(n as u64)
}

/// A number in decimal, filled up with zeros to at least `width` digits.
pub open spec fn padded_decimal(n: nat, width: nat) -> Seq<char> {
    let digits = decimal_of(n);
    if digits.len() < width {
        repeated(seq!['0'], (width - digits.len()) as nat) + digits
    } else {
        digits
    }
}

/// A number in decimal, filled up with zeros to at least `width` digits.
pub fn padded(n: u64, width: usize) -> (out: String)
    ensures
        out@ == padded_decimal(n as nat, width as nat),
{
    let digits = decimal(n);
    let len: usize = digits.as_str().unicode_len();
    if len < width {
        let mut out = repeat("0", width - len);
        proof {
            reveal_strlit("0");
            assert("0"@ =~= seq!['0']);
        }
        out.append(digits.as_str());
        out
    } else {
        digits
    }
}

/// The order of texts: by the first character in which they differ, a
/// proper prefix before the longer text.
pub open spec fn text_less(a: Seq<char>, b: Seq<char>) -> bool
    decreases a.len(),
{
    if b.len() == 0 {
        false
    } else if a.len() == 0 {
        true
    } else if a[0] != b[0] {
        a[0] < b[0]
    } else {
        text_less(a.drop_first(), b.drop_first())
    }
}

/// The order of texts is irreflexive.
pub proof fn lemma_less_irreflexive(a: Seq<char>)
    ensures
        !text_less(a, a),
    decreases a.len(),
{
    if a.len() > 0 {
        lemma_less_irreflexive(a.drop_first());
    }
}

/// The order of texts is transitive.
pub proof fn lemma_less_transitive(a: Seq<char>, b: Seq<char>, c: Seq<char>)
    requires
        text_less(a, b),
        text_less(b, c),
    ensures
        text_less(a, c),
    decreases a.len(),
{
    if a.len() > 0 && b.len() > 0 && c.len() > 0 && a[0] == b[0] && b[0] == c[0] {
        lemma_less_transitive(a.drop_first(), b.drop_first(), c.drop_first());
    }
}

/// Of two different texts one comes first.
pub proof fn lemma_less_total(a: Seq<char>, b: Seq<char>)
    ensures
        a == b || text_less(a, b) || text_less(b, a),
    decreases a.len(),
{
    if a.len() == 0 && b.len() == 0 {
        assert(a =~= b);
    } else if a.len() > 0 && b.len() > 0 && a[0] == b[0] {
        lemma_less_total(a.drop_first(), b.drop_first());
        if a.drop_first() == b.drop_first() {
            assert(a =~= seq![a[0]] + a.drop_first());
            assert(b =~= seq![b[0]] + b.drop_first());
        }
    }
}

/// Whether `a` comes before `b`.
pub fn less(a: &str, b: &str) -> (yes: bool)
    ensures
        yes == text_less(a@, b@),
{
    let x = chars_of(a);
    let y = chars_of(b);
    let mut i: usize = 0;
    assert(x@.skip(0) =~= a@);
    assert(y@.skip(0) =~= b@);
    while i < x.len() && i < y.len()
        invariant
            i <= x@.len(),
            i <= y@.len(),
            text_less(x@.skip(i as int), y@.skip(i as int)) == text_less(a@, b@),
        decreases x@.len() - i,
    {
        if x[i] != y[i] {
            return x[i] < y[i];
        }
        assert(x@.skip(i as int).drop_first() =~= x@.skip(i + 1));
        assert(y@.skip(i as int).drop_first() =~= y@.skip(i + 1));
        i += 1;
    }
    i < y.len()
}

/// Whether texts stand in ascending order, each once.
pub open spec fn ascending(s: Seq<Seq<char>>) -> bool {
    forall|i: int, j: int| 0 <= i < j < s.len() ==> text_less(#[trigger] s[i], #[trigger] s[j])
}

/// Ascending texts with `t` in its place.
pub open spec fn insert_text(set: Seq<Seq<char>>, t: Seq<char>) -> Seq<Seq<char>>
    decreases set.len(),
{
    if set.len() == 0 || text_less(set.last(), t) {
        set.push(t)
    } else if set.last() == t {
        set
    } else {
        insert_text(set.drop_last(), t).push(set.last())
    }
}

/// The texts of a sequence in ascending order, each once.
pub open spec fn text_set(s: Seq<Seq<char>>) -> Seq<Seq<char>>
    decreases s.len(),
{
    if s.len() == 0 {
        Seq::empty()
    } else {
        insert_text(text_set(s.drop_last()), s.last())
    }
}

/// Inserting keeps the order and adds just the one text.
pub proof fn lemma_insert_text(set: Seq<Seq<char>>, t: Seq<char>)
    requires
        ascending(set),
    ensures
        ascending(insert_text(set, t)),
        forall|x: Seq<char>|
            #[trigger] insert_text(set, t).contains(x) <==> set.contains(x) || x == t,
    decreases set.len(),
{
    let out = insert_text(set, t);
    if set.len() == 0 || text_less(set.last(), t) {
        assert forall|i: int, j: int| 0 <= i < j < out.len() implies text_less(
            #[trigger] out[i],
            #[trigger] out[j],
        ) by {
            if j == set.len() {
                if i < set.len() - 1 {
                    assert(text_less(set[i], set[set.len() - 1]));
                    lemma_less_transitive(set[i], set.last(), t);
                }
            }
        }
        assert forall|x: Seq<char>| #[trigger] out.contains(x) <==> set.contains(x) || x == t by {
            if set.contains(x) {
                let k = choose|k: int| 0 <= k < set.len() && set[k] == x;
                assert(out[k] == x);
            }
            assert(out[set.len() as int] == t);
        }
    } else if set.last() == t {
        assert(set[set.len() - 1] == t);
    } else {
        let front = set.drop_last();
        let last = set.last();
        lemma_insert_text(front, t);
        lemma_less_total(last, t);
        let inner = insert_text(front, t);
        assert forall|i: int, j: int| 0 <= i < j < out.len() implies text_less(
            #[trigger] out[i],
            #[trigger] out[j],
        ) by {
            if j == inner.len() {
                assert(inner.contains(out[i]));
                if out[i] != t {
                    let k = choose|k: int| 0 <= k < front.len() && front[k] == out[i];
                    assert(text_less(set[k], set[set.len() - 1]));
                }
            } else {
                assert(text_less(inner[i], inner[j]));
            }
        }
        assert forall|x: Seq<char>| #[trigger] out.contains(x) <==> set.contains(x) || x == t by {
            if out.contains(x) {
                let k = choose|k: int| 0 <= k < out.len() && out[k] == x;
                if k < inner.len() {
                    assert(inner[k] == x);
                    assert(inner.contains(x));
                    if front.contains(x) {
                        let m = choose|m: int| 0 <= m < front.len() && front[m] == x;
                        assert(set[m] == x);
                    }
                } else {
                    assert(set[set.len() - 1] == x);
                }
            }
            if set.contains(x) || x == t {
                if x == last {
                    assert(out[inner.len() as int] == x);
                } else {
                    if set.contains(x) {
                        let m = choose|m: int| 0 <= m < set.len() && set[m] == x;
                        assert(front[m] == x);
                    }
                    assert(inner.contains(x));
                    let k = choose|k: int| 0 <= k < inner.len() && inner[k] == x;
                    assert(out[k] == x);
                }
            }
        }
    }
}

/// [`text_set`] is in ascending order and holds exactly the given texts.
pub proof fn lemma_text_set(s: Seq<Seq<char>>)
    ensures
        ascending(text_set(s)),
        forall|x: Seq<char>| #[trigger] text_set(s).contains(x) <==> s.contains(x),
    decreases s.len(),
{
    if s.len() > 0 {
        let front = s.drop_last();
        lemma_text_set(front);
        lemma_insert_text(text_set(front), s.last());
        assert forall|x: Seq<char>| #[trigger] text_set(s).contains(x) <==> s.contains(x) by {
            if s.contains(x) {
                let k = choose|k: int| 0 <= k < s.len() && s[k] == x;
                if k < front.len() {
                    assert(front[k] == x);
                }
            }
            if front.contains(x) {
                let k = choose|k: int| 0 <= k < front.len() && front[k] == x;
                assert(s[k] == x);
            }
            assert(s[s.len() - 1] == s.last());
        }
    }
}

/// Ascending texts are determined by which texts they are.
pub proof fn lemma_ascending_unique(a: Seq<Seq<char>>, b: Seq<Seq<char>>)
    requires
        ascending(a),
        ascending(b),
        forall|x: Seq<char>| #[trigger] a.contains(x) <==> b.contains(x),
    ensures
        a == b,
    decreases a.len() + b.len(),
{
    if a.len() == 0 || b.len() == 0 {
        if a.len() > 0 {
            assert(a.contains(a[0]));
        }
        if b.len() > 0 {
            assert(b.contains(b[0]));
            assert(a.contains(b[0]));
        }
        assert(a =~= b);
    } else {
        assert(a.contains(a[a.len() - 1]));
        assert(b.contains(b[b.len() - 1]));
        let i = choose|i: int| 0 <= i < b.len() && b[i] == a.last();
        assert(a.contains(b.last()));
        let j = choose|j: int| 0 <= j < a.len() && a[j] == b.last();
        if a.last() != b.last() {
            assert(text_less(b[i], b[b.len() - 1]));
            assert(text_less(a[j], a[a.len() - 1]));
            lemma_less_transitive(a.last(), b.last(), a.last());
            lemma_less_irreflexive(a.last());
        }
        let x = a.drop_last();
        let y = b.drop_last();
        assert forall|t: Seq<char>| #[trigger] x.contains(t) <==> y.contains(t) by {
            if x.contains(t) {
                let k = choose|k: int| 0 <= k < x.len() && x[k] == t;
                assert(text_less(a[k], a[a.len() - 1]));
                lemma_less_irreflexive(t);
                assert(a.contains(t));
                let m = choose|m: int| 0 <= m < b.len() && b[m] == t;
                assert(y[m] == t);
            }
            if y.contains(t) {
                let k = choose|k: int| 0 <= k < y.len() && y[k] == t;
                assert(text_less(b[k], b[b.len() - 1]));
                lemma_less_irreflexive(t);
                assert(b.contains(t));
                assert(a.contains(t));
                let m = choose|m: int| 0 <= m < a.len() && a[m] == t;
                assert(x[m] == t);
            }
        }
        lemma_ascending_unique(x, y);
        assert(a =~= x.push(a.last()));
        assert(b =~= y.push(b.last()));
    }
}

/// Put a text into ascending texts.
pub fn insert_sorted(set: &mut Vec<String>, t: &str)
    ensures
        views(final(set)@) == insert_text(views(old(set)@), t@),
{
    let ghost before = views(set@);
    let mut at: usize = set.len();
    assert(before.take(at as int) =~= before);
    assert(insert_text(before, t@) + before.skip(at as int) =~= insert_text(before, t@));
    while at > 0 && !less(set[at - 1].as_str(), t)
        invariant
            at <= set@.len(),
            before == views(set@),
            insert_text(before, t@) == insert_text(before.take(at as int), t@) + before.skip(
                at as int,
            ),
        decreases at,
    {
        let ghost head = before.take(at as int);
        assert(head.last() == set@[at - 1]@);
        if same(set[at - 1].as_str(), t) {
            assert(head + before.skip(at as int) =~= before);
            return;
        }
        proof {
            assert(head.drop_last() =~= before.take(at - 1));
            assert(insert_text(head.drop_last(), t@).push(head.last()) + before.skip(at as int)
                =~= insert_text(before.take(at - 1), t@) + before.skip(at - 1));
        }
        at -= 1;
    }
    proof {
        if at > 0 {
            assert(before.take(at as int).last() == set@[at - 1]@);
        }
        assert(insert_text(before.take(at as int), t@) == before.take(at as int).push(t@));
    }
    set.insert(at, owned(t));
    assert(views(set@) =~= before.take(at as int).push(t@) + before.skip(at as int));
}

/// The given texts in ascending order, each once.
pub fn sorted_set(items: &[String]) -> (out: Vec<String>)
    ensures
        views(out@) == text_set(views(items@)),
{
    let mut out: Vec<String> = Vec::new();
    let mut i: usize = 0;
    let ghost all = views(items@);
    assert(all.take(0) =~= Seq::empty());
    assert(views(out@) =~= Seq::empty());
    while i < items.len()
        invariant
            i <= items@.len(),
            all == views(items@),
            views(out@) == text_set(all.take(i as int)),
        decreases items@.len() - i,
    {
        assert(all.take(i + 1).drop_last() =~= all.take(i as int));
        insert_sorted(&mut out, items[i].as_str());
        i += 1;
    }
    assert(all.take(i as int) =~= all);
    out
}

/// Whether every character is an ASCII character.
pub open spec fn is_ascii_text(s: Seq<char>) -> bool {
    forall|i: int| 0 <= i < s.len() ==> (#[trigger] s[i] as u32) < 128
}

/// The lower-case form of an ASCII character; other characters unchanged.
pub open spec fn ascii_lower(c: char) -> char {
    if 'A' <= c <= 'Z' {
        (c as int + 32) as char
    } else {
        c
    }
}

/// The upper-case form of an ASCII character; other characters unchanged.
pub open spec fn ascii_upper(c: char) -> char {
    if 'a' <= c <= 'z' {
        (c as int - 32) as char
    } else {
        c
    }
}

/// Whether a character is an ASCII letter or digit.
pub open spec fn is_ascii_word(c: char) -> bool {
    ('a' <= c <= 'z') || ('A' <= c <= 'Z') || ('0' <= c <= '9')
}

/// What `str::to_lowercase` makes of a text.
pub uninterp spec fn lowercase_of(s: Seq<char>) -> Seq<char>;

/// `str::to_lowercase`: the Unicode lower-case form of a text, which for
/// ASCII text is the text with each letter in its ASCII lower-case form.
#[verifier::external_body]
fn lowercase(s: &str) -> (out: String)
    ensures
        out@ == lowercase_of(s@),
        is_ascii_text(s@) ==> out@ == s@.map_values(|c: char| ascii_lower(c)),
{
    s.to_lowercase()
}

/// What `char::to_uppercase` makes of a character.
pub uninterp spec fn uppercase_of(c: char) -> Seq<char>;

/// `char::to_uppercase`: the Unicode upper-case form of a character, which
/// for an ASCII character is its ASCII upper-case form.
#[verifier::external_body]
fn uppercase(c: char) -> (out: String)
    ensures
        out@ == uppercase_of(c),
        (c as u32) < 128 ==> out@ == seq![ascii_upper(c)],
{
    c.to_uppercase().collect()
}

/// What `char::is_alphanumeric` says of a character.
pub uninterp spec fn is_word_char(c: char) -> bool;

/// `char::is_alphanumeric`: whether Unicode calls a character alphabetic or
/// numeric, which of the ASCII characters are the letters and digits.
#[verifier::external_body]
fn is_alphanumeric(c: char) -> (yes: bool)
    ensures
        yes == is_word_char(c),
        (c as u32) < 128 ==> yes == is_ascii_word(c),
{
    c.is_alphanumeric()
}

/// The lower-case form of a text.
pub open spec fn lower_text(s: Seq<char>) -> Seq<char> {
    if is_ascii_text(s) {
        s.map_values(|c: char| ascii_lower(c))
    } else {
        lowercase_of(s)
    }
}

/// The lower-case form of a text.
pub fn to_lower(s: &str) -> (out: String)
    ensures
        out@ == lower_text(s@),
{
    lowercase(s)
}

/// The upper-case form of a character.
pub open spec fn upper_char(c: char) -> Seq<char> {
    if (c as u32) < 128 {
        seq![ascii_upper(c)]
    } else {
        uppercase_of(c)
    }
}

/// The upper-case form of a character.
pub fn to_upper(c: char) -> (out: String)
    ensures
        out@ == upper_char(c),
{
    uppercase(c)
}

/// Whether a character belongs to a word.
pub open spec fn is_word(c: char) -> bool {
    if (c as u32) < 128 {
        is_ascii_word(c)
    } else {
        is_word_char(c)
    }
}

/// Whether a character belongs to a word.
pub fn in_word(c: char) -> (yes: bool)
    ensures
        yes == is_word(c),
{
    is_alphanumeric(c)
}

/// The lower-case form of an ASCII character; other characters unchanged.
pub fn lower_ascii(c: char) -> (out: char)
    ensures
        out == ascii_lower(c),
{
    if 'A' <= c && c <= 'Z' {
        ((c as u8) + 32) as char
    } else {
        c
    }
}

/// The text that `{:?}` shows for a string.
pub uninterp spec fn debug_of(s: Seq<char>) -> Seq<char>;

/// The `Debug` form of a string: the string in double quotes, escaped.
#[verifier::external_body]
pub(crate) fn debug(s: &str) -> (out: String)
    ensures
        out@ == debug_of(s@),
{
    format!("{s:?}")
}

/// The white space of Unicode, by its numbers.
pub open spec fn white_space() -> Seq<int> {
    seq![
        0x9,
        0xa,
        0xb,
        0xc,
        0xd,
        0x20,
        0x85,
        0xa0,
        0x1680,
        0x2000,
        0x2001,
        0x2002,
        0x2003,
        0x2004,
        0x2005,
        0x2006,
        0x2007,
        0x2008,
        0x2009,
        0x200a,
        0x2028,
        0x2029,
        0x202f,
        0x205f,
        0x3000,
    ]
}

/// White space is what Unicode calls so, and nothing else.
pub proof fn law_white_space_is_that_of_unicode(c: char)
    ensures
        is_white(c) <==> exists|k: int|
            0 <= k < white_space().len() && #[trigger] white_space()[k] == c as int,
{
    let w = white_space();
    let v = c as int;
    if is_white(c) {
        assert(w[0] == 0x9 && w[1] == 0xa && w[2] == 0xb && w[3] == 0xc && w[4] == 0xd && w[5]
            == 0x20 && w[6] == 0x85 && w[7] == 0xa0 && w[8] == 0x1680);
        assert(w[9] == 0x2000 && w[10] == 0x2001 && w[11] == 0x2002 && w[12] == 0x2003 && w[13]
            == 0x2004 && w[14] == 0x2005 && w[15] == 0x2006 && w[16] == 0x2007 && w[17] == 0x2008
            && w[18] == 0x2009 && w[19] == 0x200a);
        assert(w[20] == 0x2028 && w[21] == 0x2029 && w[22] == 0x202f && w[23] == 0x205f && w[24]
            == 0x3000);
    }
}

/// Whether a text is white space alone.
pub open spec fn all_white(s: Seq<char>) -> bool {
    forall|i: int| 0 <= i < s.len() ==> is_white(#[trigger] s[i])
}

/// Whether a text has no white space around it.
pub open spec fn stands_free(s: Seq<char>) -> bool {
    s.len() > 0 ==> !is_white(s[0]) && !is_white(s[s.len() - 1])
}

/// Taking trailing white space off leaves a prefix of the text, and what goes
/// is white space alone.
pub proof fn lemma_end_parts(s: Seq<char>)
    ensures
        trimmed_end(s).len() <= s.len(),
        s.take(trimmed_end(s).len() as int) == trimmed_end(s),
        all_white(s.skip(trimmed_end(s).len() as int)),
        trimmed_end(s).len() > 0 ==> !is_white(trimmed_end(s).last()),
    decreases s.len(),
{
    if s.len() > 0 && is_white(s.last()) {
        lemma_end_parts(s.drop_last());
        let n = trimmed_end(s).len() as int;
        assert(s.take(n) =~= s.drop_last().take(n));
        assert forall|i: int| 0 <= i < s.skip(n).len() implies is_white(#[trigger] s.skip(n)[i]) by {
            if i < s.drop_last().skip(n).len() {
                assert(s.drop_last().skip(n)[i] == s.skip(n)[i]);
            }
        }
    } else {
        assert(s.take(s.len() as int) =~= s);
    }
}

/// Taking leading white space off leaves the rest of the text, and what goes is
/// white space alone.
pub proof fn lemma_start_parts(s: Seq<char>)
    ensures
        trimmed_start(s).len() <= s.len(),
        s.skip(s.len() - trimmed_start(s).len()) == trimmed_start(s),
        all_white(s.take(s.len() - trimmed_start(s).len())),
        trimmed_start(s).len() > 0 ==> !is_white(trimmed_start(s)[0]),
    decreases s.len(),
{
    if s.len() > 0 && is_white(s[0]) {
        let rest = s.drop_first();
        lemma_start_parts(rest);
        let n = s.len() - trimmed_start(s).len();
        assert(s.skip(n) =~= rest.skip(n - 1));
        assert forall|i: int| 0 <= i < s.take(n).len() implies is_white(#[trigger] s.take(n)[i]) by {
            if i > 0 {
                assert(rest.take(n - 1)[i - 1] == s.take(n)[i]);
            }
        }
    } else {
        assert(s.skip(0) =~= s);
    }
}

/// The two pieces that trimming takes off a text.
pub open spec fn margins(s: Seq<char>) -> (Seq<char>, Seq<char>) {
    let end = trimmed_end(s);
    (end.take(end.len() - trimmed(s).len()), s.skip(end.len() as int))
}

/// Trimming takes off white space alone, and all of it: a text is white space,
/// its trimmed form and white space again, and the trimmed form has none at
/// either end.
pub proof fn law_trimming_takes_white_space_off(s: Seq<char>)
    ensures
        s == margins(s).0 + trimmed(s) + margins(s).1,
        all_white(margins(s).0),
        all_white(margins(s).1),
        stands_free(trimmed(s)),
{
    lemma_end_parts(s);
    let end = trimmed_end(s);
    lemma_start_parts(end);
    let n = end.len() - trimmed(s).len();
    assert(end =~= end.take(n) + trimmed(s));
    assert(s =~= end + s.skip(end.len() as int));
    assert(s =~= margins(s).0 + trimmed(s) + margins(s).1);
    if trimmed(s).len() > 0 {
        assert(trimmed(s).last() == end.last());
    }
}

/// White space around a text without white space around it is what trimming
/// takes off.
pub proof fn law_trimming_gives_the_text_back(a: Seq<char>, t: Seq<char>, b: Seq<char>)
    requires
        all_white(a),
        stands_free(t),
        all_white(b),
    ensures
        trimmed(a + t + b) == t,
{
    lemma_end_off(a + t, b);
    if t.len() == 0 {
        assert(a + t =~= Seq::<char>::empty() + a);
        lemma_end_off(Seq::empty(), a);
        assert(trimmed_start(Seq::<char>::empty()) =~= t);
    } else {
        assert((a + t).last() == t.last());
        assert(trimmed_end(a + t) == a + t);
        lemma_start_off(a, t);
    }
}

/// White space at the end goes.
pub proof fn lemma_end_off(s: Seq<char>, b: Seq<char>)
    requires
        all_white(b),
    ensures
        trimmed_end(s + b) == trimmed_end(s),
    decreases b.len(),
{
    if b.len() == 0 {
        assert(s + b =~= s);
    } else {
        assert forall|i: int| 0 <= i < b.drop_last().len() implies is_white(
            #[trigger] b.drop_last()[i],
        ) by {
            assert(b.drop_last()[i] == b[i]);
        }
        lemma_end_off(s, b.drop_last());
        assert((s + b).drop_last() =~= s + b.drop_last());
        assert((s + b).last() == b[b.len() - 1]);
    }
}

/// White space at the start goes.
pub proof fn lemma_start_off(a: Seq<char>, t: Seq<char>)
    requires
        all_white(a),
        t.len() > 0,
        !is_white(t[0]),
    ensures
        trimmed_start(a + t) == t,
    decreases a.len(),
{
    if a.len() == 0 {
        assert(a + t =~= t);
    } else {
        assert forall|i: int| 0 <= i < a.drop_first().len() implies is_white(
            #[trigger] a.drop_first()[i],
        ) by {
            assert(a.drop_first()[i] == a[i + 1]);
        }
        lemma_start_off(a.drop_first(), t);
        assert((a + t).drop_first() =~= a.drop_first() + t);
        assert((a + t)[0] == a[0]);
    }
}

/// A text has the lines that line feeds end. One carriage return before a line
/// feed goes with it, and no other does; a last line needs no line feed, and
/// keeps a carriage return that it ends with.
pub proof fn law_line_feeds_end_lines(line: Seq<char>, rest: Seq<char>)
    requires
        !line.contains('\n'),
    ensures
        line.len() == 0 || line.last() != '\r' ==> text_lines(line + seq!['\n'] + rest) == seq![
            line,
        ] + text_lines(rest),
        text_lines(line + seq!['\r', '\n'] + rest) == seq![line] + text_lines(rest),
        text_lines(line) == if line.len() == 0 {
            Seq::empty()
        } else {
            seq![line]
        },
{
    let ended = line.push('\r');
    assert(!ended.contains('\n')) by {
        if ended.contains('\n') {
            let i = ended.index_of('\n');
            assert(line[i] == '\n');
        }
    }
    lemma_ended_line(line);
    lemma_ended_line(ended);
    lemma_lines_join(line.push('\n'), rest);
    assert(line + seq!['\n'] + rest =~= line.push('\n') + rest);
    assert(ended.drop_last() =~= line);
    lemma_lines_join(ended.push('\n'), rest);
    assert(line + seq!['\r', '\n'] + rest =~= ended.push('\n') + rest);
    lemma_one_piece(line, '\n');
    assert(seq![line].drop_last() =~= Seq::empty());
    assert(text_lines(line) =~= if line.len() == 0 {
        Seq::empty()
    } else {
        seq![line]
    });
}

proof fn lemma_ended_line(line: Seq<char>)
    requires
        !line.contains('\n'),
    ensures
        text_lines(line.push('\n')) == seq![without_return(line)],
{
    assert(line.push('\n') =~= line.push('\n') + Seq::empty());
    lemma_pieces_join(line, Seq::empty(), '\n');
    lemma_one_piece(line, '\n');
    assert(pieces(Seq::empty(), '\n') =~= seq![Seq::<char>::empty()]);
    assert(pieces(line.push('\n'), '\n').drop_last() =~= seq![line]);
    assert(text_lines(line.push('\n')) =~= seq![without_return(line)]);
}

/// A part is looked for from the front: the place found is the first one, and
/// where none is found the part stands nowhere.
pub proof fn law_the_first_place_counts(s: Seq<char>, part: Seq<char>, from: int)
    requires
        0 <= from,
    ensures
        match first_from(s, part, from) {
            Some(at) => {
                &&& from <= at
                &&& at + part.len() <= s.len()
                &&& s.subrange(at, at + part.len()) == part
                &&& forall|k: int| from <= k < at ==> !#[trigger] occurs_at(s, part, k)
            },
            None => forall|k: int| from <= k ==> !#[trigger] occurs_at(s, part, k),
        },
    decreases s.len() + 1 - from,
{
    if from + part.len() <= s.len() && !occurs_at(s, part, from) {
        law_the_first_place_counts(s, part, from + 1);
    }
}

/// A text is cut at the first separator: what stands before it, the separator
/// and what stands behind it make up the text.
pub proof fn law_texts_are_cut_at_the_first_separator(s: Seq<char>, sep: Seq<char>)
    ensures
        match cut_once(s, sep) {
            Some((head, tail)) => {
                &&& s == head + sep + tail
                &&& forall|k: int| 0 <= k < head.len() ==> !#[trigger] occurs_at(s, sep, k)
            },
            None => !has_part(s, sep),
        },
{
    law_the_first_place_counts(s, sep, 0);
    match first_from(s, sep, 0) {
        Some(at) => {
            assert(s =~= s.take(at) + s.subrange(at, at + sep.len()) + s.skip(at + sep.len()));
        },
        None => {
            if has_part(s, sep) {
                let at = choose|at: int| occurs_at(s, sep, at);
                assert(occurs_at(s, sep, at));
            }
        },
    }
}

/// Texts are joined with a separator between each two of them and none around
/// them.
pub proof fn law_separators_stand_between(
    a: Seq<Seq<char>>,
    b: Seq<Seq<char>>,
    part: Seq<char>,
    sep: Seq<char>,
)
    ensures
        joined(Seq::empty(), sep) == Seq::<char>::empty(),
        joined(seq![part], sep) == part,
        a.len() > 0 && b.len() > 0 ==> joined(a + b, sep) == joined(a, sep) + sep + joined(b, sep),
    decreases b.len(),
{
    if a.len() > 0 && b.len() > 0 {
        assert((a + b).drop_last() =~= a + b.drop_last());
        assert((a + b).last() == b.last());
        if b.len() > 1 {
            law_separators_stand_between(a, b.drop_last(), part, sep);
            assert(joined(a + b, sep) =~= joined(a, sep) + sep + joined(b, sep));
        } else {
            assert(a + b.drop_last() =~= a);
        }
    }
}

/// The pieces of a text are what its separators leave: none holds one, and
/// joined by it they are the text.
pub proof fn law_pieces_make_up_the_text(s: Seq<char>, sep: char)
    ensures
        pieces(s, sep).len() > 0,
        joined(pieces(s, sep), seq![sep]) == s,
        forall|i: int| 0 <= i < pieces(s, sep).len() ==> !(#[trigger] pieces(s, sep)[i]).contains(sep),
    decreases s.len(),
{
    let found = pieces(s, sep);
    if s.len() > 0 {
        let front = s.drop_last();
        let before = pieces(front, sep);
        law_pieces_make_up_the_text(front, sep);
        assert(front.push(s.last()) =~= s);
        if s.last() == sep {
            assert(found.drop_last() =~= before);
            assert(joined(found, seq![sep]) =~= s);
            assert forall|i: int| 0 <= i < found.len() implies !(#[trigger] found[i]).contains(
                sep,
            ) by {
                if i < before.len() {
                    assert(found[i] == before[i]);
                }
            }
        } else {
            let rest = before.drop_last();
            assert(found.drop_last() =~= rest);
            assert(found.last() == before.last().push(s.last()));
            if before.len() > 1 {
                assert(joined(before, seq![sep]) == joined(rest, seq![sep]) + seq![sep]
                    + before.last());
                assert(joined(found, seq![sep]) =~= joined(before, seq![sep]).push(s.last()));
            } else {
                assert(before[0] == before.last());
                assert(found[0] == found.last());
            }
            assert forall|i: int| 0 <= i < found.len() implies !(#[trigger] found[i]).contains(
                sep,
            ) by {
                if i < rest.len() {
                    assert(found[i] == before[i]);
                } else {
                    let old_last = before[before.len() - 1];
                    assert(found[i] == old_last.push(s.last()));
                    if found[i].contains(sep) {
                        let k = choose|k: int| 0 <= k < found[i].len() && found[i][k] == sep;
                        assert(old_last[k] == sep);
                        assert(old_last.contains(sep));
                    }
                }
            }
        }
    } else {
        assert(found =~= seq![Seq::<char>::empty()]);
    }
}

/// Every place where a text stands is replaced, from the front on, and nothing
/// else is.
pub proof fn law_every_place_is_replaced(
    head: Seq<char>,
    from: Seq<char>,
    tail: Seq<char>,
    to: Seq<char>,
)
    requires
        from.len() > 0,
    ensures
        (forall|k: int|
            0 <= k < head.len() ==> !#[trigger] occurs_at(head + from + tail, from, k))
            ==> replaced(head + from + tail, from, to) == head + to + replaced(tail, from, to),
        !has_part(head, from) ==> replaced(head, from, to) == head,
    decreases head.len(),
{
    let s = head + from + tail;
    if head.len() == 0 {
        assert(s.take(from.len() as int) =~= from);
        assert(s.skip(from.len() as int) =~= tail);
        assert(head + to + replaced(tail, from, to) =~= to + replaced(tail, from, to));
    } else {
        let rest = head.drop_first();
        law_every_place_is_replaced(rest, from, tail, to);
        assert(s.drop_first() =~= rest + from + tail);
        assert(s[0] == head[0]);
        if forall|k: int| 0 <= k < head.len() ==> !#[trigger] occurs_at(s, from, k) {
            assert(!occurs_at(s, from, 0));
            if from.is_prefix_of(s) {
                assert(s.subrange(0, from.len() as int) =~= from);
            }
            assert forall|k: int| 0 <= k < rest.len() implies !#[trigger] occurs_at(
                rest + from + tail,
                from,
                k,
            ) by {
                if occurs_at(rest + from + tail, from, k) {
                    assert(s.subrange(k + 1, k + 1 + from.len()) =~= (rest + from + tail).subrange(
                        k,
                        k + from.len(),
                    ));
                    assert(occurs_at(s, from, k + 1));
                }
            }
            assert(seq![s[0]] + (rest + to + replaced(tail, from, to)) =~= head + to + replaced(
                tail,
                from,
                to,
            ));
        }
        if !has_part(head, from) {
            if from.is_prefix_of(head) {
                assert(head.subrange(0, from.len() as int) =~= from);
                assert(occurs_at(head, from, 0));
            }
            if has_part(rest, from) {
                let k = choose|k: int| occurs_at(rest, from, k);
                assert(head.subrange(k + 1, k + 1 + from.len()) =~= rest.subrange(
                    k,
                    k + from.len(),
                ));
                assert(occurs_at(head, from, k + 1));
            }
            assert(seq![head[0]] + rest =~= head);
        }
    }
}

/// A text repeated is the text that often, one behind the other.
pub proof fn law_repetitions_follow_each_other(s: Seq<char>, m: nat, n: nat)
    ensures
        repeated(s, 0) == Seq::<char>::empty(),
        repeated(s, 1) == s,
        repeated(s, m + n) == repeated(s, m) + repeated(s, n),
    decreases n,
{
    reveal_with_fuel(repeated, 2);
    assert(repeated(s, 1) =~= s);
    if n == 0 {
        assert(repeated(s, m) + repeated(s, 0) =~= repeated(s, m));
    } else {
        law_repetitions_follow_each_other(s, m, (n - 1) as nat);
        assert(repeated(s, (m + n) as nat) == repeated(s, (m + n - 1) as nat) + s);
        assert(repeated(s, m) + repeated(s, n) =~= repeated(s, m) + repeated(s, (n - 1) as nat) + s);
    }
}

/// The number that digits write down.
pub open spec fn value_of(digits: Seq<char>) -> int
    decreases digits.len(),
{
    if digits.len() == 0 {
        0
    } else {
        value_of(digits.drop_last()) * 10 + (digits.last() as int - '0' as int)
    }
}

/// The decimal form of a number is digits that write the number down, without
/// a zero in front unless the number is zero.
pub proof fn law_decimals_write_the_number_down(n: nat)
    ensures
        value_of(decimal_of(n)) == n,
        decimal_of(n).len() > 0,
        n > 0 ==> decimal_of(n)[0] != '0',
        n == 0 ==> decimal_of(n) == seq!['0'],
        forall|i: int| 0 <= i < decimal_of(n).len() ==> '0' <= #[trigger] decimal_of(n)[i] <= '9',
    decreases n,
{
    reveal_with_fuel(value_of, 2);
    if n < 10 {
        assert(decimal_of(n).drop_last() =~= Seq::empty());
    } else {
        law_decimals_write_the_number_down(n / 10);
        let front = decimal_of(n / 10);
        let all = decimal_of(n);
        assert(all.drop_last() =~= front);
        assert(all[0] == front[0]);
        assert(all.last() == digit_char((n % 10) as int));
    }
}

proof fn lemma_zeros_value(k: nat, digits: Seq<char>)
    ensures
        value_of(repeated(seq!['0'], k) + digits) == value_of(digits),
        repeated(seq!['0'], k).len() == k,
    decreases digits.len(), k,
{
    let zeros = repeated(seq!['0'], k);
    if digits.len() > 0 {
        lemma_zeros_value(k, digits.drop_last());
        assert((zeros + digits).drop_last() =~= zeros + digits.drop_last());
    } else if k > 0 {
        lemma_zeros_value((k - 1) as nat, digits);
        assert(zeros + digits =~= zeros);
        assert(zeros.drop_last() =~= repeated(seq!['0'], (k - 1) as nat));
        assert(repeated(seq!['0'], (k - 1) as nat) + digits =~= repeated(
            seq!['0'],
            (k - 1) as nat,
        ));
    } else {
        assert(zeros + digits =~= digits);
    }
}

/// A padded number is the number in as many digits as asked for, or in as many
/// as it needs.
pub proof fn law_padding_keeps_the_number(n: nat, width: nat)
    ensures
        value_of(padded_decimal(n, width)) == n,
        padded_decimal(n, width).len() == if decimal_of(n).len() < width {
            width
        } else {
            decimal_of(n).len()
        },
{
    law_decimals_write_the_number_down(n);
    if decimal_of(n).len() < width {
        lemma_zeros_value((width - decimal_of(n).len()) as nat, decimal_of(n));
    }
}

/// Texts are ordered by the first character in which they differ; one that the
/// other goes on from comes first.
pub proof fn law_texts_are_ordered_by_their_first_difference(
    common: Seq<char>,
    a: Seq<char>,
    b: Seq<char>,
    x: char,
    y: char,
)
    requires
        x != y,
    ensures
        text_less(common + seq![x] + a, common + seq![y] + b) <==> x < y,
        text_less(common, common + seq![x] + a),
        !text_less(common + a, common),
        !text_less(common, common),
    decreases common.len(),
{
    if common.len() == 0 {
        assert((common + seq![x] + a)[0] == x);
        assert((common + seq![y] + b)[0] == y);
    } else {
        let rest = common.drop_first();
        law_texts_are_ordered_by_their_first_difference(rest, a, b, x, y);
        assert((common + seq![x] + a).drop_first() =~= rest + seq![x] + a);
        assert((common + seq![y] + b).drop_first() =~= rest + seq![y] + b);
        assert((common + a).drop_first() =~= rest + a);
    }
}

/// A capital letter of ASCII has the small letter of the same place in the
/// alphabet as its lower-case form, and the other way round; no other character
/// has a form but itself.
pub proof fn law_ascii_letters_have_two_forms(c: char)
    ensures
        'A' <= c <= 'Z' ==> 'a' <= ascii_lower(c) <= 'z' && ascii_lower(c) as int - 'a' as int == c
            as int - 'A' as int && ascii_upper(ascii_lower(c)) == c && ascii_upper(c) == c,
        'a' <= c <= 'z' ==> 'A' <= ascii_upper(c) <= 'Z' && ascii_upper(c) as int - 'A' as int == c
            as int - 'a' as int && ascii_lower(ascii_upper(c)) == c && ascii_lower(c) == c,
        !('A' <= c <= 'Z') && !('a' <= c <= 'z') ==> ascii_lower(c) == c && ascii_upper(c) == c,
{
}

/// A text of ASCII is put into lower case letter by letter.
pub proof fn law_ascii_texts_are_lowered_letter_by_letter(s: Seq<char>, i: int)
    requires
        forall|k: int| 0 <= k < s.len() ==> (#[trigger] s[k] as u32) < 128,
        0 <= i < s.len(),
    ensures
        lower_text(s).len() == s.len(),
        'A' <= s[i] <= 'Z' ==> lower_text(s)[i] as int == s[i] as int - 'A' as int + 'a' as int,
        !('A' <= s[i] <= 'Z') ==> lower_text(s)[i] == s[i],
        'a' <= s[i] <= 'z' ==> upper_char(s[i]).len() == 1 && upper_char(s[i])[0] as int == s[i]
            as int - 'a' as int + 'A' as int,
        !('a' <= s[i] <= 'z') ==> upper_char(s[i]) == seq![s[i]],
{
    assert(is_ascii_text(s));
}

/// Of the characters of ASCII the letters and the digits make up words.
pub proof fn law_ascii_words(c: char)
    requires
        (c as u32) < 128,
    ensures
        is_word(c) <==> ('a' <= c <= 'z' || 'A' <= c <= 'Z' || '0' <= c <= '9'),
{
}

} // verus!
