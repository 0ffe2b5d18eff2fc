//! Paths as text: `/`-separated components, as Unix paths have them.
//!
//! Repeated separators, trailing separators, and `.` components other than a
//! leading one carry no meaning; a path is the sequence of what is left.

use vstd::prelude::*;
use crate::text::{chars_of, concat2, concat3, less, owned, same, split, text_between};

verus! {

use crate::text::{
    lemma_less_irreflexive, lemma_less_total, lemma_less_transitive, lemma_one_piece,
    lemma_pieces_join, lemma_pieces_nonempty, pieces, text_less, views,
};

broadcast use vstd::string::group_string_axioms;

/// One component of a path.
#[derive(Debug, Clone, PartialEq, Eq)]
pub enum Component {
    /// The root directory, `/`.
    Root,
    /// A leading `.`.
    Current,
    /// `..`.
    Parent,
    /// A name.
    Normal(String),
}

/// The model of a [`Component`].
pub enum Part {
    Root,
    Current,
    Parent,
    Normal(Seq<char>),
}

impl View for Component {
    type V = Part;

    open spec fn view(&self) -> Part {
        match *self {
            Component::Root => Part::Root,
            Component::Current => Part::Current,
            Component::Parent => Part::Parent,
            Component::Normal(name) => Part::Normal(name@),
        }
    }
}

/// The components that the pieces between separators make up.
pub open spec fn parts_of(pieces: Seq<Seq<char>>) -> Seq<Part>
    decreases pieces.len(),
{
    if pieces.len() == 0 {
        Seq::empty()
    } else {
        let before = parts_of(pieces.drop_last());
        let last = pieces.last();
        if last.len() == 0 || last == "."@ {
            before
        } else if last == ".."@ {
            before.push(Part::Parent)
        } else {
            before.push(Part::Normal(last))
        }
    }
}

/// What a path starts with: the root, a leading `.`, or neither.
pub open spec fn lead_of(path: Seq<char>) -> Seq<Part> {
    if path.len() > 0 && path[0] == '/' {
        seq![Part::Root]
    } else if pieces(path, '/')[0] == "."@ {
        seq![Part::Current]
    } else {
        Seq::empty()
    }
}

/// The components of a path.
pub open spec fn components_of(path: Seq<char>) -> Seq<Part> {
    lead_of(path) + parts_of(pieces(path, '/'))
}

/// The components of a path.
pub fn components(path: &str) -> (out: Vec<Component>)
    ensures
        views(out@) == components_of(path@),
{
    let mut out: Vec<Component> = Vec::new();
    let names = split(path, '/');
    proof {
        lemma_pieces_nonempty(path@, '/');
    }
    let ghost all = pieces(path@, '/');
    assert(all.len() == names@.len());
    assert(all[0] == names@[0]@);
    if !path.is_empty() && path.get_char(0) == '/' {
        out.push(Component::Root);
    } else if same(names[0].as_str(), ".") {
        out.push(Component::Current);
    }
    let ghost lead = lead_of(path@);
    assert(views(out@) =~= lead);
    let mut i: usize = 0;
    assert(all.take(0) =~= Seq::empty());
    assert(lead + Seq::<Part>::empty() =~= lead);
    while i < names.len()
        invariant
            i <= names@.len(),
            all == views(names@),
            views(out@) == lead + parts_of(all.take(i as int)),
        decreases names@.len() - i,
    {
        let ghost before = views(out@);
        let name = names[i].as_str();
        assert(all.take(i + 1).drop_last() =~= all.take(i as int));
        assert(all.take(i + 1).last() == name@);
        if !(name.is_empty() || same(name, ".")) {
            let part = if same(name, "..") {
                Component::Parent
            } else {
                Component::Normal(owned(name))
            };
            out.push(part);
            assert(views(out@) =~= before.push(part@));
        }
        i += 1;
        assert(views(out@) =~= lead + parts_of(all.take(i as int)));
    }
    assert(all.take(i as int) =~= all);
    out
}

/// Whether two components are the same.
pub fn same_component(a: &Component, b: &Component) -> (yes: bool)
    ensures
        yes == (a@ == b@),
{
    match (a, b) {
        (Component::Root, Component::Root) => true,
        (Component::Current, Component::Current) => true,
        (Component::Parent, Component::Parent) => true,
        (Component::Normal(x), Component::Normal(y)) => same(x.as_str(), y.as_str()),
        _ => false,
    }
}

/// Whether two paths have the same components.
pub fn same_path(a: &str, b: &str) -> (yes: bool)
    ensures
        yes == (components_of(a@) == components_of(b@)),
{
    let x = components(a);
    let y = components(b);
    assert(components_of(a@).len() == x@.len());
    assert(components_of(b@).len() == y@.len());
    x.len() == y.len() && has_prefix(&x, &y)
}

fn has_prefix(path: &Vec<Component>, base: &Vec<Component>) -> (yes: bool)
    ensures
        yes == views(base@).is_prefix_of(views(path@)),
        yes && path@.len() == base@.len() ==> views(path@) == views(base@),
        views(path@) == views(base@) ==> yes,
{
    let ghost p = views(path@);
    let ghost b = views(base@);
    if base.len() > path.len() {
        return false;
    }
    let mut i: usize = 0;
    while i < base.len()
        invariant
            i <= base@.len() <= path@.len(),
            p == views(path@),
            b == views(base@),
            forall|j: int| 0 <= j < i ==> p[j] == b[j],
        decreases base@.len() - i,
    {
        if !same_component(&path[i], &base[i]) {
            proof {
                assert(p[i as int] != b[i as int]);
                if b.is_prefix_of(p) {
                    assert(p.subrange(0, b.len() as int)[i as int] == b[i as int]);
                }
            }
            return false;
        }
        i += 1;
    }
    assert(p.subrange(0, b.len() as int) =~= b);
    assert(path@.len() == base@.len() ==> p =~= b);
    true
}

/// Whether a path lies at or below `base`.
pub open spec fn is_within(path: Seq<char>, base: Seq<char>) -> bool {
    components_of(base).is_prefix_of(components_of(path))
}

/// Whether a path lies at or below `base`.
pub fn starts_with_path(path: &str, base: &str) -> (yes: bool)
    ensures
        yes == is_within(path@, base@),
{
    has_prefix(&components(path), &components(base))
}

/// The name that a path ends with.
pub open spec fn file_name_of(path: Seq<char>) -> Option<Seq<char>> {
    let parts = components_of(path);
    if parts.len() == 0 {
        None
    } else {
        match parts.last() {
            Part::Normal(name) => Some(name),
            _ => None,
        }
    }
}

/// The name that a path ends with.
pub fn file_name(path: &str) -> (out: Option<String>)
    ensures
        crate::text::opt_view(out) == file_name_of(path@),
{
    let parts = components(path);
    if parts.len() == 0 {
        return None;
    }
    assert(components_of(path@).last() == parts@[parts@.len() - 1]@);
    match &parts[parts.len() - 1] {
        Component::Normal(name) => Some(name.clone()),
        _ => None,
    }
}

/// The last position of `c`.
pub open spec fn last_position(s: Seq<char>, c: char) -> Option<int>
    decreases s.len(),
{
    if s.len() == 0 {
        None
    } else if s.last() == c {
        Some(s.len() - 1)
    } else {
        last_position(s.drop_last(), c)
    }
}

/// The last position of `c`.
pub fn rfind(chars: &[char], c: char) -> (out: Option<usize>)
    ensures
        match out {
            Some(i) => last_position(chars@, c) == Some(i as int) && i < chars@.len(),
            None => last_position(chars@, c) is None,
        },
{
    let mut n: usize = chars.len();
    assert(chars@.take(n as int) =~= chars@);
    while n > 0
        invariant
            n <= chars@.len(),
            last_position(chars@.take(n as int), c) == last_position(chars@, c),
        decreases n,
    {
        assert(chars@.take(n as int).drop_last() =~= chars@.take(n - 1));
        if chars[n - 1] == c {
            return Some(n - 1);
        }
        n -= 1;
    }
    None
}

/// The part of a file name before its last dot, and the part after it; a dot
/// at the start of a name parts nothing.
pub open spec fn stem_and_extension(name: Seq<char>) -> (Seq<char>, Option<Seq<char>>) {
    match last_position(name, '.') {
        Some(dot) => if dot == 0 {
            (name, None)
        } else {
            (name.take(dot), Some(name.skip(dot + 1)))
        },
        None => (name, None),
    }
}

/// The part of the file name before its last dot.
pub open spec fn file_stem_of(path: Seq<char>) -> Option<Seq<char>> {
    match file_name_of(path) {
        Some(name) => Some(stem_and_extension(name).0),
        None => None,
    }
}

/// The part of the file name after its last dot.
pub open spec fn extension_of(path: Seq<char>) -> Option<Seq<char>> {
    match file_name_of(path) {
        Some(name) => stem_and_extension(name).1,
        None => None,
    }
}

/// The part of the file name before its last dot.
pub fn file_stem(path: &str) -> (out: Option<String>)
    ensures
        crate::text::opt_view(out) == file_stem_of(path@),
{
    match file_name(path) {
        None => None,
        Some(name) => {
            let chars = chars_of(name.as_str());
            match rfind(&chars, '.') {
                Some(dot) => if dot == 0 {
                    Some(name)
                } else {
                    let stem = text_between(&chars, 0, dot);
                    assert(stem@ =~= name@.take(dot as int));
                    Some(stem)
                },
                None => Some(name),
            }
        },
    }
}

/// The part of the file name after its last dot.
pub fn extension(path: &str) -> (out: Option<String>)
    ensures
        crate::text::opt_view(out) == extension_of(path@),
{
    match file_name(path) {
        None => None,
        Some(name) => {
            let chars = chars_of(name.as_str());
            let n: usize = chars.len();
            match rfind(&chars, '.') {
                Some(dot) => if dot == 0 {
                    None
                } else {
                    let ext = text_between(&chars, dot + 1, n);
                    assert(ext@ =~= name@.skip(dot + 1));
                    Some(ext)
                },
                None => None,
            }
        },
    }
}

/// A path without the separators and `.` components at its end.
pub open spec fn without_tail(path: Seq<char>) -> Seq<char>
    decreases path.len(),
{
    if path.len() > 1 && path.last() == '/' {
        without_tail(path.drop_last())
    } else if path.len() > 1 && path.last() == '.' && path[path.len() - 2] == '/' {
        without_tail(path.drop_last())
    } else {
        path
    }
}

/// The text up to and including the last separator.
pub open spec fn up_to_separator(path: Seq<char>) -> Seq<char> {
    match last_position(path, '/') {
        Some(i) => path.take(i + 1),
        None => Seq::empty(),
    }
}

/// The path without its last component; nothing for the root and for the
/// empty path.
pub open spec fn parent_of(path: Seq<char>) -> Option<Seq<char>> {
    let whole = without_tail(path);
    if whole.len() == 0 || whole == seq!['/'] {
        None
    } else {
        Some(without_tail(up_to_separator(whole)))
    }
}

fn tail_start(chars: &[char], to: usize) -> (n: usize)
    requires
        to <= chars@.len(),
    ensures
        n <= to,
        chars@.take(n as int) == without_tail(chars@.take(to as int)),
{
    let mut n: usize = to;
    while n > 1 && (chars[n - 1] == '/' || (chars[n - 1] == '.' && chars[n - 2] == '/'))
        invariant
            n <= to <= chars@.len(),
            without_tail(chars@.take(n as int)) == without_tail(chars@.take(to as int)),
        decreases n,
    {
        assert(chars@.take(n as int).drop_last() =~= chars@.take(n - 1));
        n -= 1;
    }
    n
}

/// The path without its last component.
pub fn parent(path: &str) -> (out: Option<String>)
    ensures
        crate::text::opt_view(out) == parent_of(path@),
{
    let chars = chars_of(path);
    assert(chars@.take(chars@.len() as int) =~= path@);
    let n: usize = tail_start(&chars, chars.len());
    let ghost whole = without_tail(path@);
    assert(chars@.take(n as int) == whole);
    if n == 0 {
        return None;
    }
    if n == 1 && chars[0] == '/' {
        assert(whole =~= seq!['/']);
        return None;
    }
    assert(whole != seq!['/']) by {
        if whole =~= seq!['/'] {
            assert(chars@[0] == whole[0]);
        }
    }
    let head = chars_of(text_between(&chars, 0, n).as_str());
    assert(head@ =~= whole);
    let cut: usize = match rfind(&head, '/') {
        Some(i) => i + 1,
        None => 0,
    };
    assert(head@.take(cut as int) =~= up_to_separator(whole));
    let end: usize = tail_start(&head, cut);
    let out = text_between(&head, 0, end);
    assert(out@ =~= head@.take(end as int));
    Some(out)
}

proof fn lemma_without_tail(path: Seq<char>)
    ensures
        without_tail(path).len() <= path.len(),
        without_tail(path).len() > 1 ==> without_tail(path).last() != '/',
    decreases path.len(),
{
    if path.len() > 1 && (path.last() == '/' || (path.last() == '.' && path[path.len() - 2]
        == '/')) {
        lemma_without_tail(path.drop_last());
    }
}

proof fn lemma_up_to_separator(path: Seq<char>)
    ensures
        up_to_separator(path).len() <= path.len(),
        path.len() > 0 && path.last() != '/' ==> up_to_separator(path).len() < path.len(),
    decreases path.len(),
{
    lemma_last_position(path, '/');
    if path.len() > 0 && path.last() != '/' {
        lemma_last_position(path.drop_last(), '/');
    }
}

/// The last position lies in the text.
pub proof fn lemma_last_position(s: Seq<char>, c: char)
    ensures
        last_position(s, c) matches Some(i) ==> 0 <= i < s.len() && s[i] == c,
    decreases s.len(),
{
    if s.len() > 0 && s.last() != c {
        lemma_last_position(s.drop_last(), c);
    }
}

/// A parent is shorter than what it is the parent of.
pub proof fn lemma_parent_shorter(path: Seq<char>)
    ensures
        parent_of(path) matches Some(above) ==> above.len() < path.len(),
{
    let whole = without_tail(path);
    lemma_without_tail(path);
    lemma_up_to_separator(whole);
    lemma_without_tail(up_to_separator(whole));
    if whole.len() == 1 && whole.last() == '/' {
        assert(whole =~= seq!['/']);
    }
}

/// The path of `rest` as seen from `base`.
pub open spec fn joined_path(base: Seq<char>, rest: Seq<char>) -> Seq<char> {
    if base.len() == 0 || (rest.len() > 0 && rest[0] == '/') {
        rest
    } else if base.last() == '/' {
        base + rest
    } else {
        base + "/"@ + rest
    }
}

/// The path of `rest` as seen from `base`.
pub fn join_path(base: &str, rest: &str) -> (out: String)
    ensures
        out@ == joined_path(base@, rest@),
{
    if base.is_empty() || (!rest.is_empty() && rest.get_char(0) == '/') {
        return owned(rest);
    }
    if base.get_char(base.unicode_len() - 1) == '/' {
        concat2(base, rest)
    } else {
        concat3(base, "/", rest)
    }
}

/// A path that starts inside its text, without the separators and `.`
/// components it starts with.
pub open spec fn without_lead(path: Seq<char>) -> Seq<char>
    decreases path.len(),
{
    if path.len() > 0 && path[0] == '/' {
        without_lead(path.drop_first())
    } else if path.len() > 0 && path[0] == '.' && (path.len() == 1 || path[1] == '/') {
        without_lead(path.drop_first())
    } else {
        path
    }
}

/// A path that starts inside its text, without its first name.
pub open spec fn without_name(path: Seq<char>) -> Seq<char>
    decreases path.len(),
{
    if path.len() == 0 || path[0] == '/' {
        path
    } else {
        without_name(path.drop_first())
    }
}

/// A path that starts inside its text, without its first `n` components.
pub open spec fn without_parts(path: Seq<char>, n: nat) -> Seq<char>
    decreases n,
{
    let rest = without_lead(path);
    if n == 0 {
        rest
    } else {
        without_parts(without_name(rest), (n - 1) as nat)
    }
}

/// The path below `base`, or the whole path where it does not lie there.
pub open spec fn relative_to(path: Seq<char>, base: Seq<char>) -> Seq<char> {
    let n = components_of(base).len();
    if !is_within(path, base) {
        path
    } else if n == 0 {
        without_tail(path)
    } else if lead_of(path).len() > 0 {
        without_tail(without_parts(path, (n - 1) as nat))
    } else {
        without_tail(without_parts(path, n))
    }
}

fn lead_end(chars: &[char], from: usize) -> (n: usize)
    requires
        from <= chars@.len(),
    ensures
        from <= n <= chars@.len(),
        chars@.skip(n as int) == without_lead(chars@.skip(from as int)),
{
    let mut n: usize = from;
    while n < chars.len() && (chars[n] == '/' || (chars[n] == '.' && (n + 1 == chars.len()
        || chars[n + 1] == '/')))
        invariant
            from <= n <= chars@.len(),
            without_lead(chars@.skip(n as int)) == without_lead(chars@.skip(from as int)),
        decreases chars@.len() - n,
    {
        assert(chars@.skip(n as int).drop_first() =~= chars@.skip(n + 1));
        n += 1;
    }
    n
}

fn name_end(chars: &[char], from: usize) -> (n: usize)
    requires
        from <= chars@.len(),
    ensures
        from <= n <= chars@.len(),
        chars@.skip(n as int) == without_name(chars@.skip(from as int)),
{
    let mut n: usize = from;
    while n < chars.len() && chars[n] != '/'
        invariant
            from <= n <= chars@.len(),
            without_name(chars@.skip(n as int)) == without_name(chars@.skip(from as int)),
        decreases chars@.len() - n,
    {
        assert(chars@.skip(n as int).drop_first() =~= chars@.skip(n + 1));
        n += 1;
    }
    n
}

/// The path below `base`, or the whole path where it does not lie there.
pub fn relative(path: &str, base: &str) -> (out: String)
    ensures
        out@ == relative_to(path@, base@),
{
    if !starts_with_path(path, base) {
        return owned(path);
    }
    let base_parts = components(base);
    let n: usize = base_parts.len();
    let chars = chars_of(path);
    assert(components_of(base@).len() == n);
    if n == 0 {
        assert(chars@.take(chars@.len() as int) =~= path@);
        let end: usize = tail_start(&chars, chars.len());
        let out = text_between(&chars, 0, end);
        assert(out@ =~= chars@.take(end as int));
        return out;
    }
    let names = split(path, '/');
    proof {
        lemma_pieces_nonempty(path@, '/');
        assert(names@[0]@ == pieces(path@, '/')[0]);
    }
    let led = (!path.is_empty() && path.get_char(0) == '/') || same(names[0].as_str(), ".");
    assert(led == (lead_of(path@).len() > 0));
    let mut left: usize = if led {
        n - 1
    } else {
        n
    };
    let ghost total = left;
    let mut at: usize = 0;
    assert(chars@.skip(0) =~= path@);
    while left > 0
        invariant
            at <= chars@.len(),
            left <= total,
            without_parts(chars@.skip(at as int), left as nat) == without_parts(
                path@,
                total as nat,
            ),
        decreases left,
    {
        at = lead_end(&chars, at);
        at = name_end(&chars, at);
        left -= 1;
    }
    at = lead_end(&chars, at);
    let rest = chars_of(text_between(&chars, at, chars.len()).as_str());
    assert(rest@ =~= chars@.skip(at as int));
    assert(rest@.take(rest@.len() as int) =~= rest@);
    let end: usize = tail_start(&rest, rest.len());
    let out = text_between(&rest, 0, end);
    assert(out@ =~= rest@.take(end as int));
    out
}

/// The place of a kind of component in the order of components.
pub open spec fn part_rank(p: Part) -> int {
    match p {
        Part::Root => 0,
        Part::Current => 1,
        Part::Parent => 2,
        Part::Normal(_) => 3,
    }
}

/// The order of components: by kind, names by their text.
pub open spec fn part_less(a: Part, b: Part) -> bool {
    match (a, b) {
        (Part::Normal(x), Part::Normal(y)) => text_less(x, y),
        _ => part_rank(a) < part_rank(b),
    }
}

/// The order of component sequences: by the first component in which they
/// differ, a proper prefix first.
pub open spec fn parts_less(a: Seq<Part>, b: Seq<Part>) -> bool
    decreases a.len(),
{
    if b.len() == 0 {
        false
    } else if a.len() == 0 {
        true
    } else if a[0] != b[0] {
        part_less(a[0], b[0])
    } else {
        parts_less(a.drop_first(), b.drop_first())
    }
}

/// The order of paths.
pub open spec fn path_less(a: Seq<char>, b: Seq<char>) -> bool {
    parts_less(components_of(a), components_of(b))
}

fn rank(c: &Component) -> (out: u8)
    ensures
        out as int == part_rank(c@),
{
    match c {
        Component::Root => 0,
        Component::Current => 1,
        Component::Parent => 2,
        Component::Normal(_) => 3,
    }
}

/// Whether path `a` comes before path `b`.
pub fn comes_before(a: &str, b: &str) -> (yes: bool)
    ensures
        yes == path_less(a@, b@),
{
    let x = components(a);
    let y = components(b);
    let ghost xs = views(x@);
    let ghost ys = views(y@);
    let mut i: usize = 0;
    assert(xs.skip(0) =~= xs);
    assert(ys.skip(0) =~= ys);
    while i < x.len() && i < y.len()
        invariant
            i <= x@.len(),
            i <= y@.len(),
            xs == views(x@),
            ys == views(y@),
            xs == components_of(a@),
            ys == components_of(b@),
            parts_less(xs.skip(i as int), ys.skip(i as int)) == parts_less(xs, ys),
        decreases x@.len() - i,
    {
        assert(xs.skip(i as int)[0] == x@[i as int]@);
        assert(ys.skip(i as int)[0] == y@[i as int]@);
        if !same_component(&x[i], &y[i]) {
            let (p, q) = (&x[i], &y[i]);
            assert(parts_less(xs, ys) == part_less(p@, q@));
            if let (Component::Normal(p), Component::Normal(q)) = (p, q) {
                return less(p.as_str(), q.as_str());
            }
            return rank(p) < rank(q);
        }
        assert(xs.skip(i as int).drop_first() =~= xs.skip(i + 1));
        assert(ys.skip(i as int).drop_first() =~= ys.skip(i + 1));
        i += 1;
    }
    i < y.len()
}

/// Ordered paths with `p` in its place; a path that is already there stays.
pub open spec fn insert_path(set: Seq<Seq<char>>, p: Seq<char>) -> Seq<Seq<char>>
    decreases set.len(),
{
    if set.len() == 0 || path_less(set.last(), p) {
        set.push(p)
    } else if components_of(set.last()) == components_of(p) {
        set
    } else {
        insert_path(set.drop_last(), p).push(set.last())
    }
}

/// The given paths in path order, each once.
pub open spec fn path_set(s: Seq<Seq<char>>) -> Seq<Seq<char>>
    decreases s.len(),
{
    if s.len() == 0 {
        Seq::empty()
    } else {
        insert_path(path_set(s.drop_last()), s.last())
    }
}

/// Put a path into ordered paths.
pub fn insert_ordered_path(set: &mut Vec<String>, p: &str)
    ensures
        views(final(set)@) == insert_path(views(old(set)@), p@),
{
    let ghost before = views(set@);
    let mut at: usize = set.len();
    assert(before.take(at as int) =~= before);
    assert(insert_path(before, p@) + before.skip(at as int) =~= insert_path(before, p@));
    while at > 0 && !comes_before(set[at - 1].as_str(), p)
        invariant
            at <= set@.len(),
            before == views(set@),
            insert_path(before, p@) == insert_path(before.take(at as int), p@) + before.skip(
                at as int,
            ),
        decreases at,
    {
        let ghost head = before.take(at as int);
        assert(head.last() == set@[at - 1]@);
        if same_path(set[at - 1].as_str(), p) {
            assert(head + before.skip(at as int) =~= before);
            return;
        }
        proof {
            assert(head.drop_last() =~= before.take(at - 1));
            assert(insert_path(head.drop_last(), p@).push(head.last()) + before.skip(at as int)
                =~= insert_path(before.take(at - 1), p@) + before.skip(at - 1));
        }
        at -= 1;
    }
    proof {
        if at > 0 {
            assert(before.take(at as int).last() == set@[at - 1]@);
        }
        assert(insert_path(before.take(at as int), p@) == before.take(at as int).push(p@));
    }
    set.insert(at, owned(p));
    assert(views(set@) =~= before.take(at as int).push(p@) + before.skip(at as int));
}

/// The given paths in path order, each once.
pub fn ordered_paths(items: &[String]) -> (out: Vec<String>)
    ensures
        views(out@) == path_set(views(items@)),
{
    let mut out: Vec<String> = Vec::new();
    let mut i: usize = 0;
    let ghost all = views(items@);
    assert(all.take(0) =~= Seq::empty());
    assert(views(out@) =~= Seq::empty());
    while i < items.len()
        invariant
            i <= items@.len(),
            all == views(items@),
            views(out@) == path_set(all.take(i as int)),
        decreases items@.len() - i,
    {
        assert(all.take(i + 1).drop_last() =~= all.take(i as int));
        insert_ordered_path(&mut out, items[i].as_str());
        i += 1;
    }
    assert(all.take(i as int) =~= all);
    out
}

proof fn lemma_parts_transitive(a: Seq<Part>, b: Seq<Part>, c: Seq<Part>)
    requires
        parts_less(a, b),
        parts_less(b, c),
    ensures
        parts_less(a, c),
    decreases a.len(),
{
    if a.len() > 0 && b.len() > 0 && c.len() > 0 {
        if a[0] == b[0] && b[0] == c[0] {
            lemma_parts_transitive(a.drop_first(), b.drop_first(), c.drop_first());
        } else if a[0] != b[0] && b[0] != c[0] {
            if a[0] is Normal && b[0] is Normal && c[0] is Normal {
                lemma_less_transitive(a[0]->0, b[0]->0, c[0]->0);
                if a[0] == c[0] {
                    lemma_less_irreflexive(a[0]->0);
                }
            }
        }
    }
}

proof fn lemma_parts_irreflexive(a: Seq<Part>)
    ensures
        !parts_less(a, a),
    decreases a.len(),
{
    if a.len() > 0 {
        lemma_parts_irreflexive(a.drop_first());
    }
}

proof fn lemma_parts_total(a: Seq<Part>, b: Seq<Part>)
    ensures
        a == b || parts_less(a, b) || parts_less(b, a),
    decreases a.len(),
{
    if a.len() == 0 && b.len() == 0 {
        assert(a =~= b);
    } else if a.len() > 0 && b.len() > 0 {
        if a[0] == b[0] {
            lemma_parts_total(a.drop_first(), b.drop_first());
            if a.drop_first() == b.drop_first() {
                assert(a =~= seq![a[0]] + a.drop_first());
                assert(b =~= seq![b[0]] + b.drop_first());
            }
        } else if a[0] is Normal && b[0] is Normal {
            lemma_less_total(a[0]->0, b[0]->0);
        }
    }
}

/// The order of paths is a total order on their components: of two paths with
/// different components exactly one comes first, and what comes before a path
/// comes before all that it comes before.
pub proof fn law_paths_are_ordered(a: Seq<char>, b: Seq<char>, c: Seq<char>)
    ensures
        components_of(a) == components_of(b) || path_less(a, b) || path_less(b, a),
        !(path_less(a, b) && path_less(b, a)),
        !path_less(a, a),
        path_less(a, b) && path_less(b, c) ==> path_less(a, c),
{
    lemma_parts_total(components_of(a), components_of(b));
    lemma_parts_irreflexive(components_of(a));
    if path_less(a, b) && path_less(b, a) {
        lemma_parts_transitive(components_of(a), components_of(b), components_of(a));
    }
    if path_less(a, b) && path_less(b, c) {
        lemma_parts_transitive(components_of(a), components_of(b), components_of(c));
    }
}

/// Whether paths are in path order, each once.
pub open spec fn in_path_order(s: Seq<Seq<char>>) -> bool {
    forall|i: int, j: int| 0 <= i < j < s.len() ==> path_less(#[trigger] s[i], #[trigger] s[j])
}

proof fn lemma_insert_path(set: Seq<Seq<char>>, p: Seq<char>)
    requires
        in_path_order(set),
    ensures
        in_path_order(insert_path(set, p)),
        forall|i: int|
            0 <= i < insert_path(set, p).len() ==> (#[trigger] insert_path(set, p)[i] == p
                || set.contains(insert_path(set, p)[i])),
    decreases set.len(),
{
    let out = insert_path(set, p);
    if set.len() == 0 || path_less(set.last(), p) {
        assert forall|i: int, j: int| 0 <= i < j < out.len() implies path_less(
            #[trigger] out[i],
            #[trigger] out[j],
        ) by {
            if j == set.len() && i < set.len() - 1 {
                assert(path_less(set[i], set[set.len() - 1]));
                law_paths_are_ordered(set[i], set.last(), p);
            }
        }
        assert forall|i: int| 0 <= i < out.len() implies (#[trigger] out[i] == p || set.contains(
            out[i],
        )) by {
            if i < set.len() {
                assert(set[i] == out[i]);
            }
        }
    } else if components_of(set.last()) == components_of(p) {
        assert forall|i: int| 0 <= i < out.len() implies (#[trigger] out[i] == p || set.contains(
            out[i],
        )) by {
            assert(set[i] == out[i]);
        }
    } else {
        let front = set.drop_last();
        let inner = insert_path(front, p);
        lemma_insert_path(front, p);
        law_paths_are_ordered(set.last(), p, p);
        assert forall|i: int| 0 <= i < inner.len() implies (#[trigger] inner[i] == p
            || set.contains(inner[i])) && path_less(inner[i], set.last()) by {
            if inner[i] != p {
                let k = choose|k: int| 0 <= k < front.len() && front[k] == inner[i];
                assert(front.contains(inner[i]));
                assert(set[k] == inner[i]);
                assert(path_less(set[k], set[set.len() - 1]));
            }
        }
        assert forall|i: int, j: int| 0 <= i < j < out.len() implies path_less(
            #[trigger] out[i],
            #[trigger] out[j],
        ) by {
            assert(inner[i] == out[i]);
            if j < inner.len() {
                assert(inner[j] == out[j]);
            }
        }
        assert forall|i: int| 0 <= i < out.len() implies (#[trigger] out[i] == p || set.contains(
            out[i],
        )) by {
            if i < inner.len() {
                assert(inner[i] == out[i]);
            } else {
                assert(set[set.len() - 1] == out[i]);
            }
        }
    }
}

/// What is listed in path order is in ascending order, without repeats, and
/// holds given paths alone.
pub proof fn law_path_sets_are_ordered(s: Seq<Seq<char>>)
    ensures
        in_path_order(path_set(s)),
        forall|i: int| 0 <= i < path_set(s).len() ==> s.contains(#[trigger] path_set(s)[i]),
    decreases s.len(),
{
    if s.len() > 0 {
        let front = s.drop_last();
        law_path_sets_are_ordered(front);
        lemma_insert_path(path_set(front), s.last());
        assert forall|i: int| 0 <= i < path_set(s).len() implies s.contains(
            #[trigger] path_set(s)[i],
        ) by {
            let x = path_set(s)[i];
            if x == s.last() {
                assert(s[s.len() - 1] == x);
            } else {
                let k = choose|k: int| 0 <= k < path_set(front).len() && path_set(front)[k] == x;
                assert(path_set(front).contains(x));
                assert(front.contains(path_set(front)[k]));
                let m = choose|m: int| 0 <= m < front.len() && front[m] == x;
                assert(s[m] == x);
            }
        }
    }
}

proof fn lemma_insert_keeps(set: Seq<Seq<char>>, p: Seq<char>)
    ensures
        exists|k: int|
            0 <= k < insert_path(set, p).len() && components_of(
                #[trigger] insert_path(set, p)[k],
            ) == components_of(p),
        forall|i: int|
            0 <= i < set.len() ==> insert_path(set, p).contains(#[trigger] set[i]),
    decreases set.len(),
{
    let out = insert_path(set, p);
    if set.len() == 0 || path_less(set.last(), p) {
        assert(out[set.len() as int] == p);
        assert forall|i: int| 0 <= i < set.len() implies out.contains(#[trigger] set[i]) by {
            assert(out[i] == set[i]);
        }
    } else if components_of(set.last()) == components_of(p) {
        assert(out[set.len() - 1] == set.last());
    } else {
        let front = set.drop_last();
        let inner = insert_path(front, p);
        lemma_insert_keeps(front, p);
        let k = choose|k: int|
            0 <= k < inner.len() && components_of(#[trigger] inner[k]) == components_of(p);
        assert(out[k] == inner[k]);
        assert forall|i: int| 0 <= i < set.len() implies out.contains(#[trigger] set[i]) by {
            if i < front.len() {
                assert(front[i] == set[i]);
                assert(inner.contains(front[i]));
                let m = choose|m: int| 0 <= m < inner.len() && inner[m] == set[i];
                assert(out[m] == set[i]);
            } else {
                assert(out[inner.len() as int] == set[i]);
            }
        }
    }
}

/// Nothing is lost when paths are listed in path order: each given path is
/// there, or one with the same components.
pub proof fn law_path_sets_are_complete(s: Seq<Seq<char>>, i: int)
    requires
        0 <= i < s.len(),
    ensures
        exists|k: int|
            0 <= k < path_set(s).len() && components_of(#[trigger] path_set(s)[k])
                == components_of(s[i]),
    decreases s.len(),
{
    let front = s.drop_last();
    lemma_insert_keeps(path_set(front), s.last());
    if i < front.len() {
        law_path_sets_are_complete(front, i);
        let k = choose|k: int|
            0 <= k < path_set(front).len() && components_of(#[trigger] path_set(front)[k])
                == components_of(s[i]);
        assert(path_set(s).contains(path_set(front)[k]));
        let m = choose|m: int| 0 <= m < path_set(s).len() && path_set(s)[m] == path_set(front)[k];
        assert(components_of(path_set(s)[m]) == components_of(s[i]));
    } else {
        let all = insert_path(path_set(front), s.last());
        let k = choose|k: int|
            0 <= k < all.len() && components_of(#[trigger] all[k]) == components_of(s.last());
        assert(path_set(s)[k] == all[k]);
    }
}

proof fn lemma_parts_concat(a: Seq<Seq<char>>, b: Seq<Seq<char>>)
    ensures
        parts_of(a + b) == parts_of(a) + parts_of(b),
    decreases b.len(),
{
    if b.len() == 0 {
        assert(a + b =~= a);
        assert(parts_of(a) + parts_of(b) =~= parts_of(a));
    } else {
        lemma_parts_concat(a, b.drop_last());
        assert((a + b).drop_last() =~= a + b.drop_last());
        assert(parts_of(a + b) =~= parts_of(a) + parts_of(b));
    }
}

/// The components of a path go on behind a separator: what stands before it
/// gives the first ones and what stands behind it the others.
pub proof fn lemma_components_join(base: Seq<char>, rest: Seq<char>)
    requires
        base.len() > 0,
    ensures
        components_of(base.push('/') + rest) == components_of(base) + parts_of(pieces(rest, '/')),
{
    let path = base.push('/') + rest;
    lemma_pieces_join(base, rest, '/');
    lemma_pieces_nonempty(base, '/');
    lemma_parts_concat(pieces(base, '/'), pieces(rest, '/'));
    assert(path[0] == base[0]);
    assert(pieces(path, '/')[0] == pieces(base, '/')[0]);
    assert(components_of(path) =~= components_of(base) + parts_of(pieces(rest, '/')));
}

/// Whether a text is a plain name: neither empty nor `.` nor `..`, and without
/// a separator.
pub open spec fn is_name(name: Seq<char>) -> bool {
    name.len() > 0 && name != "."@ && name != ".."@ && !name.contains('/')
}

proof fn lemma_name_parts(name: Seq<char>)
    requires
        is_name(name),
    ensures
        parts_of(pieces(name, '/')) == seq![Part::Normal(name)],
        components_of(name) == seq![Part::Normal(name)],
{
    lemma_one_piece(name, '/');
    let one = seq![name];
    assert(one.drop_last() =~= Seq::empty());
    assert(one.last() == name);
    assert(parts_of(Seq::empty()) =~= Seq::<Part>::empty());
    assert(parts_of(one) =~= seq![Part::Normal(name)]);
    if name[0] == '/' {
        assert(name.contains('/'));
    }
    assert(components_of(name) =~= seq![Part::Normal(name)]);
}

/// Going down into a directory adds one component: the name. The file name of
/// such a path is the name, and the path lies within the directory.
pub proof fn law_joining_adds_the_name(base: Seq<char>, name: Seq<char>)
    requires
        is_name(name),
    ensures
        components_of(joined_path(base, name)) == components_of(base).push(Part::Normal(name)),
        file_name_of(joined_path(base, name)) == Some(name),
        is_within(joined_path(base, name), base),
{
    reveal_strlit("/");
    reveal_strlit(".");
    lemma_name_parts(name);
    if name[0] == '/' {
        assert(name.contains('/'));
    }
    let path = joined_path(base, name);
    if base.len() == 0 {
        lemma_one_piece(base, '/');
        assert(seq![base].drop_last() =~= Seq::empty());
        assert(seq![base].last() == base);
        assert(parts_of(Seq::empty()) =~= Seq::<Part>::empty());
        assert(parts_of(seq![base]) =~= Seq::<Part>::empty());
        assert(components_of(base) =~= Seq::<Part>::empty());
        assert(components_of(path) =~= components_of(base).push(Part::Normal(name)));
    } else if base.last() == '/' {
        let front = base.drop_last();
        assert(base =~= front.push('/') + Seq::empty());
        assert(path =~= front.push('/') + name);
        lemma_empty_parts();
        if front.len() > 0 {
            lemma_components_join(front, name);
            lemma_components_join(front, Seq::empty());
            assert(components_of(path) =~= components_of(base).push(Part::Normal(name)));
        } else {
            lemma_pieces_join(front, name, '/');
            lemma_pieces_join(front, Seq::empty(), '/');
            lemma_parts_concat(pieces(front, '/'), pieces(name, '/'));
            lemma_parts_concat(pieces(front, '/'), pieces(Seq::empty(), '/'));
            assert(path[0] == '/');
            assert(components_of(path) =~= components_of(base).push(Part::Normal(name)));
        }
    } else {
        assert(path =~= base.push('/') + name);
        lemma_components_join(base, name);
        assert(components_of(path) =~= components_of(base).push(Part::Normal(name)));
    }
    let parts = components_of(path);
    assert(parts.last() == Part::Normal(name));
    assert(parts.take(components_of(base).len() as int) =~= components_of(base));
}

proof fn lemma_empty_parts()
    ensures
        parts_of(pieces(Seq::empty(), '/')) == Seq::<Part>::empty(),
{
    let none = Seq::<char>::empty();
    let one = pieces(none, '/');
    assert(one =~= seq![none]);
    assert(one.drop_last() =~= Seq::empty());
    assert(parts_of(one.drop_last()) =~= Seq::<Part>::empty());
    assert(parts_of(one) =~= Seq::<Part>::empty());
}

proof fn lemma_last_at(a: Seq<char>, c: char, b: Seq<char>)
    requires
        !b.contains(c),
    ensures
        last_position(a.push(c) + b, c) == Some(a.len() as int),
        last_position(b, c) is None,
    decreases b.len(),
{
    let s = a.push(c) + b;
    if b.len() == 0 {
        assert(s =~= a.push(c));
    } else {
        let front = b.drop_last();
        assert(b[b.len() - 1] != c);
        assert forall|i: int| 0 <= i < front.len() implies front[i] != c by {
            assert(front[i] == b[i]);
        }
        lemma_last_at(a, c, front);
        assert(s.drop_last() =~= a.push(c) + front);
    }
}

/// The extension of a name is what stands behind its last dot, and the stem is
/// what stands before that dot. A name without a dot has no extension, and a
/// dot at the start begins none.
pub proof fn law_extensions_stand_behind_the_last_dot(stem: Seq<char>, ext: Seq<char>)
    requires
        !ext.contains('.'),
    ensures
        stem.len() > 0 ==> stem_and_extension(stem.push('.') + ext) == (stem, Some(ext)),
        stem_and_extension(ext) == (ext, None::<Seq<char>>),
        stem_and_extension(seq!['.'] + ext) == (seq!['.'] + ext, None::<Seq<char>>),
{
    lemma_last_at(stem, '.', ext);
    let name = stem.push('.') + ext;
    assert(name.take(stem.len() as int) =~= stem);
    assert(name.skip(stem.len() as int + 1) =~= ext);
    lemma_last_at(Seq::empty(), '.', ext);
    assert(Seq::<char>::empty().push('.') + ext =~= seq!['.'] + ext);
}

/// Separators and dots at the end of a path carry no meaning.
pub proof fn law_tails_carry_no_meaning(path: Seq<char>)
    ensures
        components_of(without_tail(path)) == components_of(path),
    decreases path.len(),
{
    reveal_strlit(".");
    if path.len() > 1 && path.last() == '/' {
        let front = path.drop_last();
        law_tails_carry_no_meaning(front);
        assert(front.push('/') + Seq::empty() =~= path);
        lemma_components_join(front, Seq::empty());
        lemma_empty_parts();
        assert(components_of(path) =~= components_of(front));
    } else if path.len() > 1 && path.last() == '.' && path[path.len() - 2] == '/' {
        let front = path.drop_last();
        law_tails_carry_no_meaning(front);
        let base = front.drop_last();
        let dot = seq!['.'];
        assert(base.push('/') + dot =~= path);
        assert(base.push('/') + Seq::empty() =~= front);
        lemma_pieces_join(base, dot, '/');
        lemma_pieces_join(base, Seq::empty(), '/');
        lemma_parts_concat(pieces(base, '/'), pieces(dot, '/'));
        lemma_parts_concat(pieces(base, '/'), pieces(Seq::empty(), '/'));
        lemma_one_piece(dot, '/');
        lemma_empty_parts();
        lemma_pieces_nonempty(base, '/');
        assert(seq![dot].drop_last() =~= Seq::empty());
        assert(seq![dot].last() == dot);
        assert("."@ =~= dot);
        assert(parts_of(Seq::empty()) =~= Seq::<Part>::empty());
        assert(parts_of(seq![dot]) =~= Seq::<Part>::empty());
        assert(path[0] == front[0]);
        assert(pieces(path, '/')[0] == pieces(base, '/')[0]);
        assert(pieces(front, '/')[0] == pieces(base, '/')[0]);
        assert(components_of(path) =~= components_of(front));
    }
}

/// The parent of a path in a directory is the directory.
pub proof fn law_the_parent_is_the_directory(base: Seq<char>, name: Seq<char>)
    requires
        is_name(name),
        base.len() > 0,
    ensures
        parent_of(joined_path(base, name)) matches Some(above) && components_of(above)
            == components_of(base),
{
    reveal_strlit("/");
    reveal_strlit(".");
    if name[0] == '/' {
        assert(name.contains('/'));
    }
    let path = joined_path(base, name);
    let last = name[name.len() - 1];
    assert(path.last() == last);
    assert(last != '/') by {
        assert(name.contains(last));
    }
    if last == '.' && path[path.len() - 2] == '/' {
        if name.len() > 1 {
            assert(path[path.len() - 2] == name[name.len() - 2]);
            assert(name.contains('/'));
        } else {
            assert(name =~= "."@);
        }
    }
    assert(without_tail(path) == path);
    let head = if base.last() == '/' {
        base
    } else {
        base.push('/')
    };
    let front = head.drop_last();
    assert(head =~= front.push('/'));
    assert(path =~= front.push('/') + name);
    lemma_last_at(front, '/', name);
    assert(path.take(front.len() as int + 1) =~= head);
    law_tails_carry_no_meaning(head);
    assert(path.len() > 1);
    assert(path != seq!['/']);
    if base.last() != '/' {
        assert(head =~= base.push('/') + Seq::empty());
        lemma_components_join(base, Seq::empty());
        lemma_empty_parts();
        assert(components_of(head) =~= components_of(base));
    }
}

/// The components of a path behind what it starts with.
pub open spec fn inner_parts(path: Seq<char>) -> Seq<Part> {
    parts_of(pieces(path, '/'))
}

proof fn lemma_inner_join(a: Seq<char>, b: Seq<char>)
    ensures
        inner_parts(a.push('/') + b) == inner_parts(a) + inner_parts(b),
{
    lemma_pieces_join(a, b, '/');
    lemma_parts_concat(pieces(a, '/'), pieces(b, '/'));
}

proof fn lemma_lead_goes(path: Seq<char>)
    ensures
        inner_parts(without_lead(path)) == inner_parts(path),
        lead_of(without_lead(path)).len() == 0,
        without_lead(path).len() > 0 ==> without_lead(path)[0] != '/' && inner_parts(path).len() > 0,
    decreases path.len(),
{
    reveal_strlit(".");
    reveal_strlit("..");
    let none = Seq::<char>::empty();
    lemma_empty_parts();
    if path.len() > 0 && path[0] == '/' {
        let rest = path.drop_first();
        lemma_lead_goes(rest);
        assert(none.push('/') + rest =~= path);
        lemma_inner_join(none, rest);
        assert(inner_parts(path) =~= inner_parts(rest));
    } else if path.len() > 0 && path[0] == '.' && (path.len() == 1 || path[1] == '/') {
        let rest = path.drop_first();
        lemma_lead_goes(rest);
        let dot = seq!['.'];
        lemma_one_piece(dot, '/');
        assert(seq![dot].drop_last() =~= Seq::empty());
        assert(seq![dot].last() == dot);
        assert("."@ =~= dot);
        assert(parts_of(Seq::empty()) =~= Seq::<Part>::empty());
        assert(inner_parts(dot) =~= Seq::<Part>::empty());
        if path.len() == 1 {
            assert(path =~= dot);
            assert(rest =~= none);
        } else {
            let tail = rest.drop_first();
            assert(dot.push('/') + tail =~= path);
            assert(none.push('/') + tail =~= rest);
            lemma_inner_join(dot, tail);
            lemma_inner_join(none, tail);
            assert(inner_parts(path) =~= inner_parts(rest));
        }
    } else if path.len() > 0 {
        lemma_name_goes(path);
        let name = path.take(path.len() - without_name(path).len());
        let tail = without_name(path);
        assert(pieces(path, '/')[0] == name);
        if name == "."@ {
            assert(name.len() == 1 && name[0] == '.');
            assert(path[0] == '.');
            if path.len() > 1 {
                assert(tail[0] == path[1]);
            }
        }
    } else {
        assert(path =~= none);
        assert(pieces(none, '/') =~= seq![none]);
        assert("."@.len() == 1);
    }
}

proof fn lemma_name_goes(path: Seq<char>)
    requires
        path.len() > 0,
        path[0] != '/',
    ensures
        without_name(path).len() < path.len(),
        ({
            let name = path.take(path.len() - without_name(path).len());
            &&& pieces(path, '/')[0] == name
            &&& name.len() > 0
            &&& without_name(path) == path.skip(name.len() as int)
            &&& without_name(path).len() > 0 ==> without_name(path)[0] == '/'
            &&& !(name.len() == 1 && name[0] == '.') ==> inner_parts(path).len() > 0
                && inner_parts(without_name(path)) == inner_parts(path).skip(1)
        }),
{
    reveal_strlit(".");
    let none = Seq::<char>::empty();
    let tail = without_name(path);
    lemma_tail_of_name(path);
    let name = path.take(path.len() - tail.len());
    assert(path =~= name + tail);
    lemma_one_piece(name, '/');
    let one = seq![name];
    assert(one.drop_last() =~= Seq::empty());
    assert(one.last() == name);
    assert(parts_of(Seq::empty()) =~= Seq::<Part>::empty());
    lemma_empty_parts();
    if tail.len() == 0 {
        assert(path =~= name);
        assert(tail =~= none);
    } else {
        let rest = tail.drop_first();
        assert(path =~= name.push('/') + rest);
        assert(tail =~= none.push('/') + rest);
        lemma_pieces_join(name, rest, '/');
        lemma_inner_join(name, rest);
        lemma_inner_join(none, rest);
        assert(inner_parts(tail) =~= inner_parts(rest));
    }
    if !(name.len() == 1 && name[0] == '.') {
        assert(name != "."@);
        assert(inner_parts(name).len() == 1);
        assert(inner_parts(tail) =~= inner_parts(path).skip(1));
    }
}

proof fn lemma_tail_of_name(path: Seq<char>)
    ensures
        without_name(path).len() <= path.len(),
        without_name(path) == path.skip(path.len() - without_name(path).len()),
        !path.take(path.len() - without_name(path).len()).contains('/'),
        without_name(path).len() > 0 ==> without_name(path)[0] == '/',
        path.len() > 0 && path[0] != '/' ==> without_name(path).len() < path.len(),
    decreases path.len(),
{
    if path.len() == 0 || path[0] == '/' {
        assert(path.skip(0) =~= path);
    } else {
        let rest = path.drop_first();
        lemma_tail_of_name(rest);
        let n = path.len() - without_name(path).len();
        assert(path.skip(n) =~= rest.skip(n - 1));
        let head = path.take(n);
        if head.contains('/') {
            let k = choose|k: int| 0 <= k < head.len() && head[k] == '/';
            assert(k > 0);
            assert(rest.take(n - 1)[k - 1] == '/');
        }
    }
}

proof fn lemma_parts_go(path: Seq<char>, n: nat)
    requires
        n <= inner_parts(path).len(),
    ensures
        inner_parts(without_parts(path, n)) == inner_parts(path).skip(n as int),
        lead_of(without_parts(path, n)).len() == 0,
    decreases n,
{
    let rest = without_lead(path);
    lemma_lead_goes(path);
    if n == 0 {
        assert(inner_parts(path).skip(0) =~= inner_parts(path));
    } else {
        assert(rest.len() > 0) by {
            if rest.len() == 0 {
                assert(rest =~= Seq::empty());
                lemma_empty_parts();
            }
        }
        lemma_name_goes(rest);
        let name = rest.take(rest.len() - without_name(rest).len());
        assert(!(name.len() == 1 && name[0] == '.')) by {
            if name.len() == 1 && name[0] == '.' {
                reveal_strlit(".");
                assert(name =~= "."@);
                assert(lead_of(rest) =~= seq![Part::Current]);
            }
        }
        lemma_parts_go(without_name(rest), (n - 1) as nat);
        assert(inner_parts(path).skip(1).skip(n - 1) =~= inner_parts(path).skip(n as int));
    }
}

/// A path seen from a directory above it is what it has more than the directory:
/// the components of the one and of the other together are those of the path.
/// A path that does not lie in the directory stays as it is.
pub proof fn law_relative_paths_go_on_from_the_base(path: Seq<char>, base: Seq<char>)
    ensures
        is_within(path, base) ==> components_of(base) + components_of(relative_to(path, base))
            == components_of(path),
        !is_within(path, base) ==> relative_to(path, base) == path,
{
    let n = components_of(base).len();
    if is_within(path, base) {
        if n == 0 {
            law_tails_carry_no_meaning(path);
            assert(components_of(base) + components_of(path) =~= components_of(path));
        } else {
            let lead = lead_of(path).len();
            assert(lead <= 1);
            let k = (n - lead) as nat;
            assert(components_of(path).len() == lead + inner_parts(path).len());
            lemma_parts_go(path, k);
            let rest = without_parts(path, k);
            law_tails_carry_no_meaning(rest);
            assert(components_of(rest) =~= inner_parts(rest));
            assert(components_of(base) + inner_parts(path).skip(k as int) =~= components_of(path));
        }
    }
}

} // verus!
