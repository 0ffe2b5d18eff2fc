//! Scaffold markers that are still in a test file: a line comment that starts
//! its line and says `btt:todo` stands for a test body nobody filled in.

use vstd::prelude::*;
use crate::bytes::byte_offset;
use crate::check::Finding;
use crate::extract::{ActualKind, SourceNode};
use crate::text::{chars_of, starts_with, text_between, trim_start};

verus! {

use vstd::utf8::encode_utf8;
use crate::check::FindingView;
use crate::extract::{definitions, source_view, tests_are_leaves, CaptureView, SourceView};
use crate::text::{
    all_white, is_white, lemma_start_off, lemma_start_parts, trimmed_start, views,
};

broadcast use {
    crate::extract::lemma_source_children,
    vstd::string::group_string_axioms,
};

/// Whether a text that starts with a comment leader goes on with the marker.
pub open spec fn says_todo(text: Seq<char>, leader: Seq<char>) -> bool {
    leader.is_prefix_of(text) && "btt:todo"@.is_prefix_of(
        trimmed_start(text.skip(leader.len() as int)),
    )
}

/// Whether a line is a comment that starts with the scaffold marker.
pub open spec fn is_todo(line: Seq<char>) -> bool {
    let text = trimmed_start(line);
    says_todo(text, "//"@) || says_todo(text, "#"@) || says_todo(text, "--"@) || says_todo(
        text,
        ";"@,
    )
}

fn says(text: &str, leader: &str) -> (yes: bool)
    ensures
        yes == says_todo(text@, leader@),
{
    match crate::text::strip_prefix(text, leader) {
        Some(rest) => starts_with(trim_start(rest.as_str()).as_str(), "btt:todo"),
        None => false,
    }
}

/// Whether a line is a comment that starts with the scaffold marker.
pub fn marks_todo(line: &str) -> (yes: bool)
    ensures
        yes == is_todo(line@),
{
    let text = trim_start(line);
    says(text.as_str(), "//") || says(text.as_str(), "#") || says(text.as_str(), "--") || says(
        text.as_str(),
        ";",
    )
}

/// The line of the first test whose span contains a byte offset.
pub open spec fn test_at(nodes: Seq<SourceView>, pos: nat) -> Option<nat>
    decreases nodes,
{
    if nodes.len() == 0 {
        None
    } else {
        let last = nodes.last();
        match test_at(nodes.drop_last(), pos) {
            Some(line) => Some(line),
            None => match last.kind {
                ActualKind::Test => if last.start <= pos < last.end {
                    Some(last.line)
                } else {
                    None
                },
                ActualKind::Block => test_at(last.children, pos),
            },
        }
    }
}

proof fn lemma_test_stays(nodes: Seq<SourceView>, pos: nat, n: int)
    requires
        0 <= n <= nodes.len(),
        test_at(nodes.take(n), pos) is Some,
    ensures
        test_at(nodes, pos) == test_at(nodes.take(n), pos),
    decreases nodes.len() - n,
{
    if n < nodes.len() {
        assert(nodes.take(n + 1).drop_last() =~= nodes.take(n));
        lemma_test_stays(nodes, pos, n + 1);
    } else {
        assert(nodes.take(n) =~= nodes);
    }
}

/// The line of the first test whose span contains a byte offset.
pub fn enclosing_test(nodes: &Vec<SourceNode>, pos: usize) -> (out: Option<usize>)
    ensures
        match out {
            Some(line) => test_at(views(nodes@), pos as nat) == Some(line as nat),
            None => test_at(views(nodes@), pos as nat) is None,
        },
    decreases nodes,
{
    let ghost all = views(nodes@);
    let mut i: usize = 0;
    assert(all.take(0) =~= Seq::empty());
    while i < nodes.len()
        invariant
            i <= nodes@.len(),
            all == views(nodes@),
            test_at(all.take(i as int), pos as nat) is None,
        decreases nodes@.len() - i,
    {
        let node = &nodes[i];
        proof {
            assert(all.take(i + 1).drop_last() =~= all.take(i as int));
            assert(all.take(i + 1).last() == node@);
            assert(node@ == source_view(*node));
            if test_at(all.take(i + 1), pos as nat) is Some {
                lemma_test_stays(all, pos as nat, i + 1);
            }
        }
        match node.kind {
            ActualKind::Test => {
                if node.start <= pos && pos < node.end {
                    return Some(node.line);
                }
            },
            ActualKind::Block => {
                if let Some(line) = enclosing_test(&node.children, pos) {
                    return Some(line);
                }
            },
        }
        i += 1;
    }
    assert(all.take(i as int) =~= all);
    None
}

/// The end of the line that position `i` lies on: the next line feed, or the
/// end of the text.
pub open spec fn end_of_line(source: Seq<char>, i: int) -> int
    decreases source.len() - i,
{
    if i < 0 || i >= source.len() || source[i] == '\n' {
        i
    } else {
        end_of_line(source, i + 1)
    }
}

proof fn lemma_end_of_line(source: Seq<char>, i: int)
    requires
        0 <= i <= source.len(),
    ensures
        i <= end_of_line(source, i) <= source.len(),
    decreases source.len() - i,
{
    if i < source.len() && source[i] != '\n' {
        lemma_end_of_line(source, i + 1);
    }
}

/// The markers on the lines from position `i` on, which starts line `line`.
pub open spec fn todos_from(
    source: Seq<char>,
    nodes: Seq<SourceView>,
    i: int,
    line: nat,
) -> Seq<FindingView>
    decreases source.len() - i,
{
    if i < 0 || i >= source.len() {
        Seq::empty()
    } else {
        let end = end_of_line(source, i);
        let text = source.subrange(i, end);
        let indent = text.len() - trimmed_start(text).len();
        let rest = if i <= end < source.len() {
            todos_from(source, nodes, end + 1, line + 1)
        } else {
            Seq::empty()
        };
        if is_todo(text) {
            seq![
                FindingView::Todo {
                    target_line: line,
                    test_line: test_at(nodes, encode_utf8(source.take(i + indent)).len()),
                },
            ] + rest
        } else {
            rest
        }
    }
}

/// The scaffold markers of a source: for each its line, and the line of the
/// test whose span it starts in.
pub open spec fn todos_of(source: Seq<char>, nodes: Seq<SourceView>) -> Seq<FindingView> {
    todos_from(source, nodes, 0, 1)
}

proof fn lemma_trimmed_start_len(s: Seq<char>)
    ensures
        trimmed_start(s).len() <= s.len(),
    decreases s.len(),
{
    if s.len() > 0 {
        lemma_trimmed_start_len(s.drop_first());
    }
}

/// The scaffold markers of a source whose definitions are `nodes`.
pub fn find_todos(source: &str, nodes: &Vec<SourceNode>) -> (out: Vec<Finding>)
    ensures
        views(out@) == todos_of(source@, views(nodes@)),
{
    let chars = chars_of(source);
    let bytes: usize = source.as_bytes().len();
    let len: usize = chars.len();
    let ghost all = views(nodes@);
    let mut out: Vec<Finding> = Vec::new();
    let mut i: usize = 0;
    let mut line: usize = 1;
    assert(views(out@) =~= Seq::empty());
    assert(Seq::<FindingView>::empty() + todos_of(source@, all) =~= todos_of(source@, all));
    while i < len
        invariant
            len == chars@.len(),
            chars@ == source@,
            all == views(nodes@),
            i <= len,
            1 <= line <= i + 1,
            bytes == encode_utf8(source@).len(),
            todos_of(source@, all) == views(out@) + todos_from(
                source@,
                all,
                i as int,
                line as nat,
            ),
        decreases len - i,
    {
        let ghost before = views(out@);
        proof {
            lemma_end_of_line(source@, i as int);
        }
        let mut end: usize = i;
        while end < len && chars[end] != '\n'
            invariant
                i <= end <= len,
                len == chars@.len(),
                chars@ == source@,
                end_of_line(source@, end as int) == end_of_line(source@, i as int),
            decreases len - end,
        {
            end += 1;
        }
        let text = text_between(&chars, i, end);
        let ghost rest = if end < len {
            todos_from(source@, all, end + 1, line as nat + 1)
        } else {
            Seq::empty()
        };
        if marks_todo(text.as_str()) {
            proof {
                lemma_trimmed_start_len(text@);
            }
            let trimmed: usize = trim_start(text.as_str()).as_str().unicode_len();
            let indent: usize = text.as_str().unicode_len() - trimmed;
            let pos: usize = byte_offset(&chars, i + indent);
            let finding = Finding::Todo {
                target_line: line,
                test_line: enclosing_test(nodes, pos),
            };
            out.push(finding);
            proof {
                assert(views(out@) =~= before + seq![finding@]);
                assert(before + (seq![finding@] + rest) =~= views(out@) + rest);
            }
        }
        assert(todos_of(source@, all) == views(out@) + rest);
        if end >= len - 1 {
            assert(rest =~= Seq::empty());
            assert(views(out@) + Seq::<FindingView>::empty() =~= views(out@));
            return out;
        }
        i = end + 1;
        line += 1;
    }
    assert(views(out@) + Seq::<FindingView>::empty() =~= views(out@));
    out
}

/// Whether a text is one of the four ways in which a line comment starts.
pub open spec fn is_leader(leader: Seq<char>) -> bool {
    leader == "//"@ || leader == "#"@ || leader == "--"@ || leader == ";"@
}

/// Whether a line is white space, a comment leader, white space and then the
/// marker, whatever follows.
pub open spec fn is_marker_line(
    line: Seq<char>,
    margin: Seq<char>,
    leader: Seq<char>,
    gap: Seq<char>,
    rest: Seq<char>,
) -> bool {
    &&& all_white(margin)
    &&& is_leader(leader)
    &&& all_white(gap)
    &&& line == margin + leader + gap + "btt:todo"@ + rest
}

/// A line with nothing before the marker but a comment leader and white space
/// is a scaffold marker.
pub proof fn law_marker_lines_are_markers(
    line: Seq<char>,
    margin: Seq<char>,
    leader: Seq<char>,
    gap: Seq<char>,
    rest: Seq<char>,
)
    requires
        is_marker_line(line, margin, leader, gap, rest),
    ensures
        is_todo(line),
{
    reveal_strlit("//");
    reveal_strlit("#");
    reveal_strlit("--");
    reveal_strlit(";");
    reveal_strlit("btt:todo");
    let tail = gap + "btt:todo"@ + rest;
    let text = leader + tail;
    assert(line =~= margin + text);
    assert(text[0] == leader[0]);
    lemma_start_off(margin, text);
    assert(text.take(leader.len() as int) =~= leader);
    assert(text.skip(leader.len() as int) =~= tail);
    let said = "btt:todo"@ + rest;
    assert(tail =~= gap + said);
    assert(said[0] == 'b');
    lemma_start_off(gap, said);
    assert(said.take("btt:todo"@.len() as int) =~= "btt:todo"@);
    assert(says_todo(text, leader));
}

/// A scaffold marker is such a line, and no other.
pub proof fn law_markers_are_marker_lines(line: Seq<char>)
    requires
        is_todo(line),
    ensures
        exists|margin: Seq<char>, leader: Seq<char>, gap: Seq<char>, rest: Seq<char>|
            is_marker_line(line, margin, leader, gap, rest),
{
    let text = trimmed_start(line);
    let leader = if says_todo(text, "//"@) {
        "//"@
    } else if says_todo(text, "#"@) {
        "#"@
    } else if says_todo(text, "--"@) {
        "--"@
    } else {
        ";"@
    };
    assert(says_todo(text, leader));
    lemma_start_parts(line);
    let margin = line.take(line.len() - text.len());
    let tail = text.skip(leader.len() as int);
    lemma_start_parts(tail);
    let said = trimmed_start(tail);
    let gap = tail.take(tail.len() - said.len());
    let rest = said.skip("btt:todo"@.len() as int);
    assert(said =~= "btt:todo"@ + rest);
    assert(tail =~= gap + said);
    assert(text =~= leader + tail);
    assert(line =~= margin + text);
    assert(line =~= margin + leader + gap + "btt:todo"@ + rest);
    assert(is_marker_line(line, margin, leader, gap, rest));
}

/// Markers are found line by line. A line that is one gives a finding with the
/// number of the line and the test in which the comment starts; any other line
/// gives none; and the lines behind it come after it, with the next numbers.
pub proof fn law_markers_are_found_line_by_line(
    source: Seq<char>,
    nodes: Seq<SourceView>,
    i: int,
    end: int,
    line: nat,
    margin: nat,
)
    requires
        0 <= i < source.len(),
        i <= end <= source.len(),
        forall|k: int| i <= k < end ==> #[trigger] source[k] != '\n',
        end < source.len() ==> source[end] == '\n',
        i + margin <= end,
        forall|k: int| i <= k < i + margin ==> is_white(#[trigger] source[k]),
        i + margin < end ==> !is_white(source[i + margin]),
    ensures
        todos_from(source, nodes, i, line) == (if is_todo(source.subrange(i, end)) {
            seq![
                FindingView::Todo {
                    target_line: line,
                    test_line: test_at(nodes, encode_utf8(source.take(i + margin)).len()),
                },
            ]
        } else {
            Seq::empty()
        }) + (if end < source.len() {
            todos_from(source, nodes, end + 1, line + 1)
        } else {
            Seq::empty()
        }),
        todos_from(source, nodes, source.len() as int, line) == Seq::<FindingView>::empty(),
{
    lemma_line_ends(source, i, end);
    let text = source.subrange(i, end);
    lemma_start_parts(text);
    let indent = text.len() - trimmed_start(text).len();
    if is_todo(text) {
        assert(trimmed_start(text).len() > 0) by {
            reveal_strlit("//");
            reveal_strlit("#");
            reveal_strlit("--");
            reveal_strlit(";");
        }
        assert(indent == margin) by {
            assert(!is_white(trimmed_start(text)[0]));
            assert(text.skip(indent)[0] == text[indent]);
            assert(text[indent] == source[i + indent]);
            if indent < margin {
                assert(is_white(source[i + indent]));
            }
            if margin < indent {
                assert(text.take(indent)[margin as int] == source[i + margin]);
            }
        }
    }
}

proof fn lemma_line_ends(source: Seq<char>, i: int, end: int)
    requires
        0 <= i <= end <= source.len(),
        forall|k: int| i <= k < end ==> #[trigger] source[k] != '\n',
        end < source.len() ==> source[end] == '\n',
    ensures
        end_of_line(source, i) == end,
    decreases end - i,
{
    if i < end {
        lemma_line_ends(source, i + 1, end);
    }
}

/// Whether a test among definitions, on a line, spans a place.
pub open spec fn spans(c: CaptureView, pos: nat) -> bool {
    c.kind == ActualKind::Test && c.start <= pos < c.end
}

/// The test of a place is one that spans it, and there is none only where none
/// does.
pub proof fn law_the_test_of_a_place_spans_it(nodes: Seq<SourceView>, pos: nat)
    requires
        tests_are_leaves(nodes),
    ensures
        match test_at(nodes, pos) {
            Some(line) => exists|k: int|
                0 <= k < definitions(nodes).len() && spans(#[trigger] definitions(nodes)[k], pos)
                    && definitions(nodes)[k].line == line && forall|j: int|
                    0 <= j < k ==> !spans(#[trigger] definitions(nodes)[j], pos),
            None => forall|k: int|
                0 <= k < definitions(nodes).len() ==> !spans(
                    #[trigger] definitions(nodes)[k],
                    pos,
                ),
        },
    decreases nodes,
{
    if nodes.len() > 0 {
        let front = nodes.drop_last();
        let last = nodes.last();
        assert(nodes[nodes.len() - 1] == last);
        assert(forall|i: int| 0 <= i < front.len() ==> #[trigger] front[i] == nodes[i]);
        law_the_test_of_a_place_spans_it(front, pos);
        law_the_test_of_a_place_spans_it(last.children, pos);
        let before = definitions(front);
        let inner = definitions(last.children);
        let all = definitions(nodes);
        let n = before.len() as int;
        assert(forall|k: int| 0 <= k < n ==> #[trigger] all[k] == before[k]);
        assert(all[n].kind == last.kind && all[n].start == last.start && all[n].end == last.end
            && all[n].line == last.line);
        assert forall|k: int| n < k < all.len() implies #[trigger] all[k] == inner[k - n - 1] by {}
        if last.kind == ActualKind::Test {
            assert(inner.len() == 0);
        }
        if test_at(front, pos) is Some {
            let k = choose|k: int|
                0 <= k < before.len() && spans(#[trigger] before[k], pos) && before[k].line
                    == test_at(front, pos)->0 && forall|j: int|
                    0 <= j < k ==> !spans(#[trigger] before[j], pos);
            assert(all[k] == before[k]);
            assert forall|j: int| 0 <= j < k implies !spans(#[trigger] all[j], pos) by {
                assert(all[j] == before[j]);
            }
        } else if last.kind == ActualKind::Test {
            assert forall|j: int| 0 <= j < n implies !spans(#[trigger] all[j], pos) by {
                assert(all[j] == before[j]);
            }
            assert(all.len() == n + 1);
            if last.start <= pos < last.end {
                assert(spans(all[n], pos));
            }
        } else if test_at(last.children, pos) is Some {
            let k = choose|k: int|
                0 <= k < inner.len() && spans(#[trigger] inner[k], pos) && inner[k].line
                    == test_at(last.children, pos)->0 && forall|j: int|
                    0 <= j < k ==> !spans(#[trigger] inner[j], pos);
            assert(all[n + 1 + k] == inner[k]);
            assert(spans(all[n + 1 + k], pos));
            assert forall|j: int| 0 <= j < n + 1 + k implies !spans(#[trigger] all[j], pos) by {
                if j < n {
                    assert(all[j] == before[j]);
                } else if j > n {
                    assert(all[j] == inner[j - n - 1]);
                }
            }
        } else {
            assert forall|j: int| 0 <= j < all.len() implies !spans(#[trigger] all[j], pos) by {
                if j < n {
                    assert(all[j] == before[j]);
                } else if j > n {
                    assert(all[j] == inner[j - n - 1]);
                }
            }
        }
    }
}

} // verus!
