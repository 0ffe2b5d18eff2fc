//! Parsing of `.tree` specs.

use btt::tree::{classify_lower, parse, NodeKind, ParseError};

const BASIC: &str = "\
HashMap
├── when the key is present
│   ├── it returns the value
│   └── when the value was overwritten
│       └── it returns the latest value
└── when the key is absent
    └── it returns none
";

#[test]
fn resolves_the_root_name() {
    let trees = parse(BASIC).unwrap();
    assert_eq!(trees.len(), 1);
    assert_eq!(trees[0].root, "HashMap");
}

#[test]
fn nests_children_by_indentation() {
    let trees = parse(BASIC).unwrap();
    let root = &trees[0];
    assert_eq!(root.children.len(), 2);
    let present = &root.children[0];
    assert_eq!(present.kind, NodeKind::Condition);
    assert_eq!(present.children.len(), 2);
    assert_eq!(
        present.children[1].children[0].text,
        "it returns the latest value"
    );
}

#[test]
fn records_line_numbers() {
    let trees = parse(BASIC).unwrap();
    assert_eq!(trees[0].children[1].line, 6);
}

#[test]
fn splits_them_on_blank_lines() {
    let src = "A\n└── it works\n\nB\n└── it also works\n";
    let trees = parse(src).unwrap();
    assert_eq!(trees.len(), 2);
    assert_eq!(trees[1].root, "B");
    assert_eq!(trees[1].children[0].text, "it also works");
}

#[test]
fn rejects_children_under_it_nodes() {
    let src = "A\n└── it works\n    └── it nested\n";
    assert!(matches!(
        parse(src),
        Err(ParseError::ActionWithChildren {
            line: 3,
            parent_line: 2
        })
    ));
}

#[test]
fn rejects_unknown_node_keywords() {
    let src = "A\n└── sometimes it works\n";
    assert!(matches!(
        parse(src),
        Err(ParseError::UnknownKeyword { line: 2, .. })
    ));
}

#[test]
fn rejects_depth_jumps() {
    let src = "A\n└── when x\n│       └── it works\n";
    assert!(matches!(parse(src), Err(ParseError::DepthJump { .. })));
}

#[test]
fn rejects_empty_files() {
    assert!(matches!(parse("\n\n"), Err(ParseError::Empty)));
}

#[test]
fn skips_comment_lines() {
    let trees = parse("// a note\nA\n// another\n└── it works\n").unwrap();
    assert_eq!(trees[0].root, "A");
    assert_eq!(trees[0].children[0].line, 4);
}

#[test]
fn lists_every_line_of_the_spec_once() {
    fn count(nodes: &[btt::tree::SpecNode]) -> usize {
        nodes.iter().map(|n| 1 + count(&n.children)).sum()
    }
    let trees = parse(BASIC).unwrap();
    assert_eq!(1 + count(&trees[0].children), BASIC.lines().count());
}

#[test]
fn knows_the_keywords() {
    assert_eq!(classify_lower("when x"), Some(NodeKind::Condition));
    assert_eq!(classify_lower("given x"), Some(NodeKind::Condition));
    assert_eq!(classify_lower("it works"), Some(NodeKind::Action));
    assert_eq!(classify_lower("item"), None);
}

// A comment line moves the lines behind it, and means nothing else.
#[test]
fn moves_lines_behind_a_comment() {
    let plain = parse("A\n├── when x\n│   └── it y\n└── it z\n").unwrap();
    let noted = parse("A\n├── when x\n  // note\n│   └── it y\n└── it z\n").unwrap();
    assert_eq!(noted.len(), 1);
    let (old, new) = (&plain[0].children, &noted[0].children);
    assert_eq!((old[0].line, new[0].line), (2, 2));
    assert_eq!((old[0].children[0].line, new[0].children[0].line), (3, 4));
    assert_eq!(old[0].children[0].text, new[0].children[0].text);
    assert_eq!((old[1].line, new[1].line), (4, 5));
    let err = parse("A\n// note\n└── nonsense\n").unwrap_err();
    assert!(matches!(err, ParseError::UnknownKeyword { line: 3, .. }), "{err:?}");
}
