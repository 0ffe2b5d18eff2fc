//! Comparing specs with test files.

use btt::check::{diff, expected_from_spec, unwrap_wrappers, Finding};
use btt::extract::{ActualKind, ActualNode};
use btt::mapping::{Case, Mapping, NameRule, RootMapping};
use btt::tree;

fn rust_mapping() -> Mapping {
    Mapping {
        root: RootMapping::File,
        block: NameRule { case: Case::Snake, ..Default::default() },
        test: NameRule {
            strip_prefix: Some("it ".into()),
            case: Case::Snake,
            ..Default::default()
        },
        wrappers: vec!["tests".into()],
    }
}

fn block(name: &str, children: Vec<ActualNode>) -> ActualNode {
    ActualNode { kind: ActualKind::Block, name: name.into(), line: 1, children }
}

fn test(name: &str) -> ActualNode {
    ActualNode { kind: ActualKind::Test, name: name.into(), line: 1, children: vec![] }
}

const SPEC: &str = "\
Adder
├── when both inputs are zero
│   └── it returns zero
└── when one input is negative
    └── it returns the difference
";

#[test]
fn check_reports_no_findings() {
    let trees = tree::parse(SPEC).unwrap();
    let expected = expected_from_spec(&trees, &rust_mapping());
    let actual = vec![
        block("when_both_inputs_are_zero", vec![test("returns_zero")]),
        block("when_one_input_is_negative", vec![test("returns_the_difference")]),
    ];
    assert!(diff(&expected, &actual).is_empty());
}

#[test]
fn sees_through_wrapper_blocks() {
    let trees = tree::parse(SPEC).unwrap();
    let expected = expected_from_spec(&trees, &rust_mapping());
    let actual = unwrap_wrappers(
        vec![block(
            "tests",
            vec![
                block("when_both_inputs_are_zero", vec![test("returns_zero")]),
                block("when_one_input_is_negative", vec![test("returns_the_difference")]),
            ],
        )],
        &rust_mapping().wrappers,
    );
    assert!(diff(&expected, &actual).is_empty());
}

#[test]
fn reports_it_with_the_spec_line() {
    let trees = tree::parse(SPEC).unwrap();
    let expected = expected_from_spec(&trees, &rust_mapping());
    let actual = vec![
        block("when_both_inputs_are_zero", vec![]),
        block("when_one_input_is_negative", vec![test("returns_the_difference")]),
    ];
    let findings = diff(&expected, &actual);
    assert_eq!(
        findings,
        vec![Finding::Missing {
            kind: ActualKind::Test,
            path: "when_both_inputs_are_zero > returns_zero".into(),
            spec_line: 3,
        }]
    );
}

#[test]
fn reports_each_extra_node() {
    let trees = tree::parse(SPEC).unwrap();
    let expected = expected_from_spec(&trees, &rust_mapping());
    let actual = vec![
        block(
            "when_both_inputs_are_zero",
            vec![test("returns_zero"), test("does_not_overflow")],
        ),
        block("when_one_input_is_negative", vec![test("returns_the_difference")]),
    ];
    let findings = diff(&expected, &actual);
    assert_eq!(findings.len(), 1);
    assert!(matches!(
        findings[0],
        Finding::Extra { kind: ActualKind::Test, .. }
    ));
}

#[test]
fn reports_an_order_finding() {
    let trees = tree::parse(SPEC).unwrap();
    let expected = expected_from_spec(&trees, &rust_mapping());
    let actual = vec![
        block("when_one_input_is_negative", vec![test("returns_the_difference")]),
        block("when_both_inputs_are_zero", vec![test("returns_zero")]),
    ];
    let findings = diff(&expected, &actual);
    assert_eq!(findings.len(), 1);
    assert!(matches!(findings[0], Finding::OutOfOrder { .. }));
}

#[test]
fn reports_a_missing_block_once() {
    let trees = tree::parse(SPEC).unwrap();
    let expected = expected_from_spec(&trees, &rust_mapping());
    let findings = diff(&expected, &[]);
    let paths: Vec<String> = findings
        .iter()
        .map(|f| match f {
            Finding::Missing { path, .. } => path.clone(),
            _ => panic!("{f:?}"),
        })
        .collect();
    assert_eq!(
        paths,
        ["when_both_inputs_are_zero", "when_one_input_is_negative"]
    );
}

#[test]
fn keeps_every_test_when_unwrapping() {
    let nodes = vec![
        block("tests", vec![test("a"), block("tests", vec![test("b")])]),
        block("other", vec![block("tests", vec![test("c")])]),
    ];
    let out = unwrap_wrappers(nodes, &["tests".to_string()]);
    let names: Vec<&str> = out.iter().map(|n| n.name.as_str()).collect();
    assert_eq!(names, ["a", "b", "other"]);
    assert_eq!(out[2].children[0].name, "c");
}

#[test]
fn expects_the_root_as_a_block_where_the_mapping_says_so() {
    let trees = tree::parse(SPEC).unwrap();
    let mapping = Mapping { root: RootMapping::Block, ..rust_mapping() };
    let expected = expected_from_spec(&trees, &mapping);
    assert_eq!(expected.len(), 1);
    assert_eq!(expected[0].name, "Adder");
    assert_eq!(expected[0].children.len(), 2);
}
