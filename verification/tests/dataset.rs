use egonet::dataset::make_graph;
use egonet::dataset::parse_circle_line;
use egonet::dataset::parse_circles;
use egonet::dataset::parse_edge_line;
use egonet::dataset::parse_edges;
use egonet::dataset::parse_ego_features;
use egonet::dataset::parse_feature_names;
use egonet::dataset::parse_features;
use egonet::dataset::parse_node_count;
use egonet::dataset::parse_node_count_line;
use egonet::dataset::parse_node_features_line;
use egonet::error::GraphError;
use egonet::error::LoadError;
use egonet::error::ParseError;
use egonet::error::ParseErrorKind;
use egonet::graph::build_graph;
use std::collections::HashMap;
use std::collections::HashSet;

fn chars(text: &str) -> Vec<char> {
    text.chars().collect()
}

#[test]
fn node_count_is_the_first_line() {
    assert_eq!(parse_node_count("4\n0 1\n1 2\n"), Ok(4));
    assert_eq!(parse_node_count("  12  \n0 1"), Ok(12));
    assert_eq!(parse_node_count("7"), Ok(7));
    assert_eq!(parse_node_count_line(&chars(" 3\r")), Ok(3));
}

#[test]
fn node_count_that_is_no_integer_is_an_error() {
    let malformed = ParseError { line: 0, kind: ParseErrorKind::MalformedInteger };
    assert_eq!(parse_node_count(""), Err(malformed));
    assert_eq!(parse_node_count("four\n0 1"), Err(malformed));
    assert_eq!(parse_node_count("4 5\n0 1"), Err(malformed));
    assert_eq!(parse_node_count("-4\n0 1"), Err(malformed));
    assert_eq!(
        parse_node_count_line(&chars("")),
        Err(ParseErrorKind::MalformedInteger)
    );
}

#[test]
fn edges_are_the_lines_after_the_first() {
    assert_eq!(parse_edges("4\n0 1\n1 2\n2 3\n"), Ok(vec![(0, 1), (1, 2), (2, 3)]));
    assert_eq!(parse_edges("ignored header\n5 6"), Ok(vec![(5, 6)]));
    assert_eq!(parse_edges("4"), Ok(Vec::new()));
    assert_eq!(parse_edges(""), Ok(Vec::new()));
    assert_eq!(parse_edges("\n\n3\n0 1\n\n"), Ok(vec![(0, 1)]));
}

#[test]
fn edge_fields_are_separated_by_any_white_space() {
    assert_eq!(parse_edges("2\n0\t1\r\n 1   0 \r\n"), Ok(vec![(0, 1), (1, 0)]));
    assert_eq!(parse_edge_line(&chars("  10   20  ")), Ok((10, 20)));
    assert_eq!(parse_edge_line(&chars("1 2 3")), Ok((1, 2)));
    assert_eq!(parse_edge_line(&chars("+1 002")), Ok((1, 2)));
}

#[test]
fn edge_line_errors() {
    assert_eq!(parse_edge_line(&chars("")), Err(ParseErrorKind::MalformedInteger));
    assert_eq!(parse_edge_line(&chars("   ")), Err(ParseErrorKind::MalformedInteger));
    assert_eq!(parse_edge_line(&chars("a 1")), Err(ParseErrorKind::MalformedInteger));
    assert_eq!(parse_edge_line(&chars("a")), Err(ParseErrorKind::MalformedInteger));
    assert_eq!(parse_edge_line(&chars("1")), Err(ParseErrorKind::MissingSeparator));
    assert_eq!(parse_edge_line(&chars(" 1 ")), Err(ParseErrorKind::MissingSeparator));
    assert_eq!(parse_edge_line(&chars("1 b")), Err(ParseErrorKind::MalformedInteger));
    assert_eq!(parse_edge_line(&chars("1 -2")), Err(ParseErrorKind::MalformedInteger));
    assert_eq!(parse_edge_line(&chars("1,2")), Err(ParseErrorKind::MalformedInteger));
}

#[test]
fn edges_fail_on_the_first_bad_line() {
    assert_eq!(
        parse_edges("3\n0 1\n1\nx y\n"),
        Err(ParseError { line: 2, kind: ParseErrorKind::MissingSeparator })
    );
    assert_eq!(
        parse_edges("3\n0 1\n1 2\n2 z"),
        Err(ParseError { line: 3, kind: ParseErrorKind::MalformedInteger })
    );
    assert_eq!(
        parse_edges("3\n0 1\n\n1 2"),
        Err(ParseError { line: 2, kind: ParseErrorKind::MalformedInteger })
    );
}

#[test]
fn circles_are_names_with_members() {
    let circles = parse_circles("friends: 1 2 3\nfamily: 4\n").unwrap();
    assert_eq!(circles.len(), 2);
    assert_eq!(
        circles.get(&"friends".to_string()),
        Some(&HashSet::from([1, 2, 3]))
    );
    assert_eq!(circles.get(&"family".to_string()), Some(&HashSet::from([4])));
    assert_eq!(circles.get(&"work".to_string()), None);
}

#[test]
fn circle_line_details() {
    let (name, members) = parse_circle_line(&chars("  circle 0 :  7  7\t8 ")).unwrap();
    assert_eq!(name, "circle 0");
    assert_eq!(members, HashSet::from([7, 8]));
    let (name, members) = parse_circle_line(&chars("empty:")).unwrap();
    assert_eq!(name, "empty");
    assert_eq!(members, HashSet::new());
    let (name, members) = parse_circle_line(&chars(": 1")).unwrap();
    assert_eq!(name, "");
    assert_eq!(members, HashSet::from([1]));
    let (name, members) = parse_circle_line(&chars("a: 1 2: 3 x")).unwrap();
    assert_eq!(name, "a");
    assert_eq!(members, HashSet::from([1, 2]));
}

#[test]
fn circle_line_errors() {
    assert_eq!(
        parse_circle_line(&chars("friends 1 2")).unwrap_err(),
        ParseErrorKind::MissingSeparator
    );
    assert_eq!(
        parse_circle_line(&chars("")).unwrap_err(),
        ParseErrorKind::MissingSeparator
    );
    assert_eq!(
        parse_circle_line(&chars("friends: 1 two")).unwrap_err(),
        ParseErrorKind::MalformedInteger
    );
}

#[test]
fn circles_later_line_replaces_earlier_line_of_the_same_name() {
    let circles = parse_circles("a: 1 2\nb: 3\na: 9").unwrap();
    assert_eq!(circles.len(), 2);
    assert_eq!(circles.get(&"a".to_string()), Some(&HashSet::from([9])));
    assert_eq!(circles.get(&"b".to_string()), Some(&HashSet::from([3])));
}

#[test]
fn circles_fail_on_the_first_bad_line() {
    assert_eq!(
        parse_circles("a: 1\nb 2\nc: x").unwrap_err(),
        ParseError { line: 1, kind: ParseErrorKind::MissingSeparator }
    );
    assert_eq!(
        parse_circles("a: 1\nb: 2\nc: x").unwrap_err(),
        ParseError { line: 2, kind: ParseErrorKind::MalformedInteger }
    );
    assert_eq!(
        parse_circles("").unwrap_err(),
        ParseError { line: 0, kind: ParseErrorKind::MissingSeparator }
    );
}

#[test]
fn features_are_bits_by_node() {
    let features = parse_features("1 0 1 1\n2 1 0 0\n").unwrap();
    assert_eq!(features.len(), 2);
    assert_eq!(features.get(&1), Some(&vec![false, true, true]));
    assert_eq!(features.get(&2), Some(&vec![true, false, false]));
    let features = parse_features("5").unwrap();
    assert_eq!(features.get(&5), Some(&Vec::new()));
}

#[test]
fn features_later_line_replaces_earlier_line_of_the_same_node() {
    let features = parse_features("1 0 0\n2 1\n1 1 1").unwrap();
    assert_eq!(features.len(), 2);
    assert_eq!(features.get(&1), Some(&vec![true, true]));
    assert_eq!(features.get(&2), Some(&vec![true]));
}

#[test]
fn feature_line_errors() {
    assert_eq!(
        parse_node_features_line(&chars("")),
        Err(ParseErrorKind::MalformedInteger)
    );
    assert_eq!(
        parse_node_features_line(&chars("x 0 1")),
        Err(ParseErrorKind::MalformedInteger)
    );
    assert_eq!(
        parse_node_features_line(&chars("3 0 2")),
        Err(ParseErrorKind::MalformedBoolean)
    );
    assert_eq!(
        parse_node_features_line(&chars("3 true")),
        Err(ParseErrorKind::MalformedBoolean)
    );
    assert_eq!(
        parse_node_features_line(&chars(" 3\t1  0 ")),
        Ok((3, vec![true, false]))
    );
}

#[test]
fn features_fail_on_the_first_bad_line() {
    assert_eq!(
        parse_features("1 0 1\n2 0 7\nx"),
        Err(ParseError { line: 1, kind: ParseErrorKind::MalformedBoolean })
    );
    assert_eq!(
        parse_features("1 0 1\n2 0 1\nx 1"),
        Err(ParseError { line: 2, kind: ParseErrorKind::MalformedInteger })
    );
    assert_eq!(
        parse_features(""),
        Err(ParseError { line: 0, kind: ParseErrorKind::MalformedInteger })
    );
}

#[test]
fn feature_names_are_the_trimmed_lines() {
    assert_eq!(
        parse_feature_names("0 birthday;anonymized feature 0\n1 education;school \r\n  2 gender\n"),
        vec![
            "0 birthday;anonymized feature 0".to_string(),
            "1 education;school".to_string(),
            "2 gender".to_string(),
        ]
    );
    assert_eq!(
        parse_feature_names("a\n\nb"),
        vec!["a".to_string(), String::new(), "b".to_string()]
    );
    assert_eq!(parse_feature_names(""), vec![String::new()]);
    assert_eq!(parse_feature_names("naïve"), vec!["naïve".to_string()]);
}

#[test]
fn ego_features_are_the_bits_of_the_text() {
    assert_eq!(parse_ego_features("0 1 1 0\n"), Ok(vec![false, true, true, false]));
    assert_eq!(parse_ego_features("1"), Ok(vec![true]));
    assert_eq!(parse_ego_features(""), Ok(Vec::new()));
    assert_eq!(parse_ego_features(" 1\t0\n1 "), Ok(vec![true, false, true]));
}

#[test]
fn ego_features_refuse_what_is_no_bit() {
    let malformed = ParseError { line: 0, kind: ParseErrorKind::MalformedBoolean };
    assert_eq!(parse_ego_features("0 1 2"), Err(malformed));
    assert_eq!(parse_ego_features("yes"), Err(malformed));
    assert_eq!(parse_ego_features("01"), Err(malformed));
}

#[test]
fn make_graph_reads_count_and_edges() {
    assert_eq!(
        make_graph("3\n0 1\n1 2\n"),
        Ok(vec![vec![0, 1, 0], vec![1, 0, 1], vec![0, 1, 0]])
    );
    assert_eq!(make_graph("2"), Ok(vec![vec![0, 0], vec![0, 0]]));
    assert_eq!(make_graph("0"), Ok(Vec::new()));
}

#[test]
fn make_graph_errors() {
    assert_eq!(
        make_graph("x\n0 1"),
        Err(LoadError::Parse(ParseError { line: 0, kind: ParseErrorKind::MalformedInteger }))
    );
    assert_eq!(
        make_graph("3\n0"),
        Err(LoadError::Parse(ParseError { line: 1, kind: ParseErrorKind::MissingSeparator }))
    );
    assert_eq!(
        make_graph("2\n0 1\n1 2"),
        Err(LoadError::Graph(GraphError::IndexOutOfRange { index: 2, nodes: 2 }))
    );
    assert_eq!(
        make_graph("x\n0 y"),
        Err(LoadError::Parse(ParseError { line: 0, kind: ParseErrorKind::MalformedInteger }))
    );
}

#[test]
fn a_parsed_dataset_builds_a_graph() {
    let text = "4\n0 1\n1 2\n2 3\n";
    let graph = build_graph(
        parse_node_count(text).unwrap(),
        parse_edges(text).unwrap(),
        parse_circles("c: 1 2").unwrap(),
        parse_features("1 1 0").unwrap(),
        parse_ego_features("0 1").unwrap(),
        parse_feature_names("first\nsecond"),
    )
    .unwrap();
    assert_eq!(graph.longest_path(), Ok(3));
    assert_eq!(graph.circles().len(), 1);
    assert_eq!(graph.features(), &HashMap::from([(1, vec![true, false])]));
    assert_eq!(graph.ego_features(), &vec![false, true]);
    assert_eq!(graph.feature_names().len(), 2);
}
