use max_clique::graph::Graph;
use max_clique::parse::{parse_line, ParsedLine};

fn bytes(s: &str) -> Vec<u8> {
    s.as_bytes().to_vec()
}

#[test]
fn parses_edge_line() {
    assert_eq!(parse_line(&bytes("e 1 2")), ParsedLine::Edge(1, 2));
    assert_eq!(parse_line(&bytes("e 40000 65535")), ParsedLine::Edge(40000, 65535));
}

#[test]
fn trailing_content_is_allowed() {
    assert_eq!(parse_line(&bytes("e 3 4 extra")), ParsedLine::Edge(3, 4));
    assert_eq!(parse_line(&bytes("e 3 4\n")), ParsedLine::Edge(3, 4));
}

#[test]
fn other_lines_are_ignored() {
    assert_eq!(parse_line(&bytes("c a comment")), ParsedLine::Ignored);
    assert_eq!(parse_line(&bytes("p edge 5 7")), ParsedLine::Ignored);
    assert_eq!(parse_line(&bytes("")), ParsedLine::Ignored);
    assert_eq!(parse_line(&bytes("e")), ParsedLine::Ignored);
    assert_eq!(parse_line(&bytes("e 12")), ParsedLine::Ignored);
    assert_eq!(parse_line(&bytes("e  2")), ParsedLine::Ignored);
    assert_eq!(parse_line(&bytes("e x 2")), ParsedLine::Ignored);
}

#[test]
fn out_of_range_identifier_is_invalid() {
    assert_eq!(parse_line(&bytes("e 70000 2")), ParsedLine::Invalid);
    assert_eq!(parse_line(&bytes("e 2 65536")), ParsedLine::Invalid);
    assert_eq!(parse_line(&bytes("e 99999999999999999999 1")), ParsedLine::Invalid);
}

#[test]
fn from_lines_builds_the_described_graph() {
    let lines = vec![
        bytes("c example"),
        bytes("p edge 3 2"),
        bytes("e 1 2"),
        bytes("e 2 3"),
    ];
    let g = Graph::from_lines(&lines).unwrap();
    assert_eq!(g.degree(2), 2);
    assert_eq!(g.degree(1), 1);
    assert_eq!(g.degree(3), 1);
}

#[test]
fn from_lines_rejects_bad_identifier() {
    let lines = vec![bytes("e 1 2"), bytes("e 1 100000")];
    assert!(Graph::from_lines(&lines).is_none());
}
