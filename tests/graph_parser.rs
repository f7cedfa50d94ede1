use max_cut::graph::Graph;
use max_cut::graph_parser::{parse_line, parse_pace_graph, ParsedLine};

const PACE_TEXT: &str = "p cep 10 11\n\
                         6 7\n\
                         6 8\n\
                         5 6\n\
                         5 7\n\
                         6 10\n\
                         8 10\n\
                         8 9\n\
                         9 10\n\
                         2 3\n\
                         7 8\n\
                         5 8";

fn expected_graph() -> Graph {
    let mut graph_expected = Graph::new_empty(10);
    graph_expected.add_edges(&[
        (5usize, 6usize),
        (5usize, 7usize),
        (4usize, 5usize),
        (4usize, 6usize),
        (5usize, 9usize),
        (7usize, 9usize),
        (7usize, 8usize),
        (8usize, 9usize),
        (1usize, 2usize),
        (6usize, 7usize),
        (4usize, 7usize),
    ]);
    graph_expected
}

#[test]
fn graph_parser_parse_line_graph() {
    let test_line = "p test 4 6";
    let graph_expected = ParsedLine::Graph(4, 6);

    assert_eq!(parse_line(test_line).unwrap(), graph_expected);
}

#[test]
fn graph_parser_parse_line_edge() {
    let test_line = "4 30";
    let edge_expected = ParsedLine::Edge(4 - 1, 30 - 1);

    assert_eq!(parse_line(test_line).unwrap(), edge_expected);
}

#[test]
fn graph_parser_parse_line_err() {
    let test_line = "This line is not recognizable";
    assert!(parse_line(test_line).is_err());
}

#[test]
fn graph_parser_parse_graph() -> Result<(), String> {
    if parse_pace_graph(PACE_TEXT)? == expected_graph() {
        Ok(())
    } else {
        Err("Parsed graph did not match expected graph!".to_owned())
    }
}

#[test]
fn parse_rudy() {
    let test_str = "10 11\n\
                    6 7 1\n\
                    6 8 1\n\
                    5 6 1\n\
                    5 7 1\n\
                    6 10 1\n\
                    8 10 1\n\
                    8 9 1\n\
                    9 10 1\n\
                    2 3 1\n\
                    7 8 1\n\
                    5 8 1";

    assert_eq!(max_cut::graph_parser::parse_rudy(test_str).unwrap(), expected_graph());
}

#[test]
fn tests_parse_line_graph() {
    let test_line = "p test 4 6";
    let graph_expected = ParsedLine::Graph(4, 6);

    assert_eq!(parse_line(test_line).unwrap(), graph_expected);
}

#[test]
fn tests_parse_line_edge() {
    let test_line = "4 30";
    let edge_expected = ParsedLine::Edge(4 - 1, 30 - 1);

    assert_eq!(parse_line(test_line).unwrap(), edge_expected);
}

#[test]
fn tests_parse_line_err() {
    let test_line = "This line is not recognizable";
    assert!(parse_line(test_line).is_err());
}

#[test]
fn tests_parse_graph() -> Result<(), String> {
    if parse_pace_graph(PACE_TEXT)? == expected_graph() {
        Ok(())
    } else {
        Err("Parsed graph did not match expected graph!".to_owned())
    }
}

#[test]
fn parse_line_comment_keeps_text() {
    assert_eq!(parse_line("c hello").unwrap(), ParsedLine::Comment("hello"));
}

#[test]
fn parse_line_error_message_names_line() {
    assert_eq!(parse_line("1 2 3"), Err("unrecognized line: '1 2 3'".to_string()));
}

#[test]
fn parse_line_zero_vertex_is_refused() {
    assert!(parse_line("0 3").is_err());
}

#[test]
fn parse_line_plus_sign_and_overflow() {
    assert_eq!(parse_line("+2 3").unwrap(), ParsedLine::Edge(1, 2));
    assert!(parse_line("1 99999999999999999999999").is_err());
}

#[test]
fn parse_pace_graph_without_header() {
    assert_eq!(parse_pace_graph("1 2\n2 3"), Err("no p-line".to_string()));
}

#[test]
fn parse_pace_graph_reports_first_bad_line() {
    assert_eq!(
        parse_pace_graph("p x 3 1\n1 2\nbad line here\n1 x"),
        Err("unrecognized line: 'bad line here'".to_string())
    );
}

#[test]
fn parse_pace_graph_edge_out_of_range() {
    assert_eq!(
        parse_pace_graph("p x 3 1\n1 4"),
        Err("edge out of range: '1 4'".to_string())
    );
}

#[test]
fn parse_pace_graph_skips_comments_and_crlf() {
    let g = parse_pace_graph("c note\r\np x 3 2\r\n1 2\r\nc other\r\n2 3\r\n").unwrap();
    assert_eq!(g.size(), 3);
    assert_eq!(g.edge_size(), 2);
    assert!(g.contains_edge(&(0, 1)));
    assert!(g.contains_edge(&(1, 2)));
}

#[test]
fn parse_rudy_empty_and_bad_lines() {
    assert_eq!(max_cut::graph_parser::parse_rudy(""), Err("emtry file".to_string()));
    assert_eq!(max_cut::graph_parser::parse_rudy("x 1"), Err("unrecognized line: 'x 1'".to_string()));
    assert_eq!(max_cut::graph_parser::parse_rudy("3 1\n1 2"), Err("unrecognized line: '1 2'".to_string()));
    assert_eq!(max_cut::graph_parser::parse_rudy("3 1\n1 4 1"), Err("unrecognized line: '1 4 1'".to_string()));
}
