use codeboss::template::{
    flush_literal, parse_choice, parse_sequence, parse_template, Node, ParseError,
};

fn lit(text: &str) -> Node {
    Node::Literal(text.as_bytes().to_vec())
}

fn choice(alternatives: Vec<Vec<Node>>) -> Node {
    Node::Choice(alternatives)
}

#[test]
fn plain_text_is_one_literal() {
    assert_eq!(parse_template("hello world"), Ok(vec![lit("hello world")]));
}

#[test]
fn empty_template_has_no_nodes() {
    assert_eq!(parse_template(""), Ok(vec![]));
}

#[test]
fn escaped_braces_are_literal() {
    assert_eq!(parse_template("\\{literal\\}"), Ok(vec![lit("{literal}")]));
}

#[test]
fn every_escape_is_resolved() {
    assert_eq!(parse_template("a\\|b\\\\c\\{d\\}"), Ok(vec![lit("a|b\\c{d}")]));
}

#[test]
fn backslash_before_other_bytes_stays() {
    assert_eq!(parse_template("a\\nb"), Ok(vec![lit("a\\nb")]));
}

#[test]
fn trailing_backslash_stays() {
    assert_eq!(parse_template("ab\\"), Ok(vec![lit("ab\\")]));
}

#[test]
fn simple_choice() {
    assert_eq!(
        parse_template("{a|b}"),
        Ok(vec![choice(vec![vec![lit("a")], vec![lit("b")]])])
    );
}

#[test]
fn choice_between_literals() {
    assert_eq!(
        parse_template("{fix|Fix}: typo"),
        Ok(vec![choice(vec![vec![lit("fix")], vec![lit("Fix")]]), lit(": typo")])
    );
}

#[test]
fn nested_choice() {
    assert_eq!(
        parse_template("{nested {x|y}|z}"),
        Ok(vec![choice(vec![
            vec![lit("nested "), choice(vec![vec![lit("x")], vec![lit("y")]])],
            vec![lit("z")],
        ])])
    );
}

#[test]
fn empty_alternatives_are_kept() {
    assert_eq!(parse_template("{}"), Ok(vec![choice(vec![vec![]])]));
    assert_eq!(parse_template("{a|}"), Ok(vec![choice(vec![vec![lit("a")], vec![]])]));
    assert_eq!(parse_template("{|a}"), Ok(vec![choice(vec![vec![], vec![lit("a")]])]));
}

#[test]
fn bar_and_closing_brace_are_literal_outside_groups() {
    assert_eq!(parse_template("a|b}c"), Ok(vec![lit("a|b}c")]));
}

#[test]
fn escape_inside_a_group() {
    assert_eq!(
        parse_template("{a\\|b|c\\}}"),
        Ok(vec![choice(vec![vec![lit("a|b")], vec![lit("c}")]])])
    );
}

#[test]
fn unclosed_brace_is_an_error() {
    assert_eq!(parse_template("{a|b"), Err(ParseError::UnclosedBrace));
    assert_eq!(parse_template("{"), Err(ParseError::UnclosedBrace));
    assert_eq!(parse_template("x{a|{b}"), Err(ParseError::UnclosedBrace));
    assert_eq!(parse_template("{a\\}"), Err(ParseError::UnclosedBrace));
}

#[test]
fn unclosed_brace_message() {
    assert_eq!(ParseError::UnclosedBrace.message(), "Unclosed brace in template");
}

#[test]
fn bytes_above_ascii_are_kept() {
    let template = "{é|ü}";
    assert_eq!(
        parse_template(template),
        Ok(vec![choice(vec![vec![lit("é")], vec![lit("ü")]])])
    );
}

#[test]
fn sequence_stops_at_delimiter() {
    let bytes = b"ab|cd";
    let mut pos = 0usize;
    let nodes = parse_sequence(bytes, &mut pos, &[b'|', b'}']);
    assert_eq!(nodes, Ok(vec![lit("ab")]));
    assert_eq!(pos, 2);
}

#[test]
fn sequence_without_stops_runs_to_the_end() {
    let bytes = b"ab|cd";
    let mut pos = 1usize;
    let nodes = parse_sequence(bytes, &mut pos, &[]);
    assert_eq!(nodes, Ok(vec![lit("b|cd")]));
    assert_eq!(pos, 5);
}

#[test]
fn choice_ends_after_its_brace() {
    let bytes = b"{a|b}rest";
    let mut pos = 1usize;
    let node = parse_choice(bytes, &mut pos);
    assert_eq!(node, Ok(choice(vec![vec![lit("a")], vec![lit("b")]])));
    assert_eq!(pos, 5);
}

#[test]
fn flush_moves_pending_bytes() {
    let mut literal = b"abc".to_vec();
    let mut nodes = vec![];
    flush_literal(&mut literal, &mut nodes);
    assert!(literal.is_empty());
    assert_eq!(nodes, vec![lit("abc")]);
    flush_literal(&mut literal, &mut nodes);
    assert_eq!(nodes, vec![lit("abc")]);
}
