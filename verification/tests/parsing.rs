use bracket_tree::error::ParseError;
use bracket_tree::label::{Label, StringLabel};
use bracket_tree::node::Node;
use bracket_tree::parsing::{BracketNotationParser, Parser};
use bracket_tree::scan::Tokens;

fn text_of(node: &Node<StringLabel>) -> &str {
    node.get_label().get_label()
}

/// The tree written back in the usual bracket notation.
fn written(node: &Node<StringLabel>) -> String {
    let mut text = String::from("{");
    text.push_str(text_of(node));
    for child in node.get_children() {
        text.push_str(&written(child));
    }
    text.push('}');
    text
}

fn depth(node: &Node<StringLabel>) -> usize {
    1 + node.get_children().iter().map(depth).max().unwrap_or(0)
}

fn error_of(text: &str) -> ParseError {
    match BracketNotationParser::new().parse(text) {
        Ok(_) => panic!("the text was read as a tree"),
        Err(error) => error,
    }
}

#[test]
fn it_parses_simple() {
    let simple_tree = r" \{ {koren{levy}{pravy}}".to_owned();
    let parser = BracketNotationParser::new();
    let parse_result = parser.parse(&simple_tree);
    assert!(parse_result.is_ok());
    let Ok(parsed_tree) = parse_result else {
        panic!("unable to parse tree");
    };

    assert!(parsed_tree.get_children().len() == 2);
    assert_eq!(parsed_tree.get_children()[0].is_leaf(), true);
    assert_eq!(parsed_tree.get_children()[1].is_leaf(), true);
}

#[test]
fn it_parses_longer_trees() {
    let tree_string = r"{glaninger weg{1{}{A}}{2{{1}{2}{3}{4}{5}{6}}}{3{{3}{6}{8}}{A}}{4{{1}{2}{3}{4}}}{5{{3}{4}{5}}}{6{}{A}}{7{{1}{2}}{A{1}{2}{3}{5}}}{8{{1}{2}{3}{4}{6}{7}{8}}{A}{B{1}}}{9}{10}{11}{12{{1}}}{13{}{A}{B}}{14}{15{}{A}}{17}{18}{19{{1}}}{20}{21}}".to_owned();
    let parser = BracketNotationParser::new();
    let parse_result = parser.parse(&tree_string);
    assert!(parse_result.is_ok());
}

#[test]
fn simple_tree_has_its_labels() {
    let root = BracketNotationParser::new().parse(r" \{ {koren{levy}{pravy}}").unwrap();
    assert_eq!(text_of(&root), "koren");
    assert_eq!(root.get_children().len(), 2);
    assert_eq!(text_of(&root.get_children()[0]), "levy");
    assert_eq!(text_of(&root.get_children()[1]), "pravy");
    assert!(root.get_children()[0].is_leaf());
    assert!(root.get_children()[1].is_leaf());
    assert_eq!(depth(&root), 2);
}

#[test]
fn longer_tree_has_the_written_child_counts() {
    let tree_string = r"{glaninger weg{1{}{A}}{2{{1}{2}{3}{4}{5}{6}}}{3{{3}{6}{8}}{A}}{4{{1}{2}{3}{4}}}{5{{3}{4}{5}}}{6{}{A}}{7{{1}{2}}{A{1}{2}{3}{5}}}{8{{1}{2}{3}{4}{6}{7}{8}}{A}{B{1}}}{9}{10}{11}{12{{1}}}{13{}{A}{B}}{14}{15{}{A}}{17}{18}{19{{1}}}{20}{21}}";
    let root = BracketNotationParser::new().parse(tree_string).unwrap();
    assert_eq!(text_of(&root), "glaninger weg");
    let counts: Vec<usize> = root.get_children().iter().map(|c| c.get_children().len()).collect();
    assert_eq!(counts, vec![2, 1, 2, 1, 1, 2, 2, 3, 0, 0, 0, 1, 3, 0, 2, 0, 0, 1, 0, 0]);
    let second = &root.get_children()[1];
    assert_eq!(text_of(second), "2");
    assert_eq!(second.get_children().len(), 1);
    assert_eq!(text_of(&second.get_children()[0]), "");
    assert_eq!(second.get_children()[0].get_children().len(), 6);
    let eighth = &root.get_children()[7];
    assert_eq!(text_of(eighth), "8");
    assert_eq!(eighth.get_children()[0].get_children().len(), 7);
    assert_eq!(text_of(&eighth.get_children()[2]), "B");
    assert_eq!(text_of(&eighth.get_children()[2].get_children()[0]), "1");
    assert_eq!(depth(&root), 4);
    assert_eq!(written(&root), tree_string);
}

#[test]
fn written_trees_are_read_back() {
    for text in ["{a}", "{}", "{a{b}}", "{a{b}{c}}", "{a{b{c{d}}}{e}}", "{ko\u{159}en{lev\u{fd}}{}}"] {
        let root = BracketNotationParser::new().parse(text).unwrap();
        assert_eq!(written(&root), text);
    }
}

#[test]
fn single_node_keeps_its_label() {
    for label in ["", "a", "label text", "back\\slash inside", "\u{17e}lu\u{165}ou\u{10d}k\u{fd}"] {
        let text = format!("{{{}}}", label);
        let root = BracketNotationParser::new().parse(&text).unwrap();
        assert!(root.is_leaf());
        assert_eq!(text_of(&root), label);
    }
}

#[test]
fn label_that_ends_in_the_escape_byte_hides_the_closing_token() {
    assert_eq!(error_of("{a\\}"), ParseError::StructuralError);
}

#[test]
fn too_few_tokens_are_a_structural_error() {
    assert_eq!(error_of(""), ParseError::StructuralError);
    assert_eq!(error_of("no tokens"), ParseError::StructuralError);
    assert_eq!(error_of("{"), ParseError::StructuralError);
    assert_eq!(error_of("}"), ParseError::StructuralError);
    assert_eq!(error_of("{a"), ParseError::StructuralError);
    assert_eq!(error_of("{a\\{b\\}"), ParseError::StructuralError);
}

#[test]
fn extra_closing_token_is_unbalanced() {
    assert_eq!(error_of("{a}}"), ParseError::UnbalancedClosingToken);
    assert_eq!(error_of("{a{b}}}"), ParseError::UnbalancedClosingToken);
    assert_eq!(error_of("{a}}{b}"), ParseError::UnbalancedClosingToken);
}

#[test]
fn opening_token_at_the_end_is_unterminated() {
    assert_eq!(error_of("{a{b"), ParseError::UnterminatedLabel);
    assert_eq!(error_of("{a{b}{"), ParseError::UnterminatedLabel);
    assert_eq!(error_of("{a}{"), ParseError::UnterminatedLabel);
}

#[test]
fn opening_token_after_the_root_has_no_parent() {
    assert_eq!(error_of("{a}{b}"), ParseError::MultipleRoots);
    assert_eq!(error_of("{a{b}}{c}"), ParseError::MultipleRoots);
}

#[test]
fn open_nodes_are_closed_at_the_end_of_the_text() {
    let root = BracketNotationParser::new().parse("{a{b}").unwrap();
    assert_eq!(written(&root), "{a{b}}");
    let root = BracketNotationParser::new().parse("{a{b{c}{d{e}").unwrap();
    assert_eq!(written(&root), "{a{b{c}{d{e}}}}");
}

#[test]
fn closing_token_before_the_root_is_unbalanced() {
    assert_eq!(error_of("}a{b}"), ParseError::UnbalancedClosingToken);
    assert_eq!(error_of("}{"), ParseError::UnbalancedClosingToken);
    assert_eq!(error_of("}}"), ParseError::UnbalancedClosingToken);
    // with one token only there are too few
    assert_eq!(error_of("}a"), ParseError::StructuralError);
}

#[test]
fn text_behind_a_closing_token_is_dropped() {
    let root = BracketNotationParser::new().parse("x{a{b}y{c}z}w").unwrap();
    assert_eq!(written(&root), "{a{b}{c}}");
}

#[test]
fn escaped_tokens_stay_in_the_label() {
    let root = BracketNotationParser::new().parse("{a\\{b\\}c{d}}").unwrap();
    assert_eq!(text_of(&root), "a\\{b\\}c");
    assert_eq!(root.get_children().len(), 1);
    // two escape bytes in a row: the token behind them is still escaped
    let root = BracketNotationParser::new().parse("{a\\\\}b}").unwrap();
    assert_eq!(text_of(&root), "a\\\\}b");
}

#[test]
fn usual_tokens_are_braces_and_backslash() {
    let parser = BracketNotationParser::new();
    assert_eq!(parser.token_start(), b'{');
    assert_eq!(parser.token_end(), b'}');
    assert_eq!(parser.escape_char(), b'\\');
}

#[test]
fn other_tokens_can_be_chosen() {
    let parser = BracketNotationParser::with_tokens(Tokens { start: b'(', end: b')', escape: b'!' });
    assert_eq!(parser.token_start(), b'(');
    assert_eq!(parser.token_end(), b')');
    assert_eq!(parser.escape_char(), b'!');
    let root = parser.parse("(a{}(b!))(c))").unwrap();
    assert_eq!(text_of(&root), "a{}");
    assert_eq!(root.get_children().len(), 2);
    assert_eq!(text_of(&root.get_children()[0]), "b!)");
    assert_eq!(text_of(&root.get_children()[1]), "c");
}

#[test]
fn byte_that_opens_and_closes_opens() {
    let parser = BracketNotationParser::with_tokens(Tokens { start: b'|', end: b'|', escape: b'\\' });
    assert!(matches!(parser.parse("|a|"), Err(ParseError::UnterminatedLabel)));
}

#[test]
fn text_with_long_characters_next_to_tokens_is_read() {
    let root = BracketNotationParser::new().parse("\u{1f332}{\u{e9}{\u{1f333}\u{20ac}}{\u{159}}}").unwrap();
    assert_eq!(written(&root), "{\u{e9}{\u{1f333}\u{20ac}}{\u{159}}}");
}

#[test]
fn parse_bytes_reads_the_same_tree() {
    let parser = BracketNotationParser::new();
    let root = parser.parse_bytes(b" \\{ {koren{levy}{pravy}}").unwrap();
    assert_eq!(written(&root), "{koren{levy}{pravy}}");
    assert!(matches!(parser.parse_bytes(b"{a}}"), Err(ParseError::UnbalancedClosingToken)));
    assert!(matches!(parser.parse_bytes(b"{"), Err(ParseError::StructuralError)));
}

#[test]
fn label_that_is_not_utf8_is_an_encoding_error() {
    let parser = BracketNotationParser::new();
    assert!(matches!(parser.parse_bytes(b"{\xff}"), Err(ParseError::InvalidEncoding)));
    assert!(matches!(parser.parse_bytes(b"{a{\xc3}}"), Err(ParseError::InvalidEncoding)));
    // the label is tested before the missing parent
    assert!(matches!(parser.parse_bytes(b"{a}{\xff}"), Err(ParseError::InvalidEncoding)));
    // the first token is tested before the label
    assert!(matches!(parser.parse_bytes(b"}\xff}"), Err(ParseError::UnbalancedClosingToken)));
    // a closing byte inside a character cuts the character in two
    let cutting = BracketNotationParser::with_tokens(Tokens { start: b'{', end: 0xa9, escape: b'\\' });
    assert!(matches!(cutting.parse("{x\u{e9}"), Err(ParseError::InvalidEncoding)));
}
