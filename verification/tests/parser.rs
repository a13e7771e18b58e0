use metta_parser::grammar::{parse, ParseError};
use metta_parser::node::{SyntaxNode, SyntaxNodeType};

fn kinds(nodes: &[SyntaxNode]) -> Vec<SyntaxNodeType> {
    nodes.iter().map(|n| n.node_type).collect()
}

fn assert_clean(n: &SyntaxNode) {
    // reserved kinds and fields never appear under the current grammar
    assert!(n.node_type != SyntaxNodeType::Whitespace);
    assert!(n.node_type != SyntaxNodeType::LeftoverText);
    assert!(n.node_type != SyntaxNodeType::ErrorGroup);
    assert!(n.message.is_none());
    assert!(n.is_complete);
    for c in &n.sub_nodes {
        assert_clean(c);
    }
}

#[test]
fn parses_simple_group() {
    let roots = parse("(a b)").unwrap();
    assert_eq!(roots.len(), 1);
    let g = &roots[0];
    assert_eq!(g.node_type, SyntaxNodeType::ExpressionGroup);
    assert_eq!(g.src_range(), (0, 5));
    assert_eq!(
        kinds(&g.sub_nodes),
        vec![
            SyntaxNodeType::OpenParen,
            SyntaxNodeType::WordToken,
            SyntaxNodeType::WordToken,
            SyntaxNodeType::CloseParen
        ]
    );
    assert_eq!(g.sub_nodes[1].parsed_text.as_deref(), Some("a"));
    assert_eq!(g.sub_nodes[2].parsed_text.as_deref(), Some("b"));
    assert_eq!(g.sub_nodes[0].src_range(), (0, 1));
    assert_eq!(g.sub_nodes[1].src_range(), (1, 2));
    assert_eq!(g.sub_nodes[2].src_range(), (3, 4));
    assert_eq!(g.sub_nodes[3].src_range(), (4, 5));
    assert_clean(g);
}

#[test]
fn children_ranges_ordered_and_contained() {
    let roots = parse("(a (b c) \"s\")").unwrap();
    let g = &roots[0];
    let (ps, pe) = g.src_range();
    let mut prev_end = ps;
    for c in &g.sub_nodes {
        let (cs, ce) = c.src_range();
        assert!(prev_end <= cs);
        assert!(cs < ce);
        assert!(ps <= cs && ce <= pe);
        prev_end = ce;
    }
}

#[test]
fn flush_children_reconstruct_parent() {
    let src = "(a)";
    let roots = parse(src).unwrap();
    let g = &roots[0];
    let (ps, pe) = g.src_range();
    let mut joined = String::new();
    for c in &g.sub_nodes {
        let (cs, ce) = c.src_range();
        joined.push_str(&src[cs..ce]);
    }
    assert_eq!(joined, &src[ps..pe]);
}

#[test]
fn parses_variable() {
    let roots = parse("$x").unwrap();
    assert_eq!(roots.len(), 1);
    let v = &roots[0];
    assert_eq!(v.node_type, SyntaxNodeType::VariableToken);
    assert_eq!(v.parsed_text.as_deref(), Some("x"));
    assert_eq!(v.src_range(), (0, 2));
    assert!(v.sub_nodes.is_empty());
}

#[test]
fn parses_exec_expression() {
    let roots = parse("!(foo 1)").unwrap();
    assert_eq!(roots.len(), 1);
    let g = &roots[0];
    assert_eq!(g.node_type, SyntaxNodeType::ExpressionGroup);
    assert_eq!(g.sub_nodes.len(), 2);
    assert_eq!(g.sub_nodes[0].node_type, SyntaxNodeType::WordToken);
    assert_eq!(g.sub_nodes[0].parsed_text.as_deref(), Some("!"));
    assert_eq!(g.sub_nodes[0].src_range(), (0, 1));
    let inner = &g.sub_nodes[1];
    assert_eq!(inner.node_type, SyntaxNodeType::ExpressionGroup);
    assert_eq!(inner.src_range(), (1, 8));
    assert_eq!(g.src_range(), (0, 8));
    assert_eq!(inner.sub_nodes[1].parsed_text.as_deref(), Some("foo"));
    assert_eq!(inner.sub_nodes[2].parsed_text.as_deref(), Some("1"));
}

#[test]
fn unclosed_expression_fails() {
    assert_eq!(parse("(a"), Err(ParseError::UnclosedExpression));
    assert_eq!(
        ParseError::UnclosedExpression.message(),
        "Unclosed expression"
    );
}

#[test]
fn unexpected_close_paren_fails() {
    assert_eq!(parse(")"), Err(ParseError::UnexpectedCloseParen));
    assert_eq!(
        ParseError::UnexpectedCloseParen.message(),
        "Unexpected ')' at top level"
    );
}

#[test]
fn bang_without_expression_fails() {
    assert_eq!(parse("!"), Err(ParseError::MissingExpressionAfterBang));
    assert_eq!(
        ParseError::MissingExpressionAfterBang.message(),
        "Expected an expression after '!'"
    );
}

#[test]
fn bang_is_its_own_word() {
    // the bang is a one-character word; anything but `(` after it fails
    assert_eq!(parse("!abc"), Err(ParseError::MissingExpressionAfterBang));
    assert_eq!(parse("! \t (a)").unwrap().len(), 1);
}

#[test]
fn unexpected_end_of_input_message() {
    assert_eq!(
        ParseError::UnexpectedEndOfInput.message(),
        "Unexpected end of input inside expression"
    );
}

#[test]
fn top_level_comment_skipped() {
    let roots = parse("; comment\n(a)").unwrap();
    assert_eq!(roots.len(), 1);
    assert_eq!(roots[0].node_type, SyntaxNodeType::ExpressionGroup);
    assert_eq!(roots[0].src_range(), (10, 13));
}

#[test]
fn comment_only_input_yields_no_roots() {
    assert_eq!(parse("; just a comment").unwrap().len(), 0);
}

#[test]
fn comment_inside_group_retained() {
    let roots = parse("(a ; c\n b)").unwrap();
    assert_eq!(roots.len(), 1);
    let g = &roots[0];
    assert_eq!(
        kinds(&g.sub_nodes),
        vec![
            SyntaxNodeType::OpenParen,
            SyntaxNodeType::WordToken,
            SyntaxNodeType::Comment,
            SyntaxNodeType::WordToken,
            SyntaxNodeType::CloseParen
        ]
    );
    let comment = &g.sub_nodes[2];
    // the comment's range stops before the newline and it carries no text
    assert_eq!(comment.src_range(), (3, 6));
    assert!(comment.parsed_text.is_none());
    assert_eq!(g.sub_nodes[3].parsed_text.as_deref(), Some("b"));
}

#[test]
fn parses_string_token() {
    let roots = parse("\"hi there\"").unwrap();
    assert_eq!(roots.len(), 1);
    let s = &roots[0];
    assert_eq!(s.node_type, SyntaxNodeType::StringToken);
    assert_eq!(s.parsed_text.as_deref(), Some("hi there"));
    // the quotes are in the range but not in the text
    assert_eq!(s.src_range(), (0, 10));
}

#[test]
fn unterminated_string_accepted() {
    // an unterminated string is accepted silently, unlike an unclosed group
    let roots = parse("\"abc").unwrap();
    assert_eq!(roots.len(), 1);
    assert_eq!(roots[0].node_type, SyntaxNodeType::StringToken);
    assert_eq!(roots[0].parsed_text.as_deref(), Some("abc"));
    assert_eq!(roots[0].src_range(), (0, 4));
}

#[test]
fn string_keeps_delimiters_and_whitespace_in_text() {
    let roots = parse("\"(a ; b)\"").unwrap();
    assert_eq!(roots[0].parsed_text.as_deref(), Some("(a ; b)"));
}

#[test]
fn nested_groups() {
    let roots = parse("(a (b c))").unwrap();
    let g = &roots[0];
    assert_eq!(g.sub_nodes.len(), 4);
    let inner = &g.sub_nodes[2];
    assert_eq!(inner.node_type, SyntaxNodeType::ExpressionGroup);
    assert_eq!(inner.src_range(), (3, 8));
    assert_eq!(g.src_range(), (0, 9));
}

#[test]
fn multibyte_characters_advance_byte_offsets() {
    // '\u{e9}' and '\u{3b1}' each encode as two bytes
    let roots = parse("(\u{e9} $\u{3b1})").unwrap();
    let g = &roots[0];
    assert_eq!(g.src_range(), (0, 8));
    assert_eq!(g.sub_nodes[1].parsed_text.as_deref(), Some("\u{e9}"));
    assert_eq!(g.sub_nodes[1].src_range(), (1, 3));
    assert_eq!(g.sub_nodes[2].node_type, SyntaxNodeType::VariableToken);
    assert_eq!(g.sub_nodes[2].parsed_text.as_deref(), Some("\u{3b1}"));
    assert_eq!(g.sub_nodes[2].src_range(), (4, 7));
    assert_eq!(g.sub_nodes[3].src_range(), (7, 8));
}

#[test]
fn word_stops_at_delimiters() {
    let roots = parse("ab(c)").unwrap();
    assert_eq!(roots.len(), 2);
    assert_eq!(roots[0].parsed_text.as_deref(), Some("ab"));
    assert_eq!(roots[0].src_range(), (0, 2));
    assert_eq!(roots[1].node_type, SyntaxNodeType::ExpressionGroup);
}

#[test]
fn multiple_roots_in_order() {
    let roots = parse("a $b \"c\" (d)").unwrap();
    assert_eq!(
        kinds(&roots),
        vec![
            SyntaxNodeType::WordToken,
            SyntaxNodeType::VariableToken,
            SyntaxNodeType::StringToken,
            SyntaxNodeType::ExpressionGroup
        ]
    );
}

#[test]
fn empty_and_blank_inputs_yield_no_roots() {
    assert_eq!(parse("").unwrap().len(), 0);
    assert_eq!(parse("  \t\n  ").unwrap().len(), 0);
}

#[test]
fn error_inside_nesting_propagates() {
    assert_eq!(parse("(a (b)"), Err(ParseError::UnclosedExpression));
    assert_eq!(parse("(!)"), Err(ParseError::MissingExpressionAfterBang));
}

#[test]
fn is_leaf_partitions_kinds() {
    assert!(SyntaxNodeType::Comment.is_leaf());
    assert!(SyntaxNodeType::VariableToken.is_leaf());
    assert!(SyntaxNodeType::StringToken.is_leaf());
    assert!(SyntaxNodeType::WordToken.is_leaf());
    assert!(SyntaxNodeType::OpenParen.is_leaf());
    assert!(SyntaxNodeType::CloseParen.is_leaf());
    assert!(SyntaxNodeType::Whitespace.is_leaf());
    assert!(SyntaxNodeType::LeftoverText.is_leaf());
    assert!(!SyntaxNodeType::ExpressionGroup.is_leaf());
    assert!(!SyntaxNodeType::ErrorGroup.is_leaf());
}

#[test]
fn unicode_whitespace_separates_tokens() {
    // ideographic space, no-break space, CR and tab all count as whitespace
    let roots = parse("(a\u{3000}b)\u{a0}\r\tc").unwrap();
    assert_eq!(roots.len(), 2);
    let g = &roots[0];
    assert_eq!(g.sub_nodes.len(), 4);
    assert_eq!(g.sub_nodes[1].parsed_text.as_deref(), Some("a"));
    assert_eq!(g.sub_nodes[2].parsed_text.as_deref(), Some("b"));
    assert_eq!(roots[1].parsed_text.as_deref(), Some("c"));
}

#[test]
fn variable_stops_at_delimiters() {
    let roots = parse("$x(y)").unwrap();
    assert_eq!(roots.len(), 2);
    assert_eq!(roots[0].node_type, SyntaxNodeType::VariableToken);
    assert_eq!(roots[0].parsed_text.as_deref(), Some("x"));
    assert_eq!(roots[0].src_range(), (0, 2));
}

#[test]
fn empty_variable_before_delimiter() {
    // `$` immediately followed by a stop character carries empty text
    let roots = parse("($)").unwrap();
    let v = &roots[0].sub_nodes[1];
    assert_eq!(v.node_type, SyntaxNodeType::VariableToken);
    assert_eq!(v.parsed_text.as_deref(), Some(""));
    assert_eq!(v.src_range(), (1, 2));
}

#[test]
fn empty_group_has_only_delimiters() {
    let roots = parse("()").unwrap();
    let g = &roots[0];
    assert_eq!(
        kinds(&g.sub_nodes),
        vec![SyntaxNodeType::OpenParen, SyntaxNodeType::CloseParen]
    );
    assert_eq!(g.src_range(), (0, 2));
}

#[test]
fn empty_string_token() {
    let roots = parse("\"\"").unwrap();
    assert_eq!(roots[0].parsed_text.as_deref(), Some(""));
    assert_eq!(roots[0].src_range(), (0, 2));
}

#[test]
fn reserved_kinds_never_emitted() {
    let roots = parse("! (a $v \"s\" ; note\n (b))").unwrap();
    for r in &roots {
        assert_clean(r);
    }
}
