use sexpr::error::LspError;
use sexpr::lexer::{tokenize, Token, TokenType};
use sexpr::parser::{parse_tokens, Node, Parser, TokenContext};

fn span(line: usize, start: usize, end: usize) -> TokenContext {
    TokenContext { line, start, end }
}

fn tokens_of(source: &str) -> Vec<Token> {
    let (tokens, errors) = tokenize(source.as_bytes());
    assert!(errors.is_empty());
    tokens
}

fn parse(source: &str) -> (Vec<Node>, Vec<LspError>) {
    parse_tokens(&tokens_of(source))
}

fn show(node: &Node) -> String {
    match node {
        Node::Number { val, .. } => format!("n:{}", val),
        Node::String { val, .. } => format!("s:{}", val),
        Node::Ident { val, .. } => format!("i:{}", val),
        Node::List(children) => {
            let inner: Vec<String> = children.iter().map(show).collect();
            format!("[{}]", inner.join(" "))
        }
        Node::Var { ident, value, .. } => format!("{}={}", ident, show(value)),
        Node::Null => "null".to_string(),
    }
}

#[test]
fn number_token_becomes_number_node() {
    let (nodes, errors) = parse("42");
    assert!(errors.is_empty());
    assert_eq!(nodes.len(), 1);
    match &nodes[0] {
        Node::Number { ctx, val } => {
            assert_eq!(val, "42");
            assert_eq!(*ctx, span(0, 0, 2));
        }
        other => panic!("not a number: {:?}", other),
    }
}

#[test]
fn atoms_carry_the_span_of_their_token() {
    let (nodes, errors) = parse("\"hi\" name");
    assert!(errors.is_empty());
    assert_eq!(nodes.len(), 2);
    match &nodes[0] {
        Node::String { ctx, val } => {
            assert_eq!(val, "hi");
            assert_eq!(*ctx, span(0, 1, 3));
        }
        other => panic!("not a string: {:?}", other),
    }
    match &nodes[1] {
        Node::Ident { ctx, val } => {
            assert_eq!(val, "name");
            assert_eq!(*ctx, span(0, 5, 9));
        }
        other => panic!("not an identifier: {:?}", other),
    }
}

#[test]
fn list_holds_its_forms_in_order() {
    let (nodes, errors) = parse("(1 2 3)");
    assert!(errors.is_empty());
    assert_eq!(nodes.len(), 1);
    assert_eq!(show(&nodes[0]), "[n:1 n:2 n:3]");
}

#[test]
fn list_may_be_empty_and_nested() {
    let (nodes, errors) = parse("() ((1) (2 (x \"y\")))");
    assert!(errors.is_empty());
    assert_eq!(nodes.len(), 2);
    assert_eq!(show(&nodes[0]), "[]");
    assert_eq!(show(&nodes[1]), "[[n:1] [n:2 [i:x s:y]]]");
}

#[test]
fn definition_carries_the_span_of_its_name() {
    let (nodes, errors) = parse("#(x 5)");
    assert!(errors.is_empty());
    assert_eq!(nodes.len(), 1);
    match &nodes[0] {
        Node::Var { ctx, ident, value } => {
            assert_eq!(ident, "x");
            assert_eq!(*ctx, span(0, 2, 3));
            assert_eq!(show(value), "n:5");
        }
        other => panic!("not a definition: {:?}", other),
    }
}

#[test]
fn definition_takes_any_form_as_value() {
    let (nodes, errors) = parse("#(a (1 b)) #(c #(d 2))");
    assert!(errors.is_empty());
    assert_eq!(nodes.len(), 2);
    assert_eq!(show(&nodes[0]), "a=[n:1 i:b]");
    assert_eq!(show(&nodes[1]), "c=d=n:2");
}

#[test]
fn parser_consumes_one_form_per_call() {
    let tokens = tokens_of("(1 (2)) 4 #(x 5) y");
    let mut parser = Parser::new(&tokens);
    assert_eq!(show(&parser.next().unwrap().unwrap()), "[n:1 [n:2]]");
    assert_eq!(show(&parser.next().unwrap().unwrap()), "n:4");
    assert_eq!(show(&parser.next().unwrap().unwrap()), "x=n:5");
    assert_eq!(show(&parser.next().unwrap().unwrap()), "i:y");
    assert!(parser.next().is_none());
    assert!(parser.next().is_none());
}

#[test]
fn no_tokens_yield_no_forms() {
    let tokens: Vec<Token> = Vec::new();
    let mut parser = Parser::new(&tokens);
    assert!(parser.next().is_none());
    let (nodes, errors) = parse_tokens(&tokens);
    assert!(nodes.is_empty());
    assert!(errors.is_empty());
}

#[test]
fn eof_token_ends_the_forms() {
    let (nodes, errors) = parse("1 \n");
    assert!(errors.is_empty());
    assert_eq!(nodes.len(), 1);
    let tokens = vec![
        Token { token_type: TokenType::Number("1".to_string()), line: 0, start: 0, end: 1 },
        Token { token_type: TokenType::EOF, line: 0, start: 1, end: 1 },
        Token { token_type: TokenType::Number("2".to_string()), line: 0, start: 2, end: 3 },
    ];
    let (nodes, errors) = parse_tokens(&tokens);
    assert!(errors.is_empty());
    assert_eq!(nodes.len(), 1);
    assert_eq!(show(&nodes[0]), "n:1");
}

#[test]
fn stray_closing_delimiter_is_an_error_at_its_place() {
    let (nodes, errors) = parse(" )");
    assert!(nodes.is_empty());
    assert_eq!(errors.len(), 1);
    assert_eq!(errors[0].message(), "Unexpected DelimitorRight, wanted Atom or List");
    assert_eq!(errors[0].context(), span(0, 1, 1));
}

#[test]
fn parsing_goes_on_behind_the_offending_token() {
    let (nodes, errors) = parse(") 5 (a b)");
    assert_eq!(errors.len(), 1);
    assert_eq!(nodes.len(), 2);
    assert_eq!(show(&nodes[0]), "n:5");
    assert_eq!(show(&nodes[1]), "[i:a i:b]");
}

#[test]
fn unclosed_list_is_an_error_without_a_place() {
    let (nodes, errors) = parse("(1 2");
    assert!(nodes.is_empty());
    assert_eq!(errors.len(), 1);
    assert_eq!(errors[0].message(), "Unexpected EOF in place of DelimitorRight");
    assert_eq!(errors[0].context(), span(0, 0, 0));
}

#[test]
fn list_cut_off_at_an_eof_token_cites_that_token() {
    let (nodes, errors) = parse("(1 2 \n");
    assert!(nodes.is_empty());
    assert_eq!(errors.len(), 1);
    assert_eq!(errors[0].message(), "Unexpected DelimitorRight in place of EOF");
    assert_eq!(errors[0].context(), span(1, 6, 6));
}

#[test]
fn opening_delimiter_alone_wants_a_list() {
    let (nodes, errors) = parse("(");
    assert!(nodes.is_empty());
    assert_eq!(errors.len(), 1);
    assert_eq!(errors[0].message(), "Unexpected EOF, wanted List");
    assert_eq!(errors[0].context(), span(0, 0, 0));
}

#[test]
fn definition_needs_an_opening_delimiter() {
    let (nodes, errors) = parse("# x y");
    assert_eq!(errors.len(), 1);
    assert_eq!(errors[0].message(), "Unexpected DelimitorLeft in place of Ident(\"x\")");
    assert_eq!(errors[0].context(), span(0, 2, 3));
    assert_eq!(nodes.len(), 1);
    assert_eq!(show(&nodes[0]), "i:y");
}

#[test]
fn definition_needs_a_name() {
    let (nodes, errors) = parse("#(5 1");
    assert_eq!(errors.len(), 1);
    assert_eq!(errors[0].message(), "Unexpected Number(5), wanted an Identifier");
    assert_eq!(errors[0].context(), span(0, 2, 3));
    assert_eq!(nodes.len(), 1);
    assert_eq!(show(&nodes[0]), "n:1");
}

#[test]
fn definition_cut_off_before_its_name() {
    let (nodes, errors) = parse("#(");
    assert!(nodes.is_empty());
    assert_eq!(errors.len(), 1);
    assert_eq!(errors[0].message(), "Unexpected None, wanted an Identifier");
    assert_eq!(errors[0].context(), span(0, 0, 0));
}

#[test]
fn definition_cut_off_before_its_value() {
    let (nodes, errors) = parse("#(x");
    assert!(nodes.is_empty());
    assert_eq!(errors.len(), 1);
    assert_eq!(errors[0].message(), "Unexpected EOF in place of DelimitorRight");
    assert_eq!(errors[0].context(), span(0, 0, 0));
}

#[test]
fn definition_takes_one_value_only() {
    let (nodes, errors) = parse("#(x 1 2) 3");
    assert_eq!(errors.len(), 2);
    assert_eq!(errors[0].message(), "Unexpected DelimitorRight in place of Number(2)");
    assert_eq!(errors[0].context(), span(0, 6, 7));
    assert_eq!(errors[1].message(), "Unexpected DelimitorRight, wanted Atom or List");
    assert_eq!(errors[1].context(), span(0, 7, 7));
    assert_eq!(nodes.len(), 1);
    assert_eq!(show(&nodes[0]), "n:3");
}

#[test]
fn error_inside_a_list_ends_the_list() {
    let (nodes, errors) = parse("(1 #(2) 3) 4");
    assert_eq!(errors.len(), 3);
    assert_eq!(errors[0].message(), "Unexpected Number(2), wanted an Identifier");
    assert_eq!(errors[0].context(), span(0, 5, 6));
    assert_eq!(errors[1].message(), "Unexpected DelimitorRight, wanted Atom or List");
    assert_eq!(errors[1].context(), span(0, 6, 6));
    assert_eq!(errors[2].message(), "Unexpected DelimitorRight, wanted Atom or List");
    assert_eq!(errors[2].context(), span(0, 9, 9));
    assert_eq!(nodes.len(), 2);
    assert_eq!(show(&nodes[0]), "n:3");
    assert_eq!(show(&nodes[1]), "n:4");
}

#[test]
fn span_of_a_token_and_of_a_span() {
    let token = Token { token_type: TokenType::Hashtag, line: 2, start: 7, end: 8 };
    assert_eq!(TokenContext::from(&token), span(2, 7, 8));
    let ctx = span(1, 2, 3);
    assert_eq!(TokenContext::from(&ctx), ctx);
    assert_eq!(TokenContext::default(), span(0, 0, 0));
}

#[test]
fn clone_copies_the_whole_tree() {
    let (nodes, errors) = parse("(1 #(x (\"a\" b)) ())");
    assert!(errors.is_empty());
    let copy = nodes[0].clone();
    assert_eq!(format!("{:?}", copy), format!("{:?}", nodes[0]));
    assert_eq!(show(&copy), "[n:1 x=[s:a i:b] []]");
}
