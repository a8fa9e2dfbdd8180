use sexpr::error::LspError;
use sexpr::lexer::tokenize;
use sexpr::parser::{parse_tokens, Context, Node, TokenContext};
use sexpr::session::run;

fn span(line: usize, start: usize, end: usize) -> TokenContext {
    TokenContext { line, start, end }
}

fn forms(source: &str) -> Vec<Node> {
    let (tokens, lex_errors) = tokenize(source.as_bytes());
    assert!(lex_errors.is_empty());
    let (nodes, errors) = parse_tokens(&tokens);
    assert!(errors.is_empty());
    nodes
}

fn eval_each(context: &mut Context, source: &str) -> Vec<Result<Option<String>, LspError>> {
    forms(source).iter().map(|node| context.eval(node)).collect()
}

fn text(result: &Result<Option<String>, LspError>) -> Option<&str> {
    match result {
        Ok(Some(text)) => Some(text.as_str()),
        Ok(None) => None,
        Err(error) => panic!("failed: {:?}", error),
    }
}

#[test]
fn number_renders_as_its_text() {
    let mut context = Context::default();
    let results = eval_each(&mut context, "42 1.50");
    assert_eq!(text(&results[0]), Some("42"));
    assert_eq!(text(&results[1]), Some("1.50"));
}

#[test]
fn string_renders_without_quotes() {
    let mut context = Context::default();
    let results = eval_each(&mut context, "\"hi\" \"\"");
    assert_eq!(text(&results[0]), Some("hi"));
    assert_eq!(text(&results[1]), Some(""));
}

#[test]
fn list_renders_between_parentheses_with_commas() {
    let mut context = Context::default();
    let results = eval_each(&mut context, "(1 2 3) () (7) (1 (2 \"x\") ())");
    assert_eq!(text(&results[0]), Some("(1, 2, 3)"));
    assert_eq!(text(&results[1]), Some("()"));
    assert_eq!(text(&results[2]), Some("(7)"));
    assert_eq!(text(&results[3]), Some("(1, (2, x), ())"));
}

#[test]
fn null_renders_as_a_placeholder() {
    let mut context = Context::default();
    assert_eq!(context.eval(&Node::Null).unwrap(), Some("<nil>".to_string()));
    let list = Node::List(vec![Node::Null, Node::Null]);
    assert_eq!(context.eval(&list).unwrap(), Some("(<nil>, <nil>)".to_string()));
}

#[test]
fn definition_has_no_value_and_binds_its_name() {
    let mut context = Context::default();
    let results = eval_each(&mut context, "#(x 5) x");
    assert_eq!(text(&results[0]), None);
    assert_eq!(text(&results[1]), Some("5"));
    assert!(matches!(context.get_var("x"), Some(Node::Number { .. })));
    assert!(context.get_var("y").is_none());
}

#[test]
fn definition_overwrites_an_earlier_one() {
    let mut context = Context::default();
    let results = eval_each(&mut context, "#(x 1) #(x \"two\") x");
    assert_eq!(text(&results[2]), Some("two"));
}

#[test]
fn unbound_identifier_fails_at_its_own_place() {
    let mut context = Context::default();
    let results = eval_each(&mut context, "  y");
    let error = results[0].as_ref().unwrap_err();
    assert_eq!(error.message(), "undefined identifier: y");
    assert_eq!(error.context(), span(0, 2, 3));
}

#[test]
fn identifier_resolves_through_a_chain() {
    let mut context = Context::default();
    let results = eval_each(&mut context, "#(a b) #(b c) #(c \"end\") a");
    assert_eq!(text(&results[3]), Some("end"));
}

#[test]
fn chain_that_ends_unbound_cites_the_last_link() {
    let mut context = Context::default();
    let results = eval_each(&mut context, "#(a b) a");
    let error = results[1].as_ref().unwrap_err();
    assert_eq!(error.message(), "undefined identifier: b");
    assert_eq!(error.context(), span(0, 4, 5));
}

#[test]
fn binding_holds_the_expression_not_its_value() {
    let mut context = Context::default();
    let results = eval_each(&mut context, "#(b 1) #(a (b b)) a #(b 2) a");
    assert_eq!(text(&results[2]), Some("(1, 1)"));
    assert_eq!(text(&results[4]), Some("(2, 2)"));
}

#[test]
fn definition_inside_a_list_adds_nothing_to_the_text() {
    let mut context = Context::default();
    let results = eval_each(&mut context, "(#(x 1) x 2) (#(y 3)) x");
    assert_eq!(text(&results[0]), Some("(1, 2)"));
    assert_eq!(text(&results[1]), Some("()"));
    assert_eq!(text(&results[2]), Some("1"));
}

#[test]
fn list_fails_with_its_first_error_and_keeps_earlier_definitions() {
    let mut context = Context::default();
    let results = eval_each(&mut context, "(#(x 1) p q #(z 2)) x z");
    let error = results[0].as_ref().unwrap_err();
    assert_eq!(error.message(), "undefined identifier: p");
    assert_eq!(text(&results[1]), Some("1"));
    assert_eq!(results[2].as_ref().unwrap_err().message(), "undefined identifier: z");
}

#[test]
fn list_without_definitions_renders_the_same_twice() {
    let mut context = Context::default();
    let nodes = forms("#(x 4) (x (x \"s\") 2)");
    context.eval(&nodes[0]).unwrap();
    let once = context.eval(&nodes[1]).unwrap();
    let twice = context.eval(&nodes[1]).unwrap();
    assert_eq!(once, Some("(4, (4, s), 2)".to_string()));
    assert_eq!(once, twice);
}

#[test]
fn variable_bound_to_itself_is_an_error() {
    let mut context = Context::default();
    let results = eval_each(&mut context, "#(x x) x");
    let error = results[1].as_ref().unwrap_err();
    assert_eq!(error.message(), "circular definition: x");
    assert_eq!(error.context(), span(0, 4, 5));
}

#[test]
fn variables_bound_in_a_circle_are_an_error() {
    let mut context = Context::default();
    let results = eval_each(&mut context, "#(a (1 b)) #(b (2 a)) a b");
    let error = results[2].as_ref().unwrap_err();
    assert_eq!(error.message(), "circular definition: a");
    assert_eq!(error.context(), span(0, 18, 19));
    let error = results[3].as_ref().unwrap_err();
    assert_eq!(error.message(), "circular definition: b");
    assert_eq!(error.context(), span(0, 7, 8));
}

#[test]
fn name_used_twice_without_a_circle_resolves() {
    let mut context = Context::default();
    let results = eval_each(&mut context, "#(a 1) #(b (a a)) #(c (b a b)) c c");
    assert_eq!(text(&results[3]), Some("((1, 1), 1, (1, 1))"));
    assert_eq!(text(&results[4]), Some("((1, 1), 1, (1, 1))"));
}

#[test]
fn circle_is_found_again_after_it_was_refused() {
    let mut context = Context::default();
    let results = eval_each(&mut context, "#(x (x)) x x #(x 2) x");
    assert!(results[1].is_err());
    assert!(results[2].is_err());
    assert_eq!(text(&results[4]), Some("2"));
}

#[test]
fn name_looked_up_inside_its_own_resolution_is_refused() {
    let mut context = Context::default();
    let results = eval_each(&mut context, "#(n (r)) #(r (#(r 1) n)) n r");
    let error = results[2].as_ref().unwrap_err();
    assert_eq!(error.message(), "circular definition: n");
    assert_eq!(error.context(), span(0, 21, 22));
    assert_eq!(text(&results[3]), Some("1"));
}

#[test]
fn bound_identifier_evaluates_as_its_expression() {
    let mut context = Context::default();
    let nodes = forms("#(p 7) #(n (p \"s\" (p))) n");
    context.eval(&nodes[0]).unwrap();
    context.eval(&nodes[1]).unwrap();
    let by_name = context.eval(&nodes[2]).unwrap();
    let bound = context.get_var("n").unwrap().clone();
    let direct = context.eval(&bound).unwrap();
    assert_eq!(by_name, Some("(7, s, (7))".to_string()));
    assert_eq!(by_name, direct);
}

#[test]
fn long_chain_resolves() {
    let mut source = String::new();
    let links = 600;
    for i in 0..links {
        source.push_str(&format!("#(v{} v{}) ", i, i + 1));
    }
    source.push_str(&format!("#(v{} \"deep\") v0 v1", links));
    let nodes = forms(&source);
    let mut context = Context::default();
    let (texts, errors) = context.eval_nodes(&nodes);
    assert!(errors.is_empty());
    assert_eq!(texts, vec!["deep".to_string(), "deep".to_string()]);
}

#[test]
fn long_chain_that_ends_unbound_cites_the_last_link() {
    let mut source = String::new();
    for i in 0..300 {
        source.push_str(&format!("#(v{} v{}) ", i, i + 1));
    }
    source.push_str("v0");
    let mut context = Context::default();
    let results = eval_each(&mut context, &source);
    let error = results[300].as_ref().unwrap_err();
    assert_eq!(error.message(), "undefined identifier: v300");
}

#[test]
fn forms_are_evaluated_one_after_the_other() {
    let mut context = Context::default();
    let nodes = forms("#(x 5) x y (x x) z");
    let (texts, errors) = context.eval_nodes(&nodes);
    assert_eq!(texts, vec!["5".to_string(), "(5, 5)".to_string()]);
    assert_eq!(errors.len(), 2);
    assert_eq!(errors[0].message(), "undefined identifier: y");
    assert_eq!(errors[0].context(), span(0, 9, 10));
    assert_eq!(errors[1].message(), "undefined identifier: z");
}

#[test]
fn run_renders_each_form_in_source_order() {
    let (texts, errors) = run(b"42 \"hi\" (1 2 3)");
    assert!(errors.is_empty());
    assert_eq!(texts, vec!["42".to_string(), "hi".to_string(), "(1, 2, 3)".to_string()]);
}

#[test]
fn run_binds_then_resolves() {
    let (texts, errors) = run(b"#(x 5) x");
    assert!(errors.is_empty());
    assert_eq!(texts, vec!["5".to_string()]);
}

#[test]
fn run_reports_an_unbound_identifier() {
    let (texts, errors) = run(b"y");
    assert!(texts.is_empty());
    assert_eq!(errors.len(), 1);
    assert_eq!(errors[0].message(), "undefined identifier: y");
    assert_eq!(errors[0].context(), span(0, 0, 1));
}

#[test]
fn run_goes_on_after_a_syntax_error() {
    let (texts, errors) = run(b") (1 2) #(x 3) x");
    assert_eq!(errors.len(), 1);
    assert_eq!(errors[0].message(), "Unexpected DelimitorRight, wanted Atom or List");
    assert_eq!(texts, vec!["(1, 2)".to_string(), "3".to_string()]);
}

#[test]
fn run_collects_the_errors_of_all_stages_in_stage_order() {
    let (texts, errors) = run(b"u ) @ 7");
    assert_eq!(texts, vec!["7".to_string()]);
    assert_eq!(errors.len(), 3);
    assert_eq!(errors[0].message(), "Unknown character '@'");
    assert_eq!(errors[1].message(), "Unexpected DelimitorRight, wanted Atom or List");
    assert_eq!(errors[2].message(), "undefined identifier: u");
}

#[test]
fn run_keeps_what_was_lexed_before_an_unterminated_string() {
    let (texts, errors) = run(b"(1 \"unterminated");
    assert!(texts.is_empty());
    assert_eq!(errors.len(), 2);
    assert_eq!(errors[0].message(), "Unterminated string");
    assert_eq!(errors[1].message(), "Unexpected EOF in place of DelimitorRight");
}

#[test]
fn run_of_nothing_yields_nothing() {
    let (texts, errors) = run(b"  ; only a comment\n");
    assert!(texts.is_empty());
    assert!(errors.is_empty());
}
