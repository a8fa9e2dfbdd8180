use sexpr::error::LspError;
use sexpr::lexer::{tokenize, Lexer, Run, Token, TokenType};
use sexpr::parser::TokenContext;

fn span(line: usize, start: usize, end: usize) -> TokenContext {
    TokenContext { line, start, end }
}

fn place(token: &Token) -> TokenContext {
    TokenContext::from(token)
}

fn lex(source: &str) -> (Vec<Token>, Vec<LspError>) {
    tokenize(source.as_bytes())
}

#[test]
fn number_literal_is_one_token() {
    let (tokens, errors) = lex("42");
    assert!(errors.is_empty());
    assert_eq!(tokens.len(), 1);
    assert_eq!(tokens[0].token_type, TokenType::Number("42".to_string()));
    assert_eq!(place(&tokens[0]), span(0, 0, 2));
}

#[test]
fn number_keeps_its_text() {
    let (tokens, errors) = lex("1.50 007 3.");
    assert!(errors.is_empty());
    assert_eq!(tokens.len(), 3);
    assert_eq!(tokens[0].token_type, TokenType::Number("1.50".to_string()));
    assert_eq!(tokens[1].token_type, TokenType::Number("007".to_string()));
    assert_eq!(tokens[2].token_type, TokenType::Number("3.".to_string()));
    assert_eq!(place(&tokens[1]), span(0, 5, 8));
}

#[test]
fn number_with_two_points_is_malformed() {
    let (tokens, errors) = lex("1.2.3 4");
    assert_eq!(errors.len(), 1);
    assert_eq!(errors[0].message(), "Failed to parse number: invalid float literal");
    assert_eq!(errors[0].context(), span(0, 0, 5));
    assert_eq!(tokens.len(), 1);
    assert_eq!(tokens[0].token_type, TokenType::Number("4".to_string()));
    assert_eq!(place(&tokens[0]), span(0, 6, 7));
}

#[test]
fn string_spans_the_text_between_the_quotes() {
    let (tokens, errors) = lex("\"hi\"");
    assert!(errors.is_empty());
    assert_eq!(tokens.len(), 1);
    assert_eq!(tokens[0].token_type, TokenType::String("hi".to_string()));
    assert_eq!(place(&tokens[0]), span(0, 1, 3));
}

#[test]
fn string_may_be_empty_and_knows_no_escapes() {
    let (tokens, errors) = lex("\"\" \"a\\\"");
    assert!(errors.is_empty());
    assert_eq!(tokens.len(), 2);
    assert_eq!(tokens[0].token_type, TokenType::String(String::new()));
    assert_eq!(place(&tokens[0]), span(0, 1, 1));
    assert_eq!(tokens[1].token_type, TokenType::String("a\\".to_string()));
}

#[test]
fn string_decodes_utf8() {
    let (tokens, errors) = tokenize(&[b'"', 0xC3, 0xA9, b'"']);
    assert!(errors.is_empty());
    assert_eq!(tokens.len(), 1);
    assert_eq!(tokens[0].token_type, TokenType::String("\u{e9}".to_string()));
    assert_eq!(place(&tokens[0]), span(0, 1, 3));
}

#[test]
fn string_that_is_not_utf8_is_an_error_and_stays_at_its_closing_quote() {
    let (tokens, errors) = tokenize(&[b'"', 0xFF, b'"', b' ', b'7']);
    assert!(tokens.is_empty());
    assert_eq!(errors.len(), 2);
    let why = String::from_utf8(vec![0xFF]).unwrap_err();
    assert_eq!(errors[0].message(), format!("Failed to create string: {}", why));
    assert_eq!(errors[0].context(), span(0, 1, 2));
    assert_eq!(errors[1].message(), "Unterminated string");
    assert_eq!(errors[1].context(), span(0, 3, 5));
}

#[test]
fn unterminated_string_keeps_the_tokens_before_it() {
    let (tokens, errors) = lex("(1 \"unterminated");
    assert_eq!(tokens.len(), 2);
    assert_eq!(tokens[0].token_type, TokenType::DelimitorLeft);
    assert_eq!(tokens[1].token_type, TokenType::Number("1".to_string()));
    assert_eq!(place(&tokens[1]), span(0, 1, 2));
    assert_eq!(errors.len(), 1);
    assert_eq!(errors[0].message(), "Unterminated string");
    assert_eq!(errors[0].context(), span(0, 4, 16));
}

#[test]
fn single_character_tokens_have_empty_spans() {
    let (tokens, errors) = lex("(#)");
    assert!(errors.is_empty());
    assert_eq!(tokens.len(), 3);
    assert_eq!(tokens[0].token_type, TokenType::DelimitorLeft);
    assert_eq!(tokens[1].token_type, TokenType::Hashtag);
    assert_eq!(tokens[2].token_type, TokenType::DelimitorRight);
    assert_eq!(place(&tokens[0]), span(0, 0, 0));
    assert_eq!(place(&tokens[1]), span(0, 1, 1));
    assert_eq!(place(&tokens[2]), span(0, 2, 2));
}

#[test]
fn identifier_takes_letters_digits_and_underscores() {
    let (tokens, errors) = lex("ab_9z x1");
    assert!(errors.is_empty());
    assert_eq!(tokens.len(), 2);
    assert_eq!(tokens[0].token_type, TokenType::Ident("ab_9z".to_string()));
    assert_eq!(place(&tokens[0]), span(0, 0, 5));
    assert_eq!(tokens[1].token_type, TokenType::Ident("x1".to_string()));
    assert_eq!(place(&tokens[1]), span(0, 6, 8));
}

#[test]
fn underscore_cannot_start_an_identifier() {
    let (tokens, errors) = lex("_a");
    assert_eq!(errors.len(), 1);
    assert_eq!(errors[0].message(), "Unknown character '_'");
    assert_eq!(tokens.len(), 1);
    assert_eq!(tokens[0].token_type, TokenType::Ident("a".to_string()));
}

#[test]
fn unknown_character_is_an_error_of_one_byte() {
    let (tokens, errors) = lex("@ 1");
    assert_eq!(errors.len(), 1);
    assert_eq!(errors[0].message(), "Unknown character '@'");
    assert_eq!(errors[0].context(), span(0, 0, 0));
    assert_eq!(tokens.len(), 1);
    assert_eq!(tokens[0].token_type, TokenType::Number("1".to_string()));
}

#[test]
fn unknown_byte_is_shown_as_the_character_of_its_value() {
    let (tokens, errors) = tokenize(&[0xE9]);
    assert!(tokens.is_empty());
    assert_eq!(errors.len(), 1);
    assert_eq!(errors[0].message(), "Unknown character '\u{e9}'");
}

#[test]
fn carriage_return_is_no_blank() {
    let (tokens, errors) = lex("1\r\n2");
    assert_eq!(errors.len(), 1);
    assert_eq!(errors[0].message(), "Unknown character '\r'");
    assert_eq!(errors[0].context(), span(0, 1, 1));
    assert_eq!(tokens.len(), 2);
    assert_eq!(tokens[1].line, 1);
}

#[test]
fn newlines_count_lines_and_comments_are_skipped() {
    let (tokens, errors) = lex("a\n  b ; comment\n\nc");
    assert!(errors.is_empty());
    assert_eq!(tokens.len(), 3);
    assert_eq!(place(&tokens[0]), span(0, 0, 1));
    assert_eq!(place(&tokens[1]), span(1, 4, 5));
    assert_eq!(tokens[2].token_type, TokenType::Ident("c".to_string()));
    assert_eq!(place(&tokens[2]), span(3, 17, 18));
}

#[test]
fn newline_inside_a_string_counts_a_line() {
    let (tokens, errors) = lex("\"a\nb\" c \"\n\n");
    assert_eq!(tokens.len(), 2);
    assert_eq!(tokens[0].token_type, TokenType::String("a\nb".to_string()));
    assert_eq!(place(&tokens[0]), span(0, 1, 4));
    assert_eq!(place(&tokens[1]), span(1, 6, 7));
    assert_eq!(errors.len(), 1);
    assert_eq!(errors[0].message(), "Unterminated string");
    assert_eq!(errors[0].context(), span(1, 9, 11));
}

#[test]
fn newline_inside_a_comment_ends_it_and_counts_a_line() {
    let (tokens, errors) = lex("; one\n; two\nx");
    assert!(errors.is_empty());
    assert_eq!(tokens.len(), 1);
    assert_eq!(place(&tokens[0]), span(2, 12, 13));
}

#[test]
fn trailing_blanks_yield_an_eof_token() {
    let (tokens, errors) = lex("42\n");
    assert!(errors.is_empty());
    assert_eq!(tokens.len(), 2);
    assert_eq!(tokens[1].token_type, TokenType::EOF);
    assert_eq!(place(&tokens[1]), span(1, 3, 3));
}

#[test]
fn comment_alone_yields_an_eof_token() {
    let (tokens, errors) = lex("; nothing here");
    assert!(errors.is_empty());
    assert_eq!(tokens.len(), 1);
    assert_eq!(tokens[0].token_type, TokenType::EOF);
    assert_eq!(place(&tokens[0]), span(0, 14, 14));
}

#[test]
fn empty_source_yields_nothing() {
    let (tokens, errors) = lex("");
    assert!(tokens.is_empty());
    assert!(errors.is_empty());
    let mut lexer = Lexer::new(b"");
    assert!(lexer.next().is_none());
    assert_eq!(lexer.cur(), None);
}

#[test]
fn lexer_hands_out_one_item_per_call() {
    let mut lexer = Lexer::new(b"(x)");
    assert_eq!(lexer.cur(), Some('('));
    assert_eq!(lexer.peek(), Some('x'));
    let first = lexer.next().unwrap().unwrap();
    assert_eq!(first.token_type, TokenType::DelimitorLeft);
    assert_eq!(lexer.cur(), Some('x'));
    let second = lexer.next().unwrap().unwrap();
    assert_eq!(second.token_type, TokenType::Ident("x".to_string()));
    assert_eq!(lexer.peek(), None);
    let third = lexer.next().unwrap().unwrap();
    assert_eq!(third.token_type, TokenType::DelimitorRight);
    assert!(lexer.next().is_none());
    assert!(lexer.next().is_none());
}

#[test]
fn lexer_goes_on_after_an_error() {
    let mut lexer = Lexer::new(b"$ ok");
    let first = lexer.next().unwrap();
    assert_eq!(first.unwrap_err().message(), "Unknown character '$'");
    let second = lexer.next().unwrap().unwrap();
    assert_eq!(second.token_type, TokenType::Ident("ok".to_string()));
    assert!(lexer.next().is_none());
}

#[test]
fn token_kinds_compare_by_kind_and_text() {
    assert_eq!(TokenType::Hashtag, TokenType::Hashtag);
    assert_ne!(TokenType::DelimitorLeft, TokenType::DelimitorRight);
    assert_ne!(TokenType::Number("1".to_string()), TokenType::Number("2".to_string()));
    assert_ne!(TokenType::Ident("a".to_string()), TokenType::String("a".to_string()));
    let kind = TokenType::String("s".to_string());
    assert_eq!(kind.clone(), kind);
}

#[test]
fn token_kinds_describe_themselves() {
    assert_eq!(TokenType::Number("42".to_string()).describe(), "Number(42)");
    assert_eq!(TokenType::String("hi".to_string()).describe(), "String(\"hi\")");
    assert_eq!(TokenType::Ident("x".to_string()).describe(), "Ident(\"x\")");
    assert_eq!(TokenType::Hashtag.describe(), "Hashtag");
    assert_eq!(TokenType::DelimitorLeft.describe(), "DelimitorLeft");
    assert_eq!(TokenType::DelimitorRight.describe(), "DelimitorRight");
    assert_eq!(TokenType::EOF.describe(), "EOF");
}

#[test]
fn runs_admit_their_characters() {
    assert!(Run::Number.admits('0') && Run::Number.admits('9') && Run::Number.admits('.'));
    assert!(!Run::Number.admits('a') && !Run::Number.admits('-'));
    assert!(Run::Ident.admits('a') && Run::Ident.admits('Z') && Run::Ident.admits('_'));
    assert!(Run::Ident.admits('9') && !Run::Ident.admits('.'));
    assert!(Run::Quoted.admits('\n') && !Run::Quoted.admits('"'));
}

#[test]
fn error_carries_span_and_message() {
    let error = LspError::with_context(span(3, 4, 9), "broken".to_string());
    assert_eq!(error.context(), span(3, 4, 9));
    assert_eq!(error.message(), "broken");
}
