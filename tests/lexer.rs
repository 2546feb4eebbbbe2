use yash::lex::{Lexer, TokenId};
use yash::op::{operators, AndOr, Operator};
use yash::parser::ErrorCause;
use yash::source::Source;

#[test]
fn peek_is_idempotent() {
    let mut lexer = Lexer::with_source(Source::Unknown, "ab");
    assert_eq!(lexer.peek(), Ok('a'));
    assert_eq!(lexer.peek(), Ok('a'));
    assert_eq!(lexer.index(), 0);
    assert_eq!(lexer.next(), Ok('a'));
    assert_eq!(lexer.peek(), Ok('b'));
    assert_eq!(lexer.index(), 1);
}

#[test]
fn end_of_input_is_sticky() {
    let mut lexer = Lexer::with_source(Source::Unknown, "a\nb");
    assert_eq!(lexer.next(), Ok('a'));
    assert_eq!(lexer.next(), Ok('\n'));
    assert_eq!(lexer.next(), Ok('b'));
    let error = lexer.peek().unwrap_err();
    assert_eq!(error.cause, ErrorCause::EndOfInput);
    assert_eq!(error.location.line.number, 2);
    assert_eq!(error.location.column, 2);
    assert_eq!(lexer.next(), Err(error.clone()));
    assert_eq!(lexer.peek(), Err(error.clone()));
    assert_eq!(lexer.next_if(|_| true), Err(error));
}

#[test]
fn end_of_empty_input_is_at_first_column() {
    let mut lexer = Lexer::with_source(Source::Unknown, "");
    let error = lexer.peek().unwrap_err();
    assert_eq!(error.location.line.number, 1);
    assert_eq!(error.location.column, 1);
    assert_eq!(error.location.line.value, "");
}

#[test]
fn next_if_consumes_only_accepted_characters() {
    let mut lexer = Lexer::with_source(Source::Unknown, "xy");
    assert_eq!(lexer.next_if(|c| c == 'y'), Ok(None));
    assert_eq!(lexer.index(), 0);
    assert_eq!(lexer.next_if(|c| c == 'x'), Ok(Some('x')));
    assert_eq!(lexer.index(), 1);
}

#[test]
fn rewind_reads_characters_again() {
    let mut lexer = Lexer::with_source(Source::Unknown, "abc");
    lexer.next().unwrap();
    lexer.next().unwrap();
    lexer.rewind(1);
    assert_eq!(lexer.next(), Ok('b'));
}

#[test]
fn locations_follow_lines_and_columns() {
    let mut lexer = Lexer::with_source(Source::Stdin, "ab\ncd");
    lexer.next().unwrap();
    lexer.next().unwrap();
    lexer.next().unwrap();
    lexer.next().unwrap();
    let location = lexer.location().unwrap();
    assert_eq!(location.line.number, 2);
    assert_eq!(location.column, 2);
    assert_eq!(location.line.value, "cd");
    assert_eq!(location.line.source, Source::Stdin);
}

#[test]
fn operator_trie_matches_longest() {
    let trie = operators();
    let chars: Vec<char> = "<<-".chars().collect();
    assert_eq!(trie.longest_operator(&chars), Some((Operator::LessLessDash, 3)));
    let chars: Vec<char> = "<<x".chars().collect();
    assert_eq!(trie.longest_operator(&chars), Some((Operator::LessLess, 2)));
    let chars: Vec<char> = "<x".chars().collect();
    assert_eq!(trie.longest_operator(&chars), None);
}

#[test]
fn operator_trie_edges() {
    let trie = operators();
    let less = trie.edge('<').unwrap();
    assert_eq!(less.value, None);
    let less_less = less.next.edge('<').unwrap();
    assert_eq!(less_less.value, Some(Operator::LessLess));
    let dash = less_less.next.edge('-').unwrap();
    assert_eq!(dash.value, Some(Operator::LessLessDash));
    assert!(dash.next.edge('-').is_none());
    assert!(trie.edge('x').is_none());
}

#[test]
fn operator_tokens_leave_the_rest() {
    let mut lexer = Lexer::with_source(Source::Unknown, "<<x");
    let token = lexer.token();
    assert_eq!(token.id, TokenId::Operator(Operator::LessLess));
    assert_eq!(token.word.to_string(), "<<");
    assert_eq!(lexer.next(), Ok('x'));
    let mut lexer = Lexer::with_source(Source::Unknown, "<x");
    let token = lexer.token();
    assert_eq!(token.id, TokenId::Token);
    assert_eq!(token.word.to_string(), "<x");
}

#[test]
fn operator_from_str() {
    assert_eq!(Operator::from_str("<<-"), Ok(Operator::LessLessDash));
    assert_eq!(Operator::from_str("&x"), Ok(Operator::And));
    assert_eq!(Operator::from_str("x"), Err(()));
}

#[test]
fn and_or_from_str() {
    assert_eq!(AndOr::from_str("&&"), Ok(AndOr::AndThen));
    assert_eq!(AndOr::from_str("||"), Ok(AndOr::OrElse));
}

#[test]
fn and_or_rejects_other_operators() {
    assert_eq!(AndOr::from_str("&"), Err(()));
    assert_eq!(AndOr::from_str("<<"), Err(()));
}
