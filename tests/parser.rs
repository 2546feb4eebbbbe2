use yash::lex::{Lexer, PartialHereDoc, TokenId};
use yash::op::Operator;
use yash::parser::{Error, ErrorCause, Parser};
use yash::source::{Line, Location, Source};

fn delimiter(s: &str) -> yash::lex::Word {
    Lexer::with_source(Source::Unknown, s).token().word
}

#[test]
fn display_for_error() {
    let number = 1;
    let line = Line {
        value: "".to_string(),
        number,
        source: Source::Unknown,
    };
    let location = Location {
        line,
        column: number,
    };
    let error = Error {
        cause: ErrorCause::MissingHereDocDelimiter,
        location,
    };
    assert_eq!(
        error.message(),
        "The here-document operator is missing its delimiter"
    );
}

#[test]
fn parser_reading_no_here_doc_contents() {
    let lexer = Lexer::with_source(Source::Unknown, "X");
    let mut parser = Parser::new(lexer);
    parser.here_doc_contents().unwrap();
    assert!(parser.take_read_here_docs().is_empty());

    let mut lexer = parser.into_lexer();
    let location = lexer.location().unwrap();
    assert_eq!(location.line.number, 1);
    assert_eq!(location.column, 1);
}

#[test]
fn parser_reading_one_here_doc_content() {
    let delimiter = delimiter("END");

    let lexer = Lexer::with_source(Source::Unknown, "END\nX");
    let mut parser = Parser::new(lexer);
    let remove_tabs = false;
    parser.memorize_unread_here_doc(PartialHereDoc {
        delimiter,
        remove_tabs,
    });
    parser.here_doc_contents().unwrap();
    let here_docs = parser.take_read_here_docs();
    assert_eq!(here_docs.len(), 1);
    assert_eq!(here_docs[0].delimiter.to_string(), "END");
    assert_eq!(here_docs[0].remove_tabs, remove_tabs);
    assert!(here_docs[0].content.is_empty());

    assert!(parser.take_read_here_docs().is_empty());

    let mut lexer = parser.into_lexer();
    let location = lexer.location().unwrap();
    assert_eq!(location.line.number, 2);
    assert_eq!(location.column, 1);
}

#[test]
fn parser_reading_many_here_doc_contents() {
    let delimiter1 = delimiter("ONE");
    let delimiter2 = delimiter("TWO");
    let delimiter3 = delimiter("THREE");

    let lexer = Lexer::with_source(Source::Unknown, "1\nONE\nTWO\n3\nTHREE\nX");
    let mut parser = Parser::new(lexer);
    parser.memorize_unread_here_doc(PartialHereDoc {
        delimiter: delimiter1,
        remove_tabs: false,
    });
    parser.memorize_unread_here_doc(PartialHereDoc {
        delimiter: delimiter2,
        remove_tabs: true,
    });
    parser.memorize_unread_here_doc(PartialHereDoc {
        delimiter: delimiter3,
        remove_tabs: false,
    });
    parser.here_doc_contents().unwrap();
    let here_docs = parser.take_read_here_docs();
    assert_eq!(here_docs.len(), 3);
    assert_eq!(here_docs[0].delimiter.to_string(), "ONE");
    assert_eq!(here_docs[0].remove_tabs, false);
    assert_eq!(here_docs[0].content.to_string(), "1\n");
    assert_eq!(here_docs[1].delimiter.to_string(), "TWO");
    assert_eq!(here_docs[1].remove_tabs, true);
    assert_eq!(here_docs[1].content.to_string(), "");
    assert_eq!(here_docs[2].delimiter.to_string(), "THREE");
    assert_eq!(here_docs[2].remove_tabs, false);
    assert_eq!(here_docs[2].content.to_string(), "3\n");
}

#[test]
fn parser_reading_here_doc_contents_twice() {
    let delimiter1 = delimiter("ONE");
    let delimiter2 = delimiter("TWO");

    let lexer = Lexer::with_source(Source::Unknown, "1\nONE\n2\nTWO\n");
    let mut parser = Parser::new(lexer);
    parser.memorize_unread_here_doc(PartialHereDoc {
        delimiter: delimiter1,
        remove_tabs: false,
    });
    parser.here_doc_contents().unwrap();
    let here_docs = parser.take_read_here_docs();
    assert_eq!(here_docs.len(), 1);
    assert_eq!(here_docs[0].delimiter.to_string(), "ONE");
    assert_eq!(here_docs[0].remove_tabs, false);
    assert_eq!(here_docs[0].content.to_string(), "1\n");

    parser.memorize_unread_here_doc(PartialHereDoc {
        delimiter: delimiter2,
        remove_tabs: true,
    });
    parser.here_doc_contents().unwrap();
    let here_docs = parser.take_read_here_docs();
    assert_eq!(here_docs.len(), 1);
    assert_eq!(here_docs[0].delimiter.to_string(), "TWO");
    assert_eq!(here_docs[0].remove_tabs, true);
    assert_eq!(here_docs[0].content.to_string(), "2\n");
}

#[test]
fn here_doc_tabs_are_removed() {
    let lexer = Lexer::with_source(Source::Unknown, "\t\tA\n\tB\n\tEND\n");
    let mut parser = Parser::new(lexer);
    parser.memorize_unread_here_doc(PartialHereDoc {
        delimiter: delimiter("END"),
        remove_tabs: true,
    });
    parser.here_doc_contents().unwrap();
    let here_docs = parser.take_read_here_docs();
    assert_eq!(here_docs[0].content, "A\nB\n");
}

#[test]
fn here_doc_without_delimiter_line_ends_with_input() {
    let lexer = Lexer::with_source(Source::Unknown, "a\nb");
    let mut parser = Parser::new(lexer);
    parser.memorize_unread_here_doc(PartialHereDoc {
        delimiter: delimiter("END"),
        remove_tabs: false,
    });
    parser.here_doc_contents().unwrap();
    assert_eq!(parser.take_read_here_docs()[0].content, "a\nb");
}

#[test]
fn missing_here_doc_content_is_reported_at_first_delimiter() {
    let lexer = Lexer::with_source(Source::Unknown, "");
    let mut parser = Parser::new(lexer);
    assert_eq!(parser.ensure_no_unread_here_doc(), Ok(()));
    let first = delimiter("ONE");
    let first_location = first.location.clone();
    parser.memorize_unread_here_doc(PartialHereDoc {
        delimiter: first,
        remove_tabs: false,
    });
    parser.memorize_unread_here_doc(PartialHereDoc {
        delimiter: delimiter("TWO"),
        remove_tabs: false,
    });
    let error = parser.ensure_no_unread_here_doc().unwrap_err();
    assert_eq!(error.cause, ErrorCause::MissingHereDocContent);
    assert_eq!(error.location, first_location);
}

#[test]
fn tokens_are_peeked_then_taken() {
    let lexer = Lexer::with_source(Source::Unknown, "  echo <<-EOF # note\nnext");
    let mut parser = Parser::new(lexer);
    let peeked = parser.peek_token().unwrap();
    assert_eq!(peeked.id, TokenId::Token);
    assert_eq!(peeked.word.to_string(), "echo");
    assert_eq!(parser.peek_token().unwrap(), peeked);
    assert_eq!(parser.take_token().unwrap(), peeked);
    let op = parser.take_token().unwrap();
    assert_eq!(op.id, TokenId::Operator(Operator::LessLessDash));
    assert_eq!(parser.take_token().unwrap().word.to_string(), "EOF");
    let newline = parser.take_token().unwrap();
    assert_eq!(newline.id, TokenId::Newline);
    assert_eq!(parser.take_token().unwrap().word.to_string(), "next");
    assert_eq!(parser.take_token().unwrap().id, TokenId::EndOfInput);
}

#[test]
fn io_errors_never_compare_equal() {
    let a = ErrorCause::IoError("x".to_string());
    assert_ne!(a, a.clone());
    assert_eq!(ErrorCause::UnexpectedToken, ErrorCause::UnexpectedToken);
    assert_eq!(a.message(), "Error while reading commands: x");
}
