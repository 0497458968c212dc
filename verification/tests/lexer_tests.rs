use whilex::error::Error;
use whilex::lexer::{Lexer, Token, TokenType};

fn describe(t: &Token) -> String {
    let kind = match &t.typ {
        TokenType::PLUS => "PLUS".to_string(),
        TokenType::MINUS => "MINUS".to_string(),
        TokenType::LARROW => "LARROW".to_string(),
        TokenType::SEMICOLON => "SEMICOLON".to_string(),
        TokenType::LBRACKET => "LBRACKET".to_string(),
        TokenType::RBRACKET => "RBRACKET".to_string(),
        TokenType::NEQUAL => "NEQUAL".to_string(),
        TokenType::IDENTIFIER(s) => format!("IDENTIFIER({})", s),
        TokenType::NUMBER(n) => format!("NUMBER({})", n.to_decimal()),
        TokenType::PROCEDURE => "PROCEDURE".to_string(),
        TokenType::WHILE => "WHILE".to_string(),
        TokenType::EOF => "EOF".to_string(),
    };
    format!("{}@{}:{}", kind, t.pos.line, t.pos.lexeme)
}

/// The tokens `next` hands out until `None`, and the errors recorded.
fn lex(source: &str) -> (Vec<String>, Vec<String>) {
    let mut lexer = Lexer::new(source);
    let mut tokens = Vec::new();
    while let Some(t) = lexer.next() {
        tokens.push(describe(&t));
    }
    assert!(lexer.next().is_none());
    let errors = lexer.errors.iter().map(|e| e.message()).collect();
    (tokens, errors)
}

fn tokens(source: &str) -> Vec<String> {
    let (t, e) = lex(source);
    assert!(e.is_empty());
    t
}

#[test]
fn assignment_tokens() {
    assert_eq!(
        tokens("x0 < 12;"),
        vec!["IDENTIFIER(x0)@1:x0", "LARROW@1:<", "NUMBER(12)@1:12", "SEMICOLON@1:;"]
    );
}

#[test]
fn arithmetic_and_brackets() {
    assert_eq!(
        tokens("box<10+box-x_1;{}"),
        vec![
            "IDENTIFIER(box)@1:box",
            "LARROW@1:<",
            "NUMBER(10)@1:10",
            "PLUS@1:+",
            "IDENTIFIER(box)@1:box",
            "MINUS@1:-",
            "IDENTIFIER(x_1)@1:x_1",
            "SEMICOLON@1:;",
            "LBRACKET@1:{",
            "RBRACKET@1:}",
        ]
    );
}

#[test]
fn keywords_and_not_equal() {
    assert_eq!(
        tokens("procedure mult while value != 0"),
        vec![
            "PROCEDURE@1:procedure",
            "IDENTIFIER(mult)@1:mult",
            "WHILE@1:while",
            "IDENTIFIER(value)@1:value",
            "NEQUAL@1:!=",
            "NUMBER(0)@1:0",
        ]
    );
}

#[test]
fn keyword_prefixes_are_identifiers() {
    assert_eq!(tokens("while whiles procedure"), vec!["WHILE@1:while", "IDENTIFIER(whiles)@1:whiles", "PROCEDURE@1:procedure"]);
}

#[test]
fn numbers_and_identifiers_take_maximal_runs() {
    assert_eq!(tokens("007a_1"), vec!["NUMBER(7)@1:007", "IDENTIFIER(a_1)@1:a_1"]);
}

#[test]
fn comments_and_lines() {
    assert_eq!(tokens("// x0 < 1;\n  y"), vec!["IDENTIFIER(y)@2:y"]);
    assert_eq!(
        tokens("// Comments have a C-like syntax\nx0 < 10; // Assign 10 to x0\n\ny < 1;"),
        vec![
            "IDENTIFIER(x0)@2:x0",
            "LARROW@2:<",
            "NUMBER(10)@2:10",
            "SEMICOLON@2:;",
            "IDENTIFIER(y)@4:y",
            "LARROW@4:<",
            "NUMBER(1)@4:1",
            "SEMICOLON@4:;",
        ]
    );
}

#[test]
fn unknown_symbols_are_recorded_and_skipped() {
    let (t, e) = lex("a\n# / b");
    assert_eq!(t, vec!["IDENTIFIER(a)@1:a", "IDENTIFIER(b)@2:b"]);
    assert_eq!(e, vec!["Error: Unknown symbol in line 2.", "Error: Unknown symbol in line 2."]);
}

#[test]
fn lone_bang_is_recorded_and_the_next_char_kept() {
    let (t, e) = lex("!x != 0");
    assert_eq!(t, vec!["IDENTIFIER(x)@1:x", "NEQUAL@1:!=", "NUMBER(0)@1:0"]);
    assert_eq!(e, vec!["Error: Unknown symbol in line 1."]);
    let (t, e) = lex("!");
    assert!(t.is_empty());
    assert_eq!(e.len(), 1);
}

#[test]
fn next_records_errors_before_the_token() {
    let mut lexer = Lexer::new("# a");
    assert!(matches!(lexer.next(), Some(Token { typ: TokenType::IDENTIFIER(_), .. })));
    assert!(matches!(lexer.errors.as_slice(), [Error::UnknownSymbol(1)]));
}

#[test]
fn unicode_whitespace_is_skipped() {
    assert_eq!(tokens("\u{a0}a\u{3000}\tb\r"), vec!["IDENTIFIER(a)@1:a", "IDENTIFIER(b)@1:b"]);
    let (t, e) = lex("é");
    assert!(t.is_empty());
    assert_eq!(e, vec!["Error: Unknown symbol in line 1."]);
}

#[test]
fn empty_source_gives_nothing() {
    let (t, e) = lex("");
    assert!(t.is_empty());
    assert!(e.is_empty());
}

#[test]
fn big_number_literal() {
    assert_eq!(tokens("123456789012345678901234567890"), vec!["NUMBER(123456789012345678901234567890)@1:123456789012345678901234567890"]);
}

#[test]
fn lines_count_the_line_breaks_before_each_token() {
    let (t, _) = lex("a\nb # c\n\nd\n\n");
    assert_eq!(t, vec!["IDENTIFIER(a)@1:a", "IDENTIFIER(b)@2:b", "IDENTIFIER(c)@2:c", "IDENTIFIER(d)@4:d"]);
}

#[test]
fn peek_match_next_and_consume_while_count_bytes() {
    let mut lexer = Lexer::new("!=abc1 ");
    assert_eq!(lexer.peek(), Some('!'));
    assert_eq!(lexer.match_next('='), None);
    assert_eq!(lexer.match_next('!'), Some(1));
    assert_eq!(lexer.match_next('='), Some(1));
    assert_eq!(lexer.consume_while(|c| c.is_ascii_alphabetic()), 3);
    assert_eq!(lexer.peek(), Some('1'));
    assert_eq!(lexer.consume_while(|c| c != 'x'), 2);
    assert_eq!(lexer.peek(), None);

    let mut lexer = Lexer::new("é!");
    assert_eq!(lexer.match_next('!'), None);
    assert_eq!(lexer.match_next('é'), Some(2));
    assert_eq!(lexer.peek(), Some('!'));

    let mut lexer = Lexer::new("ab1é2;");
    assert_eq!(lexer.consume_while(|c| c != ';'), 6);
    assert_eq!(lexer.peek(), Some(';'));
    let mut lexer = Lexer::new("€𝄞x");
    assert_eq!(lexer.consume_while(|c| c != 'x'), 7);
}

#[test]
fn collect_items_gathers_errors_and_tokens_in_order() {
    let mut lexer = Lexer::new("a ? b\n#");
    let all = lexer.collect_items();
    let shown: Vec<String> = all
        .iter()
        .map(|item| match item {
            Ok(t) => t.pos.lexeme.clone(),
            Err(e) => e.message(),
        })
        .collect();
    assert_eq!(
        shown,
        vec!["a", "Error: Unknown symbol in line 1.", "b", "Error: Unknown symbol in line 2."]
    );
    assert_eq!(lexer.errors.len(), 2);
    assert_eq!(lexer.line_number(), 2);
    assert!(lexer.next().is_none());
}

#[test]
fn lexer_stays_put_after_the_end() {
    let mut lexer = Lexer::new("x\n?");
    assert!(lexer.next().is_some());
    assert!(lexer.next().is_none());
    assert_eq!(lexer.errors.len(), 1);
    assert_eq!(lexer.line_number(), 2);
    for _ in 0..3 {
        assert!(lexer.next().is_none());
        assert_eq!(lexer.errors.len(), 1);
        assert_eq!(lexer.line_number(), 2);
        assert_eq!(lexer.peek(), None);
    }
}

#[test]
fn token_count_is_bounded_by_the_source_length() {
    for source in ["", "a", "a+b-c;{}<", "!=!=!=", "x1 y2 z3", "12 34\n56"] {
        let mut lexer = Lexer::new(source);
        let mut count = 0;
        while lexer.next().is_some() {
            count += 1;
        }
        assert!(count <= source.chars().count());
    }
    let mut lexer = Lexer::new("+-<;{}");
    let mut count = 0;
    while lexer.next().is_some() {
        count += 1;
    }
    assert_eq!(count, 6);
}

#[test]
fn line_after_each_call_and_error_lines() {
    let mut lexer = Lexer::new("a\n\n% b\n\n");
    assert_eq!(lexer.line_number(), 1);
    let t = lexer.next().unwrap();
    assert_eq!(t.pos.line, 1);
    assert_eq!(lexer.line_number(), 1);
    let t = lexer.next().unwrap();
    assert_eq!(t.pos.lexeme, "b");
    assert_eq!(t.pos.line, 3);
    assert_eq!(lexer.line_number(), 3);
    assert!(matches!(lexer.errors[0], Error::UnknownSymbol(3)));
    assert!(lexer.next().is_none());
    assert_eq!(lexer.line_number(), 5);
}
