use ninja_rs::line_lexer::{Lexer, Token};

#[test]
fn test_basic_rule() {
    let input = "\n        rule cc\n            command = gcc -o $out -c $in\n";
    let lexer = Lexer::new(input);
    assert_eq!(lexer.lex().tokens(), vec![Token::Rule, Token::Identifier("cc".to_owned())]);
}

#[test]
fn lib_test_chars() {
    let input = "\n        :||=\n        ";
    let lexer = Lexer::new(input);
    assert_eq!(lexer.lex().tokens(), vec![Token::Colon, Token::Pipe2, Token::Equals]);
}

#[test]
fn line_lexer_keywords_and_single_pipe() {
    let lexer = Lexer::new("build pool default include subninja |");
    assert_eq!(
        lexer.lex().tokens(),
        vec![Token::Build, Token::Pool, Token::Default, Token::Include, Token::Subninja, Token::Pipe]
    );
}

#[test]
fn line_lexer_blank_input_has_no_tokens() {
    assert_eq!(Lexer::new("   \n  \n").lex().tokens(), vec![]);
}

#[test]
fn line_lexer_next_one_at_a_time() {
    let mut it = Lexer::new("rule x").lex();
    assert_eq!(it.next(), Some(Token::Rule));
    assert_eq!(it.next(), Some(Token::Identifier("x".to_owned())));
    assert_eq!(it.next(), None);
}

#[test]
fn line_lexer_ignores_leading_white_space() {
    let input = "\n  \t rule cc = x";
    let trimmed = input.trim_start();
    assert_eq!(Lexer::new(input).lex().tokens(), Lexer::new(trimmed).lex().tokens());
    assert_eq!(Lexer::new("\n  rule").lex().next(), Some(Token::Rule));
}

#[test]
fn line_lexer_white_space_is_unicode_white_space() {
    for c in [
        '\t', '\n', '\u{b}', '\u{c}', '\r', ' ', '\u{85}', '\u{a0}', '\u{1680}', '\u{2000}', '\u{200a}',
        '\u{2028}', '\u{2029}', '\u{202f}', '\u{205f}', '\u{3000}',
    ] {
        assert!(c.is_whitespace());
        let input = format!("{}rule", c);
        assert_eq!(Lexer::new(&input).lex().tokens(), vec![Token::Rule]);
    }
    for c in ['\u{200b}', '\u{180e}', 'x', '='] {
        let input = format!("{}rule", c);
        let trimmed = input.trim_start().to_owned();
        assert_eq!(Lexer::new(&input).lex().tokens(), Lexer::new(&trimmed).lex().tokens());
    }
}
