use ninja_rs::parse::lexer::{Lexeme, Lexer, LexerError, Pos, Position, VarRefType};

fn parse_and_slice(input: &str) -> Vec<Result<Lexeme<'_>, LexerError>> {
    let mut lexer = Lexer::new(input.as_bytes(), None);
    let mut out = Vec::new();
    while let Some(item) = lexer.next() {
        out.push(item.map(|(token, _pos)| token));
    }
    out
}

fn parse_and_slice_no_error(input: &str) -> Vec<Lexeme<'_>> {
    parse_and_slice(input)
        .into_iter()
        .map(|v| v.expect("valid lexeme"))
        .collect()
}

#[test]
fn test_simple_colon() {
    assert_eq!(&parse_and_slice_no_error(":"), &[Lexeme::Colon]);
}

#[test]
fn test_pool_simple() {
    let stream = parse_and_slice_no_error("pool chairs");
    assert_eq!(stream, &[Lexeme::Pool, Lexeme::Identifier(b"chairs")]);
}

#[test]
fn test_error_triggered() {
    let lexemes = parse_and_slice("pool )");
    assert_eq!(
        lexemes,
        &[Ok(Lexeme::Pool), Err(LexerError::NotAnIdentifier(Pos(5), 41))]
    );
}

#[test]
fn test_simple_positions() {
    let input = "pool chairs\npool tables\npool noodles";
    let table = &[
        (0, Position::untitled(1, 1)),
        (4, Position::untitled(1, 5)),
        (11, Position::untitled(1, 12)),
        (12, Position::untitled(2, 1)),
        (14, Position::untitled(2, 3)),
        (28, Position::untitled(3, 5)),
        (34, Position::untitled(3, 11)),
        (35, Position::untitled(3, 12)),
    ];

    let mut lexer = Lexer::new(input.as_bytes(), None);
    while lexer.next().is_some() {}
    for (pos, expected) in table {
        assert_eq!(lexer.to_position(Pos(*pos)), *expected);
    }
}

#[test]
fn test_comment() {
    let table: &[(&str, &[&str])] = &[
        ("# to the end", &["# to the end"]),
        (" a # comment", &["# comment"]),
        (
            "pool chairs\n# a comment\npool useful # another comment\n# pool nachos\n",
            &["# a comment\n", "# another comment\n", "# pool nachos\n"],
        ),
    ];

    for (input, expected_comments) in table {
        let mut expected_iter = expected_comments.iter();
        let res = parse_and_slice_no_error(input);
        for token in res {
            if let Lexeme::Comment(slice) = token {
                let expectation = expected_iter.next().expect("Got more comments than expected");
                let actual = std::str::from_utf8(slice).unwrap();
                assert_eq!(&actual, expectation);
            }
        }
        assert!(
            expected_iter.next().is_none(),
            "Did not get as many comments as expected"
        );
    }
}

#[test]
fn test_rule_line() {
    let res = parse_and_slice_no_error("rule cc");
    assert_eq!(res, &[Lexeme::Rule, Lexeme::Identifier(b"cc")]);
}

#[test]
fn test_simple_pathmodes() {
    let is_keyword = |k: &Lexeme| matches!(*k, Lexeme::Subninja | Lexeme::Include | Lexeme::Default);

    let table = &["subninja apath", "include apath", "default apath"];
    for test in table {
        let res = parse_and_slice_no_error(test);
        assert_eq!(res.len(), 2);
        assert!(is_keyword(&res[0]));
        assert_eq!(res[1], Lexeme::Expr(vec![Lexeme::Literal(b"apath")]));
    }
}

#[test]
fn test_build_simple() {
    let res = parse_and_slice_no_error("build foo.o: cc foo.c");
    assert_eq!(
        res,
        &[
            Lexeme::Build,
            Lexeme::Expr(vec![Lexeme::Literal(b"foo.o")]),
            Lexeme::Colon,
            Lexeme::Identifier(b"cc"),
            Lexeme::Expr(vec![Lexeme::Literal(b"foo.c")]),
        ]
    );
}

#[test]
fn test_simple_rule() {
    let res = parse_and_slice_no_error("rule cc\n    command = gcc");
    assert_eq!(
        res,
        &[
            Lexeme::Rule,
            Lexeme::Identifier(b"cc"),
            Lexeme::Newline,
            Lexeme::Indent,
            Lexeme::Identifier(b"command"),
            Lexeme::Equals,
            Lexeme::Expr(vec![Lexeme::Literal(b"gcc")]),
        ]
    );
}

#[test]
fn lexer_test_chars() {
    let res = parse_and_slice_no_error("\n                :||=\n                ");
    assert_eq!(
        res,
        &[
            Lexeme::Newline,
            Lexeme::Indent,
            Lexeme::Colon,
            Lexeme::Pipe2,
            Lexeme::Equals,
            Lexeme::Newline,
            Lexeme::Indent
        ]
    );
}

#[test]
fn test_newline_when_path_expected() {
    let res = parse_and_slice_no_error(
        "rule touch\n    command = touch no_inputs.txt\n\nbuild no_inputs.txt: touch\nbuild next: touch",
    );
    assert_eq!(
        res,
        &[
            Lexeme::Rule,
            Lexeme::Identifier(b"touch"),
            Lexeme::Newline,
            Lexeme::Indent,
            Lexeme::Identifier(b"command"),
            Lexeme::Equals,
            Lexeme::Expr(vec![Lexeme::Literal(b"touch no_inputs.txt")]),
            Lexeme::Newline,
            Lexeme::Newline,
            Lexeme::Build,
            Lexeme::Expr(vec![Lexeme::Literal(b"no_inputs.txt")]),
            Lexeme::Colon,
            Lexeme::Identifier(b"touch"),
            Lexeme::Newline,
            Lexeme::Build,
            Lexeme::Expr(vec![Lexeme::Literal(b"next")]),
            Lexeme::Colon,
            Lexeme::Identifier(b"touch"),
        ]
    );
}

#[test]
fn test_escape_in_illegal_pos() {
    let res = parse_and_slice("rule c$ c\n            command = touch");
    assert_eq!(
        res,
        &[
            Ok(Lexeme::Rule),
            Ok(Lexeme::Identifier(&[99])),
            Err(LexerError::NotAnIdentifier(Pos(6), 36)),
            Ok(Lexeme::Identifier(&[99])),
            Ok(Lexeme::Newline),
            Ok(Lexeme::Indent),
            Ok(Lexeme::Identifier(&[99, 111, 109, 109, 97, 110, 100])),
            Ok(Lexeme::Equals),
            Ok(Lexeme::Expr(vec![Lexeme::Literal(&[116, 111, 117, 99, 104])]))
        ],
    );
}

#[test]
fn test_escape_literal() {
    let res = parse_and_slice_no_error("rule cc\n            command = abcd$\nef");
    assert_eq!(
        res,
        &[
            Lexeme::Rule,
            Lexeme::Identifier(b"cc"),
            Lexeme::Newline,
            Lexeme::Indent,
            Lexeme::Identifier(b"command"),
            Lexeme::Equals,
            Lexeme::Expr(vec![
                Lexeme::Literal(b"abcd"),
                Lexeme::Escape(b""),
                Lexeme::Literal(b"ef"),
            ]),
        ]
    );

    let res = parse_and_slice_no_error("rule cc\n            command = abcd$\n\nrule");
    assert_eq!(
        res,
        &[
            Lexeme::Rule,
            Lexeme::Identifier(b"cc"),
            Lexeme::Newline,
            Lexeme::Indent,
            Lexeme::Identifier(b"command"),
            Lexeme::Equals,
            Lexeme::Expr(vec![Lexeme::Literal(b"abcd"), Lexeme::Escape(b""),]),
            Lexeme::Newline,
            Lexeme::Rule,
        ]
    );
}

#[test]
fn test_escape_eof() {
    let input = "rule cc\n            command = abcd$";
    let res = parse_and_slice(input);
    assert_eq!(
        res,
        &[
            Ok(Lexeme::Rule),
            Ok(Lexeme::Identifier(b"cc")),
            Ok(Lexeme::Newline),
            Ok(Lexeme::Indent),
            Ok(Lexeme::Identifier(b"command")),
            Ok(Lexeme::Equals),
            Err(LexerError::UnexpectedEof(Pos(input.len() - 1))),
        ]
    );

    let input = "rule cc\n            command = abcd${abcd";
    let res = parse_and_slice(input);
    assert_eq!(
        res,
        &[
            Ok(Lexeme::Rule),
            Ok(Lexeme::Identifier(b"cc")),
            Ok(Lexeme::Newline),
            Ok(Lexeme::Indent),
            Ok(Lexeme::Identifier(b"command")),
            Ok(Lexeme::Equals),
            Err(LexerError::UnexpectedEof(Pos(input.len() - 1))),
        ]
    );
}

#[test]
fn test_escape_varrefs() {
    let tests = [
        ("a = b", Lexeme::Expr(vec![Lexeme::Literal(b"b")])),
        (
            "a = ${b}",
            Lexeme::Expr(vec![Lexeme::VarRef(VarRefType::WithParens, b"b")]),
        ),
        (
            "a = $b",
            Lexeme::Expr(vec![Lexeme::VarRef(VarRefType::WithoutParens, b"b")]),
        ),
        (
            "a = $b${baseball}$c",
            Lexeme::Expr(vec![
                Lexeme::VarRef(VarRefType::WithoutParens, b"b"),
                Lexeme::VarRef(VarRefType::WithParens, b"baseball"),
                Lexeme::VarRef(VarRefType::WithoutParens, b"c"),
            ]),
        ),
        (
            "a = ${baseball}$carpet$goofer",
            Lexeme::Expr(vec![
                Lexeme::VarRef(VarRefType::WithParens, b"baseball"),
                Lexeme::VarRef(VarRefType::WithoutParens, b"carpet"),
                Lexeme::VarRef(VarRefType::WithoutParens, b"goofer"),
            ]),
        ),
    ];

    for (input, expected) in &tests {
        let res = parse_and_slice(input);
        assert_eq!(res.len(), 3);
        assert_eq!(&res[..2], &[Ok(Lexeme::Identifier(b"a")), Ok(Lexeme::Equals)]);
        let actual = res[2].as_ref().expect("valid lexeme");
        assert_eq!(actual, expected);
    }
}

#[test]
fn lexer_positions_are_those_of_the_lexemes() {
    let input = "build out: cc in";
    let mut lexer = Lexer::new(input.as_bytes(), None);
    let mut positions = Vec::new();
    while let Some(item) = lexer.next() {
        let (_, pos) = item.expect("valid lexeme");
        positions.push(pos);
    }
    assert_eq!(positions, vec![Pos(0), Pos(6), Pos(9), Pos(11), Pos(14)]);
}

#[test]
fn lexer_missing_brace_is_an_error() {
    let res = parse_and_slice("a = ${b c");
    assert!(matches!(res[2], Err(LexerError::MissingBrace(_)) | Err(LexerError::IllegalCharacter(_, _))));
}

#[test]
fn lexer_retrieve_line_gives_the_line_of_a_position() {
    let input = "pool chairs\npool tables\npool noodles";
    let mut lexer = Lexer::new(input.as_bytes(), None);
    while lexer.next().is_some() {}
    let position = lexer.to_position(Pos(14));
    assert_eq!(lexer.retrieve_line(&position), b"pool tables");
}
