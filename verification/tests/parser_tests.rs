use ninja_rs::parse::ast::{Build, Expr, Rule, Term};
use ninja_rs::parse::env::Env;
use ninja_rs::parse::lexer::Lexeme;
use ninja_rs::parse::repr::{Action, Description};
use ninja_rs::parse::{build_representation, parse_single, LoadLog, Loader, ParseState, ProcessingError};

struct DummyLoader {}

impl Loader for DummyLoader {
    fn load(&mut self, _from: Option<&[u8]>, _load: &[u8]) -> std::io::Result<Vec<u8>> {
        Err(std::io::Error::new(std::io::ErrorKind::NotFound, "no files here"))
    }
}

/// Serves files from a list of (name, contents).
struct MapLoader {
    files: Vec<(Vec<u8>, Vec<u8>)>,
}

impl Loader for MapLoader {
    fn load(&mut self, _from: Option<&[u8]>, request: &[u8]) -> std::io::Result<Vec<u8>> {
        for (name, contents) in &self.files {
            if name.as_slice() == request {
                return Ok(contents.clone());
            }
        }
        Err(std::io::Error::new(std::io::ErrorKind::NotFound, "missing"))
    }
}

fn simple_parser(input: &[u8]) -> Result<Description, ProcessingError> {
    let mut parse_state = ParseState::default();
    let mut loader = LoadLog::new(DummyLoader {});
    parse_single(input, None, &mut parse_state, &mut loader)?;
    Ok(parse_state.into_description())
}

fn lit(b: &[u8]) -> Term {
    Term::Literal(b.to_vec())
}

fn aref(b: &[u8]) -> Term {
    Term::Reference(b.to_vec())
}

fn rule(name: &str, command: &str) -> Rule {
    Rule {
        name: name.as_bytes().to_vec(),
        bindings: vec![(b"command".to_vec(), Expr(vec![lit(command.as_bytes())]))],
    }
}

fn command_of(action: &Action) -> &str {
    match action {
        Action::Command(c) => c.as_str(),
        Action::Phony => panic!("expected a command"),
    }
}

#[test]
fn test_simple() {
    let input = "\nrule cc\n    command = gcc -c foo.c\n\nbuild foo.o: cc foo.c";
    let desc = simple_parser(input.as_bytes()).expect("valid parse");
    assert_eq!(desc.builds.len(), 1);
    let b = &desc.builds[0];
    assert_eq!(command_of(&b.action), "gcc -c foo.c");
    assert_eq!(b.inputs, vec![b"foo.c".to_vec()]);
    assert_eq!(b.outputs, vec![b"foo.o".to_vec()]);
    assert!(b.implicit_inputs.is_empty());
    assert!(b.order_inputs.is_empty());
    assert!(desc.defaults.is_none());
}

#[test]
fn test_rule_identifier_fail() {
    for (input, expected_col) in &[("rule cc:", 8), ("rule", 5), ("rule\n", 5)] {
        let err = simple_parser(input.as_bytes()).unwrap_err();
        let err = match err {
            ProcessingError::ParseFailed(e) => e,
            e => panic!("Unexpected error {:?}", e),
        };
        assert_eq!(err.position().line, 1);
        assert_eq!(err.position().column, *expected_col);
    }
}

#[test]
fn test_rule_missing_command() {
    for (input, expected_col, expected_token) in &[
        ("rule cc\ncommand", 8, "="),
        ("rule cc\n  command", 10, "="),
        ("rule cc\n  command =", 12, "value"),
        ("rule cc\n  command=", 11, "value"),
        ("rule cc\n  command=\n", 11, "value"),
    ] {
        let err = simple_parser(input.as_bytes()).unwrap_err();
        let err = match err {
            ProcessingError::ParseFailed(e) => e,
            e => panic!("Unexpected error {:?}", e),
        };
        assert_eq!(err.position().line, 2);
        assert_eq!(err.position().column, *expected_col);
        assert!(err.message().contains(expected_token));
    }
}

#[test]
fn test_build_no_bindings() {
    let cases: &[(&str, &[(&[&str], &[&str])])] = &[
        ("build foo.o: touch", &[(&["foo.o"], &[])]),
        ("build foo.o foo.p: touch", &[(&["foo.o", "foo.p"], &[])]),
        ("build foo.o foo.p foo.q: touch", &[(&["foo.o", "foo.p", "foo.q"], &[])]),
        ("build foo.o foo.p: touch inp1 inp2", &[(&["foo.o", "foo.p"], &["inp1", "inp2"])]),
        (
            "build foo.o foo.p: touch inp1 inp2\nbuild bar.o: touch inp3",
            &[(&["foo.o", "foo.p"], &["inp1", "inp2"]), (&["bar.o"], &["inp3"])],
        ),
        (
            "build foo.o foo.p: touch inp1 inp2\nrule other\n  command = gcc",
            &[(&["foo.o", "foo.p"], &["inp1", "inp2"])],
        ),
    ];
    for (input, expected) in cases {
        let with_rule = format!("\nrule touch\n  command = touch\n{}", input);
        let desc = simple_parser(with_rule.as_bytes()).expect("valid parse");
        assert_eq!(desc.builds.len(), expected.len());
        for (b, (outs, ins)) in desc.builds.iter().zip(expected.iter()) {
            assert_eq!(command_of(&b.action), "touch");
            let outs: Vec<Vec<u8>> = outs.iter().map(|s| s.as_bytes().to_vec()).collect();
            let ins: Vec<Vec<u8>> = ins.iter().map(|s| s.as_bytes().to_vec()).collect();
            assert_eq!(b.outputs, outs);
            assert_eq!(b.inputs, ins);
        }
    }
}

#[test]
fn test_build_fail_first_line() {
    for input in &["build", "build\n", "build: touch", "build foo.o touch", "build foo.o: "] {
        let _ = simple_parser(input.as_bytes()).expect_err("parse should fail");
    }
}

#[test]
fn parser_expands_variables_in_build_edges() {
    let input = "cflags = -O2\nrule cc\n  command = gcc $cflags -c $in -o $out\nbuild a.o: cc a.c\n";
    let desc = simple_parser(input.as_bytes()).expect("valid parse");
    assert_eq!(command_of(&desc.builds[0].action), "gcc -O2 -c a.c -o a.o");
}

#[test]
fn parser_reads_phony_edges_and_defaults() {
    let input = "rule cc\n  command = cc\nbuild a.o: cc a.c\nbuild gen: phony\n";
    let mut parse_state = ParseState::default();
    let mut loader = LoadLog::new(DummyLoader {});
    parse_single(input.as_bytes(), None, &mut parse_state, &mut loader).expect("valid parse");
    parse_state.add_default(b"a.o".to_vec());
    parse_state.add_default(b"gen".to_vec());
    parse_state.add_default(b"a.o".to_vec());
    let desc = parse_state.into_description();
    assert_eq!(desc.builds.len(), 2);
    assert!(matches!(desc.builds[1].action, Action::Phony));
    assert_eq!(desc.defaults, Some(vec![b"a.o".to_vec(), b"gen".to_vec()]));
}

#[test]
fn parser_does_not_take_default_statements() {
    let err = simple_parser(b"default a.o\n").unwrap_err();
    let err = match err {
        ProcessingError::ParseFailed(e) => e,
        e => panic!("Unexpected error {:?}", e),
    };
    assert_eq!(err.message(), "Unhandled token Default");
}

#[test]
fn parser_reads_implicit_and_order_only_inputs() {
    let input = "rule cc\n  command = cc $in\nbuild out: cc in | imp || ord\nbuild o2: cc a || b c\nbuild o3: cc | x\n";
    let desc = simple_parser(input.as_bytes()).expect("valid parse");
    assert_eq!(desc.builds.len(), 3);
    let b = &desc.builds[0];
    assert_eq!(b.outputs, vec![b"out".to_vec()]);
    assert_eq!(b.inputs, vec![b"in".to_vec()]);
    assert_eq!(b.implicit_inputs, vec![b"imp".to_vec()]);
    assert_eq!(b.order_inputs, vec![b"ord".to_vec()]);
    assert_eq!(command_of(&b.action), "cc in");
    assert!(desc.builds[1].implicit_inputs.is_empty());
    assert_eq!(desc.builds[1].order_inputs, vec![b"b".to_vec(), b"c".to_vec()]);
    assert!(desc.builds[2].inputs.is_empty());
    assert_eq!(desc.builds[2].implicit_inputs, vec![b"x".to_vec()]);
}

#[test]
fn parser_rejects_a_pipe_after_order_only_inputs() {
    let input = "rule cc\n  command = cc\nbuild a.o: cc a.c || g | h\n";
    let err = simple_parser(input.as_bytes()).unwrap_err();
    let err = match err {
        ProcessingError::ParseFailed(e) => e,
        e => panic!("Unexpected error {:?}", e),
    };
    assert_eq!(err.position().line, 3);
    assert_eq!(err.message(), "Expected input or newline, got |");
}

#[test]
fn parser_reports_unknown_rule() {
    let err = simple_parser(b"build a: nosuchrule b\n").unwrap_err();
    assert!(matches!(err, ProcessingError::WithPosition(_) | ProcessingError::UnknownRule(_)));
}

#[test]
fn parser_follows_included_files() {
    let mut loader = LoadLog::new(MapLoader {
        files: vec![
            (
                b"build.ninja".to_vec(),
                b"rule cc\n  command = cc\ninclude more.ninja\nbuild a.o: cc a.c\n".to_vec(),
            ),
            (b"more.ninja".to_vec(), b"build b.o: cc b.c\n".to_vec()),
        ],
    });
    let desc = build_representation(&mut loader, b"build.ninja".to_vec()).expect("valid parse");
    let outs: Vec<Vec<u8>> = desc.builds.iter().map(|b| b.outputs[0].clone()).collect();
    assert_eq!(outs, vec![b"b.o".to_vec(), b"a.o".to_vec()]);
}

#[test]
fn parser_reports_a_missing_start_file() {
    let mut loader = LoadLog::new(DummyLoader {});
    let err = build_representation(&mut loader, b"build.ninja".to_vec()).unwrap_err();
    assert!(matches!(err, ProcessingError::IoError(_)));
}

#[test]
fn parser_stops_includes_that_never_end() {
    let mut loader = LoadLog::new(MapLoader {
        files: vec![(b"loop.ninja".to_vec(), b"include loop.ninja\n".to_vec())],
    });
    let err = build_representation(&mut loader, b"loop.ninja".to_vec()).unwrap_err();
    let mut e = &err;
    while let ProcessingError::WithPosition(inner) = e {
        e = &inner.inner;
    }
    assert!(matches!(e, ProcessingError::IncludeTooDeep));
}

#[test]
fn lib_no_rule_named_phony() {
    let mut parse_state = ParseState::default();
    let err = parse_state.add_rule(rule("phony", "")).unwrap_err();
    assert!(matches!(err, ProcessingError::DuplicateRule(_)));
}

#[test]
fn lib_err_duplicate_rule() {
    let mut parse_state = ParseState::default();
    parse_state.add_rule(rule("link", "")).unwrap();
    parse_state.add_rule(rule("compile", "")).unwrap();
    let err = parse_state.add_rule(rule("link", "")).expect_err("duplicate");
    assert!(matches!(err, ProcessingError::DuplicateRule(_)));
}

fn phony_build(outputs: &[&[u8]]) -> Build {
    Build {
        rule: b"phony".to_vec(),
        outputs: outputs.iter().map(|o| Expr(vec![lit(o)])).collect(),
        ..Default::default()
    }
}

#[test]
fn lib_duplicate_output() {
    let mut parse_state = ParseState::default();
    parse_state.add_build_edge(phony_build(&[b"a.txt"])).unwrap();
    let err = parse_state
        .add_build_edge(phony_build(&[b"a.txt"]))
        .expect_err("duplicate output");
    assert!(matches!(err, ProcessingError::DuplicateOutput(_)));
}

#[test]
fn lib_duplicate_output2() {
    let mut parse_state = ParseState::default();
    parse_state.add_build_edge(phony_build(&[b"b.txt", b"a.txt"])).unwrap();
    let err = parse_state
        .add_build_edge(phony_build(&[b"a.txt", b"c.txt"]))
        .expect_err("duplicate output");
    assert!(matches!(err, ProcessingError::DuplicateOutput(_)));
}

#[test]
fn lib_unknown_rule() {
    let mut parse_state = ParseState::default();
    let err = parse_state
        .add_build_edge(Build {
            rule: b"baloney".to_vec(),
            ..Default::default()
        })
        .expect_err("unknown rule");
    assert!(matches!(err, ProcessingError::UnknownRule(_)));
}

#[test]
fn lib_success() {
    let mut parse_state = ParseState::default();
    for r in vec![rule("link", "link.exe"), rule("cc", "clang"), rule("unused", "")] {
        parse_state.add_rule(r).unwrap();
    }
    for build in vec![
        Build {
            rule: b"phony".to_vec(),
            inputs: vec![Expr(vec![lit(b"source.txt")])],
            outputs: vec![Expr(vec![lit(b"a.txt")])],
            ..Default::default()
        },
        Build {
            rule: b"cc".to_vec(),
            inputs: vec![Expr(vec![lit(b"hello.c")]), Expr(vec![lit(b"hello.h")])],
            outputs: vec![Expr(vec![lit(b"hello.o")])],
            ..Default::default()
        },
        Build {
            rule: b"link".to_vec(),
            inputs: vec![Expr(vec![lit(b"hello.o")]), Expr(vec![lit(b"my_shared_lib.so")])],
            outputs: vec![Expr(vec![lit(b"hello")])],
            ..Default::default()
        },
    ] {
        parse_state.add_build_edge(build).unwrap();
    }
    let repr = parse_state.into_description();
    assert_eq!(repr.builds.len(), 3);
    assert!(matches!(repr.builds[0].action, Action::Phony));
    assert_eq!(repr.builds[0].inputs, vec![b"source.txt".to_vec()]);
    assert_eq!(command_of(&repr.builds[1].action), "clang");
    assert_eq!(repr.builds[1].inputs, vec![b"hello.c".to_vec(), b"hello.h".to_vec()]);
    assert_eq!(repr.builds[1].outputs, vec![b"hello.o".to_vec()]);
    assert_eq!(command_of(&repr.builds[2].action), "link.exe");
    assert_eq!(repr.builds[2].outputs, vec![b"hello".to_vec()]);
}

#[test]
fn lib_in_and_out_basic() {
    let mut parse_state = ParseState::default();
    parse_state
        .add_rule(Rule {
            name: b"echo".to_vec(),
            bindings: vec![(
                b"command".to_vec(),
                Expr(vec![lit(b"echo "), aref(b"in"), lit(b" makes "), aref(b"out")]),
            )],
        })
        .unwrap();
    parse_state
        .add_build_edge(Build {
            rule: b"echo".to_vec(),
            inputs: vec![Expr(vec![lit(b"a.txt")]), Expr(vec![lit(b"b.txt")])],
            outputs: vec![Expr(vec![lit(b"c.txt")]), Expr(vec![lit(b"d.txt")])],
            ..Default::default()
        })
        .unwrap();
    let repr = parse_state.into_description();
    assert_eq!(command_of(&repr.builds[0].action), "echo a.txt b.txt makes c.txt d.txt");
}

#[test]
fn lib_failed_edge_keeps_the_outputs_before_its_duplicate() {
    let mut parse_state = ParseState::default();
    parse_state.add_build_edge(phony_build(&[b"a.txt"])).unwrap();
    let _ = parse_state.add_build_edge(phony_build(&[b"b.txt", b"a.txt", b"c.txt"])).unwrap_err();
    // b.txt was recorded before a.txt was refused; c.txt never was.
    let err = parse_state.add_build_edge(phony_build(&[b"b.txt"])).unwrap_err();
    assert!(matches!(err, ProcessingError::DuplicateOutput(_)));
    parse_state.add_build_edge(phony_build(&[b"c.txt"])).unwrap();
    assert_eq!(parse_state.into_description().builds.len(), 2);
}

#[test]
fn lib_edge_with_unknown_rule_keeps_its_outputs() {
    let mut parse_state = ParseState::default();
    let err = parse_state
        .add_build_edge(Build { rule: b"nosuch".to_vec(), outputs: vec![Expr(vec![lit(b"x.o")])], ..Default::default() })
        .unwrap_err();
    assert!(matches!(err, ProcessingError::UnknownRule(_)));
    let err = parse_state.add_build_edge(phony_build(&[b"x.o"])).unwrap_err();
    assert!(matches!(err, ProcessingError::DuplicateOutput(_)));
}

#[test]
fn lib_missing_command_is_an_error() {
    let mut parse_state = ParseState::default();
    parse_state
        .add_rule(Rule { name: b"nocmd".to_vec(), bindings: vec![] })
        .unwrap();
    let err = parse_state
        .add_build_edge(Build { rule: b"nocmd".to_vec(), ..Default::default() })
        .unwrap_err();
    assert!(matches!(err, ProcessingError::MissingCommand(_)));
}

#[test]
fn lib_rule_bindings_come_before_edge_bindings() {
    let mut parse_state = ParseState::default();
    parse_state
        .add_rule(Rule {
            name: b"cc".to_vec(),
            bindings: vec![
                (b"flags".to_vec(), Expr(vec![lit(b"-O0")])),
                (b"command".to_vec(), Expr(vec![lit(b"cc "), aref(b"flags"), lit(b" "), aref(b"extra")])),
            ],
        })
        .unwrap();
    let mut bindings = Env::default();
    bindings.add_binding(b"flags".to_vec(), b"-O3".to_vec());
    bindings.add_binding(b"extra".to_vec(), b"-g".to_vec());
    parse_state
        .add_build_edge(Build {
            rule: b"cc".to_vec(),
            outputs: vec![Expr(vec![lit(b"x.o")])],
            bindings,
            ..Default::default()
        })
        .unwrap();
    assert_eq!(command_of(&parse_state.into_description().builds[0].action), "cc -O0 -g");
}

#[test]
fn lib_cyclic_rule_bindings_are_an_error() {
    let mut parse_state = ParseState::default();
    parse_state
        .add_rule(Rule {
            name: b"loop".to_vec(),
            bindings: vec![
                (b"a".to_vec(), Expr(vec![aref(b"b")])),
                (b"b".to_vec(), Expr(vec![aref(b"a")])),
                (b"command".to_vec(), Expr(vec![aref(b"a")])),
            ],
        })
        .unwrap();
    let err = parse_state
        .add_build_edge(Build { rule: b"loop".to_vec(), ..Default::default() })
        .unwrap_err();
    assert!(matches!(err, ProcessingError::CyclicRuleBindings(_)));
}

#[test]
fn env_test_basic() {
    let mut env = Env::default();
    env.add_binding(b"hello".to_vec(), b"there".to_vec());
    assert_eq!(env.lookup(b"hello".as_ref()), Some(b"there".to_vec()));
    assert_eq!(env.lookup(b"hello2".as_ref()), None);
}

#[test]
fn test_parent() {
    let mut parent = Env::default();
    parent.add_binding(b"in_parent".to_vec(), b"exists".to_vec());

    let mut env = Env::with_parent_owned(parent);
    env.add_binding(b"hello".to_vec(), b"there".to_vec());
    assert_eq!(env.lookup(b"hello".as_ref()), Some(b"there".to_vec()));
    assert_eq!(env.lookup(b"in_parent".as_ref()), Some(b"exists".to_vec()));
    assert_eq!(env.lookup(b"not_in_parent".as_ref()), None);
}

#[test]
fn env_rebinding_replaces_the_value() {
    let mut env = Env::default();
    env.add_binding(b"x".to_vec(), b"1".to_vec());
    env.add_binding(b"x".to_vec(), b"2".to_vec());
    assert_eq!(env.lookup(b"x"), Some(b"2".to_vec()));
}

#[test]
fn lib_errors_carry_names() {
    let mut parse_state = ParseState::default();
    parse_state.add_rule(rule("link", "")).unwrap();
    match parse_state.add_rule(rule("link", "")) {
        Err(ProcessingError::DuplicateRule(name)) => assert_eq!(name, "link"),
        other => panic!("unexpected {:?}", other),
    }
    parse_state.add_build_edge(phony_build(&[b"out.txt"])).unwrap();
    match parse_state.add_build_edge(phony_build(&[b"out.txt"])) {
        Err(ProcessingError::DuplicateOutput(name)) => assert_eq!(name, "out.txt"),
        other => panic!("unexpected {:?}", other),
    }
    // An output that is not UTF-8 cannot be named in the error.
    parse_state.add_build_edge(phony_build(&[&[0xff, 0xfe]])).unwrap();
    let err = parse_state.add_build_edge(phony_build(&[&[0xff, 0xfe]])).unwrap_err();
    assert!(matches!(err, ProcessingError::StringUtf8Error(_)));
    match parse_state.add_build_edge(Build { rule: b"nope".to_vec(), ..Default::default() }) {
        Err(ProcessingError::UnknownRule(name)) => assert_eq!(name, "nope"),
        other => panic!("unexpected {:?}", other),
    }
}

#[test]
fn parser_representation_of_contents() {
    let mut loader = LoadLog::new(DummyLoader {});
    let desc = ninja_rs::parse::representation_of(
        b"rule cc\n  command = cc $in\nbuild a.o: cc a.c\n".to_vec(),
        b"build.ninja".to_vec(),
        &mut loader,
    )
    .expect("valid parse");
    assert_eq!(desc.builds.len(), 1);
    assert_eq!(command_of(&desc.builds[0].action), "cc a.c");
    let err = ninja_rs::parse::representation_of(b"rule\n".to_vec(), b"build.ninja".to_vec(), &mut loader)
        .unwrap_err();
    match err {
        ProcessingError::ParseFailed(e) => {
            assert_eq!(e.position().source_name.as_deref(), Some(&b"build.ninja"[..]));
            assert_eq!(e.position().line, 1);
        }
        e => panic!("Unexpected error {:?}", e),
    }
}

#[test]
fn parser_include_too_deep_leaves_an_error() {
    // An include at the top level of a file read at the deepest level is refused.
    let mut loader = LoadLog::new(MapLoader { files: vec![(b"self.ninja".to_vec(), b"include self.ninja\n".to_vec())] });
    assert!(build_representation(&mut loader, b"self.ninja".to_vec()).is_err());
}

struct RecordingLoader {
    calls: Vec<(Option<Vec<u8>>, Vec<u8>)>,
}

impl Loader for RecordingLoader {
    fn load(&mut self, from: Option<&[u8]>, request: &[u8]) -> std::io::Result<Vec<u8>> {
        self.calls.push((from.map(|f| f.to_vec()), request.to_vec()));
        if request == b"trial_include.ninja" {
            Ok(b"b = $a\nbuild foo: echo\n    buildvar = $b\n".to_vec())
        } else {
            Err(std::io::Error::new(std::io::ErrorKind::NotFound, "missing"))
        }
    }
}

#[test]
fn parser_expands_an_include_where_it_stands() {
    let input: &[u8] = b"rule echo\n    command = echo $buildvar\n\na = 2\ninclude trial_include.ninja\na = 3\nbuild bar: echo\n    buildvar = $a\n";
    let mut loader = LoadLog::new(RecordingLoader { calls: vec![] });
    let mut state = ParseState::default();
    parse_single(input, Some(b"trial.ninja".to_vec()), &mut state, &mut loader).expect("valid parse");
    assert_eq!(
        loader.loader().calls,
        vec![(Some(b"trial.ninja".to_vec()), b"trial_include.ninja".to_vec())]
    );
    let desc = state.into_description();
    assert_eq!(desc.builds.len(), 2);
    assert_eq!(desc.builds[0].outputs, vec![b"foo".to_vec()]);
    assert!(matches!(&desc.builds[0].action, Action::Command(c) if c == "echo 2"));
    assert!(desc.builds[0].inputs.is_empty());
    assert_eq!(desc.builds[1].outputs, vec![b"bar".to_vec()]);
    assert!(matches!(&desc.builds[1].action, Action::Command(c) if c == "echo 3"));
    assert!(desc.builds[1].inputs.is_empty());
}

#[test]
fn parser_reports_a_failed_include_load() {
    let mut loader = LoadLog::new(RecordingLoader { calls: vec![] });
    let mut state = ParseState::default();
    let err = parse_single(b"include other.ninja\n", None, &mut state, &mut loader).unwrap_err();
    let mut e = &err;
    while let ProcessingError::WithPosition(inner) = e {
        e = &inner.inner;
    }
    assert!(matches!(e, ProcessingError::IoError(_)));
    assert_eq!(loader.loader().calls, vec![(None, b"other.ninja".to_vec())]);
}

#[test]
fn build_representation_asks_for_the_start_file_first() {
    let mut loader = LoadLog::new(RecordingLoader { calls: vec![] });
    let err = build_representation(&mut loader, b"start.ninja".to_vec()).unwrap_err();
    assert!(matches!(err, ProcessingError::IoError(_)));
    assert_eq!(loader.loader().calls, vec![(None, b"start.ninja".to_vec())]);
}

#[test]
fn parser_names_an_unhandled_token_as_debug_does() {
    for (input, lexeme) in [
        (&b":\n"[..], Lexeme::Colon),
        (&b"||\n"[..], Lexeme::Pipe2),
        (&b"pool p\n"[..], Lexeme::Pool),
        (&b"subninja x\n"[..], Lexeme::Subninja),
        (&b"default x\n"[..], Lexeme::Default),
    ] {
        let err = match simple_parser(input).unwrap_err() {
            ProcessingError::ParseFailed(e) => e,
            e => panic!("Unexpected error {:?}", e),
        };
        assert_eq!(err.message(), format!("Unhandled token {:?}", lexeme));
    }
}
