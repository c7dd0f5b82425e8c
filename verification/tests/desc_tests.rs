use ninja_rs::desc::ast::Action;
use ninja_rs::desc::source::{Build, Description, Rule};
use ninja_rs::desc::{to_description, ProcessingError};
use ninja_rs::parse::ast::{Expr, Term};

fn rule(name: &str, command: &str) -> Rule {
    Rule {
        name: name.as_bytes().to_vec(),
        command: Expr(vec![Term::Literal(command.as_bytes().to_vec())]),
    }
}

fn path(p: &[u8]) -> Expr {
    Expr(vec![Term::Literal(p.to_vec())])
}

#[test]
fn desc_no_rule_named_phony() {
    let desc = Description { rules: vec![rule("phony", "")], builds: vec![] };
    let err = to_description(desc).unwrap_err();
    assert!(matches!(err, ProcessingError::DuplicateRule(_)));
}

#[test]
fn desc_err_duplicate_rule() {
    let desc = Description {
        rules: vec![
            rule("link", "link.exe"),
            rule("compile", "compile.exe"),
            rule("link", "link.exe"),
        ],
        builds: vec![],
    };
    let err = to_description(desc).unwrap_err();
    assert!(matches!(err, ProcessingError::DuplicateRule(_)));
}

#[test]
fn desc_duplicate_output() {
    let desc = Description {
        rules: vec![],
        builds: vec![
            Build { rule: b"phony".to_vec(), inputs: vec![], outputs: vec![path(b"a.txt")] },
            Build { rule: b"phony".to_vec(), inputs: vec![], outputs: vec![path(b"a.txt")] },
        ],
    };
    assert!(matches!(to_description(desc).unwrap_err(), ProcessingError::DuplicateOutput(_)));
}

#[test]
fn desc_duplicate_output2() {
    let desc = Description {
        rules: vec![],
        builds: vec![
            Build {
                rule: b"phony".to_vec(),
                inputs: vec![],
                outputs: vec![path(b"b.txt"), path(b"a.txt")],
            },
            Build {
                rule: b"phony".to_vec(),
                inputs: vec![],
                outputs: vec![path(b"a.txt"), path(b"c.txt")],
            },
        ],
    };
    assert!(matches!(to_description(desc).unwrap_err(), ProcessingError::DuplicateOutput(_)));
}

#[test]
fn desc_unknown_rule() {
    let desc = Description {
        rules: vec![],
        builds: vec![Build { rule: b"baloney".to_vec(), inputs: vec![], outputs: vec![path(b"a.txt")] }],
    };
    assert!(matches!(to_description(desc).unwrap_err(), ProcessingError::UnknownRule(_)));
}

#[test]
fn desc_success() {
    let desc = Description {
        rules: vec![rule("link", "link.exe"), rule("cc", "clang"), rule("unused", "")],
        builds: vec![
            Build { rule: b"phony".to_vec(), inputs: vec![path(b"source.txt")], outputs: vec![path(b"a.txt")] },
            Build {
                rule: b"cc".to_vec(),
                inputs: vec![path(b"hello.c"), path(b"hello.h")],
                outputs: vec![path(b"hello.o")],
            },
            Build {
                rule: b"link".to_vec(),
                inputs: vec![path(b"hello.o"), path(b"my_shared_lib.so")],
                outputs: vec![path(b"hello")],
            },
        ],
    };
    let d = to_description(desc).expect("valid description");
    assert_eq!(d.builds.len(), 3);
    assert!(matches!(d.builds[0].action, Action::Phony));
    assert!(matches!(&d.builds[1].action, Action::Command(c) if c == "clang"));
    assert!(matches!(&d.builds[2].action, Action::Command(c) if c == "link.exe"));
    assert_eq!(d.builds[1].inputs, vec![b"hello.c".to_vec(), b"hello.h".to_vec()]);
    assert_eq!(d.builds[2].outputs, vec![b"hello".to_vec()]);
}

#[test]
fn desc_in_and_out_basic() {
    let desc = Description {
        rules: vec![Rule {
            name: b"echo".to_vec(),
            command: Expr(vec![
                Term::Literal(b"echo ".to_vec()),
                Term::Reference(b"in".to_vec()),
                Term::Literal(b" makes ".to_vec()),
                Term::Reference(b"out".to_vec()),
            ]),
        }],
        builds: vec![Build {
            rule: b"echo".to_vec(),
            inputs: vec![path(b"a.txt"), path(b"b.txt")],
            outputs: vec![path(b"c.txt"), path(b"d.txt")],
        }],
    };
    let d = to_description(desc).expect("valid description");
    assert_eq!(d.builds[0].inputs, vec![b"a.txt".to_vec(), b"b.txt".to_vec()]);
    assert_eq!(d.builds[0].outputs, vec![b"c.txt".to_vec(), b"d.txt".to_vec()]);
    assert!(matches!(&d.builds[0].action, Action::Command(c) if c == "echo a.txt b.txt makes c.txt d.txt"));
}
