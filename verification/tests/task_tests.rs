use ninja_rs::builder::task::{
    description_to_tasks, description_to_tasks_with_start, paths_to_multi_key, Key, KeyPath, Tasks,
};
use ninja_rs::parse::repr::{Action, Build, Description};
use ninja_rs::tasks;

fn command_build(inputs: &[&[u8]], implicit: &[&[u8]], order: &[&[u8]], outputs: &[&[u8]]) -> Build {
    Build {
        action: Action::Command("compiler".to_owned()),
        inputs: inputs.iter().map(|p| p.to_vec()).collect(),
        implicit_inputs: implicit.iter().map(|p| p.to_vec()).collect(),
        order_inputs: order.iter().map(|p| p.to_vec()).collect(),
        outputs: outputs.iter().map(|p| p.to_vec()).collect(),
    }
}

fn path_key(p: &[u8]) -> Key {
    Key::Path(KeyPath(p.to_vec()))
}

#[test]
fn test_paths_to_multi_key_at_least_2() {
    paths_to_multi_key(vec![b"a".to_vec(), b"b".to_vec()]);
}

#[test]
fn task_test_sort() {
    let key = paths_to_multi_key(vec![
        b"hello".to_vec(),
        b"grungy".to_vec(),
        b"aaaaaaaaaaaaaaaa.txt".to_vec(),
    ]);
    let mut iter = key.paths().iter().peekable();
    while let Some(elem) = iter.next() {
        if let Some(next) = iter.peek() {
            assert!(elem <= *next);
        }
    }
    assert_eq!(key.paths().len(), 3);
    assert_eq!(key.paths()[0], KeyPath(b"aaaaaaaaaaaaaaaa.txt".to_vec()));
}

#[test]
fn task_test_outputs_processing() {
    let desc = Description {
        builds: vec![command_build(&[], &[], &[], &[b"output9.txt", b"output2.txt"])],
        defaults: None,
    };

    let (tasks, _) = description_to_tasks(desc);
    assert_eq!(tasks.all_tasks().len(), 3);

    let mut found_multi = false;
    let mut single_count = 0;
    for (key, _) in tasks.all_tasks() {
        if let Key::Multi(keys) = key {
            found_multi = true;
            assert_eq!(
                keys.0,
                vec![KeyPath(b"output2.txt".to_vec()), KeyPath(b"output9.txt".to_vec())]
            );
            let task = tasks.task(key).expect("valid task");
            assert!(task.is_command());
            assert!(task.dependencies().is_empty());
        } else if let Key::Path(path) = key {
            single_count += 1;
            assert!(path.as_bytes() == b"output2.txt" || path.as_bytes() == b"output9.txt");

            let task = tasks.task(key).expect("valid task");
            assert!(task.is_retrieve());
            assert_eq!(task.dependencies().len(), 1);
            assert!(matches!(task.dependencies()[0], Key::Multi(_)));
        }
    }
    assert!(found_multi);
    assert_eq!(single_count, 2);
}

#[test]
fn task_implicit_dependencies() {
    let desc = Description {
        builds: vec![command_build(&[b"a.txt", b"b.txt"], &[b"c.txt", b"d.txt"], &[], &[b"z.txt"])],
        defaults: None,
    };

    let (tasks, _) = description_to_tasks(desc);
    assert_eq!(tasks.all_tasks().len(), 1);
    let task = tasks.task(&path_key(b"z.txt")).expect("valid task");
    assert!(task.is_command());
    assert_eq!(task.dependencies().len(), 4);
}

#[test]
fn task_order_dependencies() {
    let desc = Description {
        builds: vec![command_build(&[b"a.txt", b"b.txt"], &[], &[b"c.txt", b"d.txt"], &[b"z.txt"])],
        defaults: None,
    };

    let (tasks, _) = description_to_tasks(desc);
    assert_eq!(tasks.all_tasks().len(), 1);
    let task = tasks.task(&path_key(b"z.txt")).expect("valid task");
    assert!(task.is_command());
    assert_eq!(task.dependencies().len(), 2);
    assert_eq!(task.order_dependencies().len(), 2);
}

#[test]
fn task_defaults_become_start_keys() {
    let desc = Description {
        builds: vec![
            command_build(&[b"a.c"], &[], &[], &[b"a.o"]),
            command_build(&[b"b.c"], &[], &[], &[b"b.o"]),
        ],
        defaults: Some(vec![b"b.o".to_vec()]),
    };
    let (_tasks, start) = description_to_tasks(desc);
    assert_eq!(start, Some(vec![KeyPath(b"b.o".to_vec())]));
}

#[test]
fn task_requested_start_is_kept() {
    let desc = Description { builds: vec![command_build(&[b"a.c"], &[], &[], &[b"a.o"])], defaults: None };
    let (tasks, start) = description_to_tasks_with_start(desc, Some(vec![b"a.o".to_vec()]));
    assert_eq!(tasks.all_tasks().len(), 1);
    assert_eq!(start, Some(vec![KeyPath(b"a.o".to_vec())]));
}

#[test]
fn task_insert_replaces() {
    let mut tasks = Tasks::new();
    let t1 = ninja_rs::builder::task::Task {
        dependencies: vec![],
        order_dependencies: vec![],
        variant: ninja_rs::builder::task::TaskVariant::Source,
    };
    let t2 = ninja_rs::builder::task::Task {
        dependencies: vec![path_key(b"x")],
        order_dependencies: vec![],
        variant: ninja_rs::builder::task::TaskVariant::Retrieve,
    };
    tasks.insert(path_key(b"k"), t1);
    tasks.insert(path_key(b"k"), t2);
    assert_eq!(tasks.all_tasks().len(), 1);
    assert!(tasks.task(&path_key(b"k")).unwrap().is_retrieve());
    assert!(tasks.task(&path_key(b"other")).is_none());
}

#[test]
fn test_syms_to_key_at_least_2() {
    tasks::syms_to_key(vec![b"a".to_vec(), b"b".to_vec()]);
}

#[test]
fn lib_test_sort() {
    let key = tasks::syms_to_key(vec![
        b"hello".to_vec(),
        b"grungy".to_vec(),
        b"aaaaaaaaaaaaaaaa.txt".to_vec(),
    ]);
    if let tasks::Key::Multi(keys) = key {
        let mut iter = keys.iter().peekable();
        while let Some(elem) = iter.next() {
            if let Some(next) = iter.peek() {
                assert!(elem <= *next);
            }
        }
    } else {
        panic!("Expected multi");
    }
}

#[test]
fn lib_test_outputs_processing() {
    let desc = Description {
        builds: vec![command_build(&[], &[], &[], &[b"output9.txt", b"output2.txt"])],
        defaults: None,
    };

    let tasks = tasks::description_to_tasks(desc);
    assert_eq!(tasks.all_tasks().len(), 3);

    let mut found_multi = false;
    let mut single_count = 0;
    for (key, _) in tasks.all_tasks() {
        if let tasks::Key::Multi(keys) = key {
            found_multi = true;
            assert_eq!(
                keys,
                &vec![
                    tasks::Key::Single(b"output2.txt".to_vec()),
                    tasks::Key::Single(b"output9.txt".to_vec())
                ]
            );
            let task = tasks.task(key).expect("valid task");
            assert!(task.is_command());
            assert!(task.dependencies().is_empty());
        } else if let tasks::Key::Single(path) = key {
            single_count += 1;
            assert!(path == &b"output2.txt".to_vec() || path == &b"output9.txt".to_vec());

            let task = tasks.task(key).expect("valid task");
            assert!(task.is_retrieve());
            assert_eq!(task.dependencies().len(), 1);
            assert!(matches!(task.dependencies()[0], tasks::Key::Multi(_)));
        }
    }
    assert!(found_multi);
    assert_eq!(single_count, 2);
}

#[test]
fn lib_implicit_dependencies() {
    let desc = Description {
        builds: vec![command_build(&[b"a.txt", b"b.txt"], &[b"c.txt", b"d.txt"], &[], &[b"z.txt"])],
        defaults: None,
    };

    let tasks = tasks::description_to_tasks(desc);
    assert_eq!(tasks.all_tasks().len(), 1);
    let task = tasks.task(&tasks::Key::Single(b"z.txt".to_vec())).expect("valid task");
    assert!(task.is_command());
    assert_eq!(task.dependencies().len(), 4);
}

#[test]
fn lib_order_dependencies() {
    let desc = Description {
        builds: vec![command_build(&[b"a.txt", b"b.txt"], &[], &[b"c.txt", b"d.txt"], &[b"z.txt"])],
        defaults: None,
    };

    let tasks = tasks::description_to_tasks(desc);
    assert_eq!(tasks.all_tasks().len(), 1);
    let task = tasks.task(&tasks::Key::Single(b"z.txt".to_vec())).expect("valid task");
    assert!(task.is_command());
    assert_eq!(task.dependencies().len(), 2);
    assert_eq!(task.order_dependencies().len(), 2);
}

#[test]
fn lib_single_key_bytes() {
    let k = tasks::Key::Single(b"abc".to_vec());
    assert_eq!(k.as_bytes(), b"abc");
    assert!(k.is_single());
    assert!(!k.is_multi());
}
