use ninja_rs::builder::rebuilder::{
    caching_mtime_rebuilder, dirtiness_of, CachingMTimeRebuilder, DirtyCache, DiskDirtyCache, DiskError,
    DiskInterface, Dirtiness,
    RebuilderError,
};
use ninja_rs::builder::task::{Key, KeyMulti, KeyPath, Task, TaskVariant};
use ninja_rs::builder::tracking_rebuilder::TrackingRebuilder;

/// Files with modification times, in seconds; any other file is missing.
struct MockDisk {
    files: Vec<(&'static [u8], i128)>,
}

impl DiskInterface for MockDisk {
    fn modified(&self, path: &[u8]) -> Result<i128, DiskError> {
        for (name, secs) in &self.files {
            if *name == path {
                return Ok(secs * 1_000_000_000);
            }
        }
        Err(DiskError::NotFound)
    }
}

/// A disk that fails every request with an error other than `NotFound`.
struct BrokenDisk {}

impl DiskInterface for BrokenDisk {
    fn modified(&self, _path: &[u8]) -> Result<i128, DiskError> {
        Err(DiskError::Other(std::io::Error::new(std::io::ErrorKind::PermissionDenied, "no access")))
    }
}

fn rebuilder(files: Vec<(&'static [u8], i128)>) -> CachingMTimeRebuilder<DiskDirtyCache<MockDisk>> {
    CachingMTimeRebuilder::new(DiskDirtyCache::new(MockDisk { files }))
}

fn path(p: &[u8]) -> Key {
    Key::Path(KeyPath(p.to_vec()))
}

fn command_task(deps: Vec<Key>, command: &str) -> Task {
    Task { dependencies: deps, order_dependencies: vec![], variant: TaskVariant::Command(command.to_owned()) }
}

#[test]
fn rebuilder_test_basic() {
    let mut rebuilder = rebuilder(vec![(b"foo.c", 100)]);
    let task = command_task(vec![path(b"foo.c")], "cc -c foo.c");
    let cmd = rebuilder
        .build(path(b"foo.o"), &task)
        .expect("valid task")
        .expect("non-none task");
    assert_eq!(cmd.command(), "cc -c foo.c");
    assert!(matches!(cmd.key(), Key::Path(p) if p.as_bytes() == b"foo.o"));
}

#[test]
fn test_input_does_not_exist() {
    let mut rebuilder = rebuilder(vec![]);
    let task = rebuilder.build(
        path(b"phony_user"),
        &Task {
            dependencies: vec![path(b"phony_target_that_does_not_exist")],
            order_dependencies: vec![],
            variant: TaskVariant::Retrieve,
        },
    );
    match task {
        Err(RebuilderError::MissingInput { output, input }) => {
            assert_eq!(output, "phony_user");
            assert_eq!(input, "phony_target_that_does_not_exist");
        }
        _ => panic!("Expected error"),
    }

    let task = rebuilder.build(
        path(b"phony_user"),
        &command_task(vec![path(b"phony_target_that_does_not_exist")], "whatever"),
    );
    assert!(matches!(task, Err(RebuilderError::MissingInput { .. })));
}

#[test]
fn test_input_does_not_exist_multiple_out_error_message() {
    let mut rebuilder = rebuilder(vec![]);
    let task = Task {
        dependencies: vec![path(b"phony_target_that_does_not_exist")],
        order_dependencies: vec![],
        variant: TaskVariant::Retrieve,
    };
    let key = Key::Multi(KeyMulti(vec![KeyPath(b"phony_user".to_vec()), KeyPath(b"phony_user2".to_vec())]));
    match rebuilder.build(key, &task) {
        Err(RebuilderError::MissingInput { output, input }) => {
            assert_eq!(output, "phony_user");
            assert_eq!(input, "phony_target_that_does_not_exist");
        }
        _ => panic!("Expected error"),
    }
}

#[test]
fn test_phony_input() {
    let mut rebuilder = rebuilder(vec![]);
    let task = rebuilder.build(
        path(b"phony_target_that_does_not_exist"),
        &Task { dependencies: vec![], order_dependencies: vec![], variant: TaskVariant::Retrieve },
    );
    assert!(task.is_ok());

    // The step above marked its output dirty, so the cache answers for it.
    let task = rebuilder.build(
        path(b"phony_user"),
        &Task {
            dependencies: vec![path(b"phony_target_that_does_not_exist")],
            order_dependencies: vec![],
            variant: TaskVariant::Retrieve,
        },
    );
    assert!(task.is_ok());
}

#[test]
fn test_older_input() {
    let mut rebuilder = rebuilder(vec![(b"foo.c", 100), (b"foo.o", 200)]);
    let task = command_task(vec![path(b"foo.c")], "cc -c foo.c");
    let r = rebuilder.build(path(b"foo.o"), &task).expect("valid task");
    assert!(r.is_none());
}

#[test]
fn test_clean_chain() {
    let mut rebuilder = rebuilder(vec![(b"foo.c", 100), (b"foo.o", 1000), (b"foo", 500)]);
    let cc_task = command_task(vec![path(b"foo.c")], "cc -c foo.c");
    let link_task = command_task(vec![path(b"foo.o")], "cc -o foo foo.o");

    let r = rebuilder.build(path(b"foo.o"), &cc_task).expect("valid task");
    assert!(r.is_none(), "foo.o newer than foo.c");

    let r = rebuilder.build(path(b"foo"), &link_task).expect("valid task");
    assert!(r.is_some());
}

#[test]
fn test_order_dependencies_newer() {
    // An order-only dependency newer than the output does not make it dirty.
    let mut rebuilder = rebuilder(vec![(b"foo.c", 100), (b"foo.o", 200), (b"gen.h", 900)]);
    let task = Task {
        dependencies: vec![path(b"foo.c")],
        order_dependencies: vec![path(b"gen.h")],
        variant: TaskVariant::Command("cc -c foo.c".to_owned()),
    };
    let r = rebuilder.build(path(b"foo.o"), &task).expect("valid task");
    assert!(r.is_none());
}

#[test]
fn rebuilder_newer_input_rebuilds() {
    let mut rebuilder = rebuilder(vec![(b"foo.c", 300), (b"foo.o", 200)]);
    let task = command_task(vec![path(b"foo.c")], "cc -c foo.c");
    assert!(rebuilder.build(path(b"foo.o"), &task).expect("valid task").is_some());
}

#[test]
fn rebuilder_io_error_is_reported() {
    let mut rebuilder = caching_mtime_rebuilder(BrokenDisk {});
    let task = command_task(vec![path(b"foo.c")], "cc");
    assert!(matches!(rebuilder.build(path(b"foo.o"), &task), Err(RebuilderError::IOError(_))));
}

#[test]
fn rebuilder_multi_output_retrieve_chain() {
    // A multi-output edge, then each output retrieves the multi-key.
    let mut rebuilder = rebuilder(vec![(b"in.txt", 100), (b"a.out", 50), (b"b.out", 60)]);
    let multi = Key::Multi(KeyMulti(vec![KeyPath(b"a.out".to_vec()), KeyPath(b"b.out".to_vec())]));
    let edge = command_task(vec![path(b"in.txt")], "gen");
    let cmd = rebuilder.build(multi.copy(), &edge).expect("valid task");
    assert!(cmd.is_some(), "outputs are older than the input");
    let retrieve = Task { dependencies: vec![multi.copy()], order_dependencies: vec![], variant: TaskVariant::Retrieve };
    assert!(rebuilder.can_build(&path(b"a.out"), &retrieve));
    assert!(rebuilder.build(path(b"a.out"), &retrieve).expect("valid task").is_none());
}

#[test]
fn rebuilder_cannot_retrieve_an_unknown_multi_key() {
    let rebuilder = rebuilder(vec![]);
    let multi = Key::Multi(KeyMulti(vec![KeyPath(b"a".to_vec()), KeyPath(b"b".to_vec())]));
    let retrieve = Task { dependencies: vec![multi], order_dependencies: vec![], variant: TaskVariant::Retrieve };
    assert!(!rebuilder.can_build(&path(b"a"), &retrieve));
}

#[test]
fn dirty_cache_remembers_files() {
    let mut cache = DiskDirtyCache::new(MockDisk { files: vec![(b"x", 7)] });
    assert_eq!(cache.cached(&path(b"x")), None);
    assert_eq!(cache.dirtiness(path(b"x")).unwrap(), Dirtiness::Modified(7_000_000_000));
    assert_eq!(cache.cached(&path(b"x")), Some(Dirtiness::Modified(7_000_000_000)));
    assert_eq!(cache.dirtiness(path(b"y")).unwrap(), Dirtiness::DoesNotExist);
    cache.mark_dirty(path(b"x"), true);
    assert_eq!(cache.cached(&path(b"x")), Some(Dirtiness::Dirty));
}

#[test]
fn tracking_rebuilder_notes_the_watched_key() {
    let mut t = TrackingRebuilder::with_caching_rebuilder(path(b"foo.o"), MockDisk { files: vec![(b"foo.c", 100)] });
    assert!(!t.required_rebuild());
    let task = command_task(vec![path(b"foo.c")], "cc -c foo.c");
    assert!(t.can_build(&path(b"foo.o"), &task));
    let r = t.build(path(b"foo.o"), &task).expect("valid task");
    assert!(r.is_some());
    assert!(t.required_rebuild());
}

#[test]
fn dirtiness_of_maps_each_disk_answer() {
    assert!(matches!(dirtiness_of(Ok(42)), Ok(Dirtiness::Modified(42))));
    assert!(matches!(dirtiness_of(Err(DiskError::NotFound)), Ok(Dirtiness::DoesNotExist)));
    let other = std::io::Error::new(std::io::ErrorKind::PermissionDenied, "no access");
    match dirtiness_of(Err(DiskError::Other(other))) {
        Err(e) => assert_eq!(e.kind(), std::io::ErrorKind::PermissionDenied),
        Ok(_) => panic!("an I/O error other than NotFound is kept"),
    }
}

#[test]
fn disk_cache_reads_times_and_missing_files() {
    let mut cache = DiskDirtyCache::new(MockDisk { files: vec![(b"a.c", 7)] });
    assert!(matches!(cache.dirtiness(path(b"a.c")), Ok(Dirtiness::Modified(7_000_000_000))));
    assert!(matches!(cache.dirtiness(path(b"missing.c")), Ok(Dirtiness::DoesNotExist)));
}

#[test]
fn tracking_flag_is_set_once_the_watched_key_needs_a_command_and_stays() {
    let disk = MockDisk { files: vec![(b"foo.c", 100), (b"bar.c", 100), (b"bar.o", 200)] };
    let mut t = TrackingRebuilder::with_caching_rebuilder(path(b"foo.o"), disk);
    let bar = command_task(vec![path(b"bar.c")], "cc -c bar.c");
    assert!(t.build(path(b"bar.o"), &bar).expect("valid task").is_none());
    assert!(!t.required_rebuild());
    let foo = command_task(vec![path(b"foo.c")], "cc -c foo.c");
    assert!(t.build(path(b"foo.o"), &foo).expect("valid task").is_some());
    assert!(t.required_rebuild());
    let link = command_task(vec![path(b"foo.o"), path(b"bar.o")], "cc -o foo foo.o bar.o");
    assert!(t.build(path(b"foo"), &link).expect("valid task").is_some());
    assert!(t.required_rebuild());
}

/// A disk that records each path it is asked about.
struct CountingDisk {
    asked: std::cell::RefCell<Vec<Vec<u8>>>,
}

impl DiskInterface for CountingDisk {
    fn modified(&self, path: &[u8]) -> Result<i128, DiskError> {
        self.asked.borrow_mut().push(path.to_vec());
        if path == b"a.c" {
            Ok(5)
        } else {
            Err(DiskError::NotFound)
        }
    }
}

#[test]
fn disk_cache_asks_the_disk_for_the_path_once() {
    let disk = CountingDisk { asked: std::cell::RefCell::new(vec![]) };
    let mut cache = DiskDirtyCache::new(disk);
    assert!(matches!(cache.dirtiness(path(b"a.c")), Ok(Dirtiness::Modified(5))));
    assert!(matches!(cache.dirtiness(path(b"a.c")), Ok(Dirtiness::Modified(5))));
    assert!(matches!(cache.dirtiness(path(b"b.c")), Ok(Dirtiness::DoesNotExist)));
    cache.mark_dirty(path(b"b.c"), false);
    assert!(matches!(cache.dirtiness(path(b"b.c")), Ok(Dirtiness::DoesNotExist)));
    cache.mark_dirty(path(b"a.c"), true);
    assert!(matches!(cache.dirtiness(path(b"a.c")), Ok(Dirtiness::Dirty)));
    assert_eq!(cache.disk().asked.borrow().clone(), vec![b"a.c".to_vec(), b"b.c".to_vec()]);
}
