use ninja_rs::config::{Config, DebugMode};
use ninja_rs::driver::{driver_step, DriverAction, MAX_ROUNDS};
use ninja_rs::metrics::{Metric, Metrics, ScopedMetric};
use ninja_rs::paths::{InsertResult, PathCache};

#[test]
fn paths_interning_gives_stable_references() {
    let mut cache = PathCache::new();
    let a = cache.insert_and_get(b"a.txt".to_vec());
    let b = cache.insert_and_get(b"b.txt".to_vec());
    let a2 = cache.insert_and_get(b"a.txt".to_vec());
    assert_eq!(cache.get(a), b"a.txt");
    assert_eq!(cache.get(b), b"b.txt");
    assert_eq!(cache.get(a2), b"a.txt");
    assert_eq!(cache.insert(b"a.txt".to_vec()), InsertResult::AlreadyExists(a));
    assert_eq!(cache.insert(b"c.txt".to_vec()), InsertResult::Inserted(2));
}

#[test]
fn metrics_record_counts_and_sums() {
    let mut m = Metric { name: "parse", count: 0, sum: 0 };
    m.record(5);
    m.record(7);
    assert_eq!(m.count, 2);
    assert_eq!(m.sum, 12);

    let mut all = Metrics::new();
    let i = all.new_metric("a");
    let j = all.new_metric("b");
    assert_eq!((i, j), (0, 1));
    all.record(j, 3);
    assert_eq!(all.metrics[1].count, 1);
    assert_eq!(all.metrics[1].sum, 3);
    assert_eq!(all.metrics[0].count, 0);

    let scoped = ScopedMetric::new(j);
    assert_eq!(scoped.metric_index(), 1);
    let _ = scoped.elapsed_micros();
}

#[test]
fn config_debug_modes() {
    assert!(matches!("stats".parse::<DebugMode>(), Ok(DebugMode::Stats)));
    assert!(matches!(DebugMode::parse("list"), Ok(DebugMode::List)));
    let err = DebugMode::parse("bogus").unwrap_err();
    assert_eq!(err.message(), "Unknown debug setting 'bogus'");
    let config = Config {
        execution_dir: None,
        parallelism: 2,
        build_file: "build.ninja".to_owned(),
        debug_modes: vec![DebugMode::Stats],
        targets: vec![],
    };
    assert!(config.metrics_enabled());
    let config = Config { debug_modes: vec![DebugMode::List], ..config };
    assert!(!config.metrics_enabled());
}

#[test]
fn driver_updates_the_build_file_first_when_it_has_a_task() {
    assert_eq!(driver_step(1, true, None), DriverAction::UpdateBuildFile);
    assert_eq!(driver_step(1, false, None), DriverAction::BuildRequested);
}

#[test]
fn driver_rereads_a_rebuilt_build_file_until_the_last_round() {
    assert_eq!(driver_step(1, true, Some(true)), DriverAction::Reread);
    assert_eq!(driver_step(MAX_ROUNDS - 1, true, Some(true)), DriverAction::Reread);
    assert_eq!(driver_step(MAX_ROUNDS, true, Some(true)), DriverAction::Stop);
    assert_eq!(driver_step(MAX_ROUNDS + 1, true, None), DriverAction::Stop);
}

#[test]
fn driver_builds_when_the_build_file_is_up_to_date() {
    assert_eq!(driver_step(3, true, Some(false)), DriverAction::BuildRequested);
}
