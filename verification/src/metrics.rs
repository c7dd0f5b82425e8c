//! Counting and timing named operations.
use vstd::prelude::*;

verus! {

#[verifier::external_type_specification]
#[verifier::external_body]
pub struct ExInstant(std::time::Instant);

/// `std::time::Instant::now`.
#[verifier::external_body]
fn now() -> std::time::Instant {
    std::time::Instant::now()
}

/// `Instant::elapsed`, in whole microseconds.
#[verifier::external_body]
fn elapsed_micros_since(start: &std::time::Instant) -> u128 {
    start.elapsed().as_micros()
}

/// How often an operation ran and how long it took in all.
#[derive(Debug, Default)]
pub struct Metric {
    pub name: &'static str,
    pub count: usize,
    /// Microseconds.
    pub sum: u128,
}

impl Metric {
    /// Records one run that took `elapsed_micros` microseconds.
    pub fn record(&mut self, elapsed_micros: u128)
        requires
            old(self).count < usize::MAX,
            old(self).sum + elapsed_micros <= u128::MAX,
        ensures
            final(self).name == old(self).name,
            final(self).count == old(self).count + 1,
            final(self).sum == old(self).sum + elapsed_micros,
    {
        self.count = self.count + 1;
        self.sum = self.sum + elapsed_micros;
    }
}

/// Times one run of an operation, from its creation.
pub struct ScopedMetric {
    metric_index: usize,
    start: std::time::Instant,
}

impl ScopedMetric {
    pub fn new(metric_index: usize) -> (r: Self)
        ensures
            r.spec_index() == metric_index,
    {
        ScopedMetric { metric_index, start: now() }
    }

    pub closed spec fn spec_index(&self) -> usize {
        self.metric_index
    }

    /// The metric this run counts for.
    pub fn metric_index(&self) -> (r: usize)
        ensures
            r == self.spec_index(),
    {
        self.metric_index
    }

    /// How long the run has taken so far, in microseconds.
    pub fn elapsed_micros(&self) -> u128 {
        elapsed_micros_since(&self.start)
    }
}

/// The metrics of a process, by index.
#[derive(Debug)]
pub struct Metrics {
    pub metrics: Vec<Metric>,
}

impl Metrics {
    pub fn new() -> (r: Metrics)
        ensures
            r.metrics@.len() == 0,
    {
        Metrics { metrics: Vec::new() }
    }

    /// Adds a metric named `name`, not run yet; its index.
    pub fn new_metric(&mut self, name: &'static str) -> (r: usize)
        ensures
            r == old(self).metrics@.len(),
            final(self).metrics@.len() == old(self).metrics@.len() + 1,
            forall|i: int| 0 <= i < r ==> final(self).metrics@[i] == old(self).metrics@[i],
            final(self).metrics@[r as int].name == name,
            final(self).metrics@[r as int].count == 0,
            final(self).metrics@[r as int].sum == 0,
    {
        let len = self.metrics.len();
        self.metrics.push(Metric { name, count: 0, sum: 0 });
        len
    }

    /// Records one run of metric `i` that took `elapsed_micros` microseconds.
    pub fn record(&mut self, i: usize, elapsed_micros: u128)
        requires
            i < old(self).metrics@.len(),
            old(self).metrics@[i as int].count < usize::MAX,
            old(self).metrics@[i as int].sum + elapsed_micros <= u128::MAX,
        ensures
            final(self).metrics@.len() == old(self).metrics@.len(),
            forall|j: int| 0 <= j < old(self).metrics@.len() && j != i ==> final(self).metrics@[j]
                == old(self).metrics@[j],
            final(self).metrics@[i as int].name == old(self).metrics@[i as int].name,
            final(self).metrics@[i as int].count == old(self).metrics@[i as int].count + 1,
            final(self).metrics@[i as int].sum == old(self).metrics@[i as int].sum + elapsed_micros,
    {
        let mut m = Metric { name: "", count: 0, sum: 0 };
        std::mem::swap(&mut m, &mut self.metrics[i]);
        m.record(elapsed_micros);
        self.metrics.set(i, m);
    }
}

} // verus!
