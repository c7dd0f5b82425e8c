//! A rebuilder that also records whether one particular key had to be rebuilt.
use crate::builder::build_task::CommandTask;
use crate::builder::rebuilder::{
    all_known, build_ready, build_result, caching_mtime_rebuilder, no_clean_paths, output_keys, CachingMTimeRebuilder, DiskDirtyCache,
    DiskInterface, Dirtiness, RebuilderError,
};
use crate::builder::task::{Key, KeyView, Task};
use vstd::prelude::*;

verus! {

pub struct TrackingRebuilder<D> where D: DiskInterface {
    inner: CachingMTimeRebuilder<DiskDirtyCache<D>>,
    key_to_track: Key,
    required_rebuild: bool,
}

impl<D> TrackingRebuilder<D> where D: DiskInterface {
    /// What the inner rebuilder knows of each key.
    pub closed spec fn known(&self) -> Map<KeyView, Dirtiness> {
        self.inner.known()
    }

    /// The key that is watched.
    pub closed spec fn watched_key(&self) -> KeyView {
        self.key_to_track@
    }

    /// Whether the watched key had to be rebuilt so far.
    pub closed spec fn spec_required(&self) -> bool {
        self.required_rebuild
    }

    /// Watches `key`, with a caching rebuilder that reads modification times from `disk`.
    pub fn with_caching_rebuilder(key: Key, disk: D) -> (r: Self)
        ensures
            r.known() == Map::<KeyView, Dirtiness>::empty(),
            no_clean_paths(r.known()),
            r.watched_key() == key@,
            !r.spec_required(),
    {
        TrackingRebuilder {
            inner: caching_mtime_rebuilder(disk),
            key_to_track: key,
            required_rebuild: false,
        }
    }

    pub fn required_rebuild(&self) -> (r: bool)
        ensures
            r == self.spec_required(),
    {
        self.required_rebuild
    }

    /// Whether `key` and `task` can be handed to `build`.
    pub fn can_build(&self, key: &Key, task: &Task) -> (r: bool)
        ensures
            r == build_ready(self.known(), key@, task@),
    {
        self.inner.can_build(key, task)
    }

    /// Builds as the inner rebuilder does, and notes when the watched key needs a command.
    pub fn build(&mut self, key: Key, task: &Task) -> (r: Result<Option<CommandTask>, RebuilderError>)
        requires
            build_ready(old(self).known(), key@, task@),
        ensures
            all_known(old(self).known(), output_keys(key@)) && all_known(old(self).known(), task@.dependencies)
                ==> !(r matches Err(RebuilderError::IOError(_))),
            final(self).watched_key() == old(self).watched_key(),
            no_clean_paths(old(self).known()) ==> no_clean_paths(final(self).known()),
            final(self).spec_required() == (old(self).spec_required() || (key@ == old(
                self,
            ).watched_key() && r matches Ok(Some(_)))),
            r matches Err(RebuilderError::IOError(_)) ==> old(self).known().submap_of(
                final(self).known(),
            ),
            !(r matches Err(RebuilderError::IOError(_))) ==> exists|mid: Map<KeyView, Dirtiness>|
                #[trigger] build_result(
                    old(self).known(),
                    mid,
                    final(self).known(),
                    key@,
                    task@,
                    r,
                ),
    {
        let matches = key.same(&self.key_to_track);
        let ghost kv = key@;
        let ghost before = self.inner.known();
        let build_task = self.inner.build(key, task);
        let ghost after = self.inner.known();
        let needed = match &build_task {
            Ok(Some(_)) => true,
            _ => false,
        };
        if matches && needed {
            self.required_rebuild = true;
        }
        proof {
            assert(self.known() == after);
            if !(build_task matches Err(RebuilderError::IOError(_))) {
                let mid = choose|mid: Map<KeyView, Dirtiness>|
                    #[trigger] build_result(before, mid, after, kv, task@, build_task);
                assert(build_result(old(self).known(), mid, self.known(), kv, task@, build_task));
            }
        }
        build_task
    }
}

/// Whether one of the `calls` (each a key built and whether that build asked for a command) built
/// `k` and asked for a command.
pub open spec fn rebuilt_in(k: KeyView, calls: Seq<(KeyView, bool)>) -> bool {
    exists|i: int| 0 <= i < calls.len() && (#[trigger] calls[i]).0 == k && calls[i].1
}

/// Over any run of builds from a fresh tracking rebuilder, the flag is set exactly when one of
/// the builds built the watched key and asked for a command: it starts unset and is never reset.
/// `states[i + 1]` is the rebuilder after the build `calls[i]`, as `build` states it.
pub proof fn lemma_required_rebuild_over_builds<D: DiskInterface>(
    states: Seq<TrackingRebuilder<D>>,
    calls: Seq<(KeyView, bool)>,
)
    requires
        states.len() == calls.len() + 1,
        !states[0].spec_required(),
        forall|i: int|
            0 <= i < calls.len() ==> (#[trigger] states[i + 1]).watched_key() == states[i].watched_key()
                && states[i + 1].spec_required() == (states[i].spec_required() || (calls[i].0
                == states[i].watched_key() && calls[i].1)),
    ensures
        states.last().spec_required() == rebuilt_in(states[0].watched_key(), calls),
    decreases calls.len(),
{
    let n = calls.len();
    if n > 0 {
        let ps = states.drop_last();
        let pc = calls.drop_last();
        assert forall|i: int| 0 <= i < pc.len() implies (#[trigger] ps[i + 1]).watched_key()
            == ps[i].watched_key() && ps[i + 1].spec_required() == (ps[i].spec_required() || (pc[i].0
            == ps[i].watched_key() && pc[i].1)) by {
            assert(states[i + 1] == ps[i + 1]);
        }
        lemma_required_rebuild_over_builds(ps, pc);
        assert forall|i: int| 0 <= i <= n implies (#[trigger] states[i]).watched_key()
            == states[0].watched_key() by {
            lemma_watched_key_stays(states, calls, i);
        }
        let k = states[0].watched_key();
        assert(states[n as int] == states.last());
        assert(ps.last() == states[n - 1]);
        assert(ps[0] == states[0]);
        assert(states[(n - 1) + 1].spec_required() == (states[n - 1].spec_required() || (calls[n
            - 1].0 == states[n - 1].watched_key() && calls[n - 1].1)));
        assert(states[n - 1].watched_key() == k);
        if rebuilt_in(k, pc) {
            let i = choose|i: int| 0 <= i < pc.len() && (#[trigger] pc[i]).0 == k && pc[i].1;
            assert(calls[i] == pc[i]);
        }
        if rebuilt_in(k, calls) && !rebuilt_in(k, pc) {
            let i = choose|i: int| 0 <= i < calls.len() && (#[trigger] calls[i]).0 == k && calls[i].1;
            if i < n - 1 {
                assert(pc[i] == calls[i]);
            }
        }
        if calls[n - 1].0 == k && calls[n - 1].1 {
            assert(calls[n - 1].0 == k && calls[n - 1].1);
        }
    } else {
        assert(states.last() == states[0]);
        assert(!rebuilt_in(states[0].watched_key(), calls));
    }
}

proof fn lemma_watched_key_stays<D: DiskInterface>(
    states: Seq<TrackingRebuilder<D>>,
    calls: Seq<(KeyView, bool)>,
    i: int,
)
    requires
        states.len() == calls.len() + 1,
        0 <= i <= calls.len(),
        forall|j: int|
            0 <= j < calls.len() ==> (#[trigger] states[j + 1]).watched_key() == states[j].watched_key()
                && states[j + 1].spec_required() == (states[j].spec_required() || (calls[j].0
                == states[j].watched_key() && calls[j].1)),
    ensures
        states[i].watched_key() == states[0].watched_key(),
    decreases i,
{
    if i > 0 {
        lemma_watched_key_stays(states, calls, i - 1);
        assert(states[(i - 1) + 1].watched_key() == states[i - 1].watched_key());
    }
}

} // verus!
