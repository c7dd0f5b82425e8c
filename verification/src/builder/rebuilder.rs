//! Deciding whether a key must be rebuilt, from the modification times of its outputs and
//! inputs.
//!
//! A key is dirty when one of its outputs is missing or dirty, or when an input is dirty or newer
//! than its oldest output. A missing input is an error, unless an earlier build step marked it
//! dirty (a phony output may not exist). What is learnt of each key is cached, so the rebuilder
//! sees each file's state once, and a key's dirtiness is kept for the keys that depend on it.
use crate::builder::build_task::CommandTask;
use crate::builder::task::{key_paths_view, path_keys, Key, KeyPath, KeyView, Task, TaskVariant, TaskView, VariantView};
use vstd::prelude::*;
use vstd::utf8::{decode_utf8, valid_utf8};

verus! {

#[derive(Debug, Copy, Clone, Eq, PartialEq, Structural)]
pub enum Dirtiness {
    // We need clean to handle a very specific case, different from non-existence in the cache.
    // Invariant: It does not make any sense to request stat() on a Key::Multi, which means the
    // cache should always have an entry for a Key::Multi by the time it is encountered.
    // This requires us to mark the Key::Multi when it is the output instead of an input.
    // If we only have Dirty, we can't mark the cache when the key is actually not dirty because
    // the dirtiness conditions for the edge producing the Multi were not satisfied. In that case
    // we mark it as clean.
    Clean,
    Dirty,
    // This means we already looked and the file does not exist, unlike Option<Dirtiness> which
    // means we haven't looked yet.
    DoesNotExist,
    /// The file's modification time, in nanoseconds since the Unix epoch.
    Modified(i128),
}

/// Where the modification times of files come from.
pub trait DiskInterface {
    /// The modification time of the file at `path`, in nanoseconds since the Unix epoch; or
    /// [`DiskError::NotFound`] where there is no such file, or the I/O error that stopped the look.
    fn modified(&self, path: &[u8]) -> Result<i128, DiskError>;
}

/// A failed look at a file: it does not exist, or some other I/O error.
#[derive(Debug)]
pub enum DiskError {
    NotFound,
    Other(std::io::Error),
}

/// What the disk's answer `a` makes of a path: a time `t` gives `Modified(t)`, a missing file
/// `DoesNotExist`, and any other error is handed on.
pub open spec fn answer_dirtiness(a: Result<i128, DiskError>) -> Result<Dirtiness, std::io::Error> {
    match a {
        Ok(t) => Ok(Dirtiness::Modified(t)),
        Err(DiskError::NotFound) => Ok(Dirtiness::DoesNotExist),
        Err(DiskError::Other(e)) => Err(e),
    }
}

/// The dirtiness of a path from what the disk answered: a modification time `t` gives
/// `Modified(t)`, a missing file `DoesNotExist`, and any other error is handed on.
pub fn dirtiness_of(answer: Result<i128, DiskError>) -> (r: Result<Dirtiness, std::io::Error>)
    ensures
        r == answer_dirtiness(answer),
{
    match answer {
        Ok(t) => Ok(Dirtiness::Modified(t)),
        Err(DiskError::NotFound) => Ok(Dirtiness::DoesNotExist),
        Err(DiskError::Other(e)) => Err(e),
    }
}

/// No path is known as clean: only a multi-key, which has no file, can be.
pub open spec fn no_clean_paths(m: Map<KeyView, Dirtiness>) -> bool {
    forall|k: KeyView| #[trigger] m.contains_key(k) && k is Path ==> m[k] != Dirtiness::Clean
}

/// Looking a path up on disk, or marking a key, never makes a path known as clean.
pub proof fn law_paths_never_clean(m: Map<KeyView, Dirtiness>, k: KeyView, is_dirty: bool, d: Dirtiness)
    requires
        no_clean_paths(m),
    ensures
        no_clean_paths(mark_spec(m, k, is_dirty)),
        d is Modified || d is DoesNotExist ==> no_clean_paths(m.insert(k, d)),
{
    assert forall|j: KeyView| #[trigger] mark_spec(m, k, is_dirty).contains_key(j) && j is Path implies mark_spec(
        m,
        k,
        is_dirty,
    )[j] != Dirtiness::Clean by {
        if j != k {
            assert(m.contains_key(j));
        }
    }
    if d is Modified || d is DoesNotExist {
        assert forall|j: KeyView| #[trigger] m.insert(k, d).contains_key(j) && j is Path implies m.insert(k, d)[j]
            != Dirtiness::Clean by {
            if j != k {
                assert(m.contains_key(j));
            }
        }
    }
}

/// What is known of the dirtiness of keys.
pub trait DirtyCache {
    /// The dirtiness of each key looked at or marked so far.
    spec fn known(&self) -> Map<KeyView, Dirtiness>;

    /// The dirtiness of `key`: what is known of it, or else the state of its file, which is then
    /// known.
    fn dirtiness(&mut self, key: Key) -> (r: Result<Dirtiness, std::io::Error>)
        requires
            old(self).known().contains_key(key@) || key is Path,
        ensures
            old(self).known().submap_of(final(self).known()),
            old(self).known().contains_key(key@) ==> r == Ok::<Dirtiness, std::io::Error>(
                old(self).known()[key@],
            ) && final(self).known() == old(self).known(),
            !old(self).known().contains_key(key@) ==> match r {
                Ok(d) => (d is Modified || d is DoesNotExist) && final(self).known() == old(
                    self,
                ).known().insert(key@, d),
                Err(_) => final(self).known() == old(self).known(),
            },
            no_clean_paths(old(self).known()) ==> no_clean_paths(final(self).known()),
    ;

    /// What is known of `key`, without looking at any file.
    fn cached(&self, key: &Key) -> (r: Option<Dirtiness>)
        ensures
            r == (if self.known().contains_key(key@) {
                Some(self.known()[key@])
            } else {
                None::<Dirtiness>
            }),
    ;

    /// Records whether `key` is dirty. A path that is not dirty is left to its file.
    fn mark_dirty(&mut self, key: Key, is_dirty: bool)
        ensures
            final(self).known() == mark_spec(old(self).known(), key@, is_dirty),
            no_clean_paths(old(self).known()) ==> no_clean_paths(final(self).known()),
    ;
}

/// What marking `k` dirty or not does to what is known.
pub open spec fn mark_spec(m: Map<KeyView, Dirtiness>, k: KeyView, is_dirty: bool) -> Map<
    KeyView,
    Dirtiness,
> {
    if is_dirty || k is Multi {
        m.insert(
            k,
            if is_dirty {
                Dirtiness::Dirty
            } else {
                Dirtiness::Clean
            },
        )
    } else {
        m
    }
}

/// The bindings of a list of (key, dirtiness) entries, a later entry winning.
pub open spec fn dirt_map(s: Seq<(Key, Dirtiness)>) -> Map<KeyView, Dirtiness>
    decreases s.len(),
{
    if s.len() == 0 {
        Map::empty()
    } else {
        dirt_map(s.drop_last()).insert(s.last().0@, s.last().1)
    }
}

/// A cache of dirtiness in front of the file system.
pub struct DiskDirtyCache<Disk> where Disk: DiskInterface {
    // This Key abstraction is unnatural because most places don't care about multi-keys.
    dirty: Vec<(Key, Dirtiness)>,
    disk: Disk,
    asked: Ghost<Seq<(Seq<u8>, Result<i128, DiskError>)>>,
}

impl<Disk> DiskDirtyCache<Disk> where Disk: DiskInterface {
    /// Each look at the disk so far, in order: the path looked at and what the disk answered.
    pub closed spec fn disk_answers(&self) -> Seq<(Seq<u8>, Result<i128, DiskError>)> {
        self.asked@
    }

    pub fn new(disk: Disk) -> (r: Self)
        ensures
            r.known() == Map::<KeyView, Dirtiness>::empty(),
            no_clean_paths(r.known()),
            r.disk_answers() == Seq::<(Seq<u8>, Result<i128, DiskError>)>::empty(),
    {
        DiskDirtyCache { disk, dirty: Vec::new(), asked: Ghost(Seq::empty()) }
    }

    /// The disk behind the cache.
    pub fn disk(&self) -> &Disk {
        &self.disk
    }

    /// Asks the disk for the modification time of `path`, and records the answer.
    fn ask_disk(&mut self, path: &[u8]) -> (r: Result<i128, DiskError>)
        ensures
            final(self).disk_answers() == old(self).disk_answers().push((path@, r)),
            final(self).known() == old(self).known(),
    {
        let r = self.disk.modified(path);
        self.asked = Ghost(self.asked@.push((path@, r)));
        r
    }

    /// The index of the entry of `key`, if any.
    fn find(&self, key: &Key) -> (r: Option<usize>)
        ensures
            match r {
                Some(i) => i < self.dirty@.len() && self.dirty@[i as int].0@ == key@ && forall|k: int|
                    i < k < self.dirty@.len() ==> (#[trigger] self.dirty@[k]).0@ != key@,
                None => forall|k: int| 0 <= k < self.dirty@.len() ==> (#[trigger] self.dirty@[k]).0@ != key@,
            },
    {
        let mut i = self.dirty.len();
        while i > 0
            invariant
                i <= self.dirty@.len(),
                forall|k: int| i <= k < self.dirty@.len() ==> (#[trigger] self.dirty@[k]).0@ != key@,
            decreases i,
        {
            if self.dirty[i - 1].0.same(key) {
                return Some(i - 1);
            }
            i = i - 1;
        }
        None
    }

    fn record(&mut self, key: Key, d: Dirtiness)
        ensures
            final(self).known() == old(self).known().insert(key@, d),
            final(self).disk_answers() == old(self).disk_answers(),
    {
        let ghost before = self.dirty@;
        self.dirty.push((key, d));
        assert(self.dirty@.drop_last() == before);
    }
}

proof fn lemma_dirt_map_lookup(s: Seq<(Key, Dirtiness)>, i: int)
    requires
        0 <= i < s.len(),
        forall|k: int| i < k < s.len() ==> (#[trigger] s[k]).0@ != s[i].0@,
    ensures
        dirt_map(s).contains_key(s[i].0@),
        dirt_map(s)[s[i].0@] == s[i].1,
    decreases s.len(),
{
    if i < s.len() - 1 {
        lemma_dirt_map_lookup(s.drop_last(), i);
        assert(s[s.len() - 1].0@ != s[i].0@);
    }
}

proof fn lemma_dirt_map_absent(s: Seq<(Key, Dirtiness)>, k: KeyView)
    requires
        forall|j: int| 0 <= j < s.len() ==> (#[trigger] s[j]).0@ != k,
    ensures
        !dirt_map(s).contains_key(k),
    decreases s.len(),
{
    if s.len() > 0 {
        lemma_dirt_map_absent(s.drop_last(), k);
        assert(s[s.len() - 1].0@ != k);
    }
}

impl<Disk> DirtyCache for DiskDirtyCache<Disk> where Disk: DiskInterface {
    closed spec fn known(&self) -> Map<KeyView, Dirtiness> {
        dirt_map(self.dirty@)
    }

    fn cached(&self, key: &Key) -> (r: Option<Dirtiness>) {
        match self.find(key) {
            Some(i) => {
                proof {
                    lemma_dirt_map_lookup(self.dirty@, i as int);
                }
                Some(self.dirty[i].1)
            },
            None => {
                proof {
                    lemma_dirt_map_absent(self.dirty@, key@);
                }
                None
            },
        }
    }

    /// A key already known is not looked up; otherwise its path is asked of the disk, once, and
    /// the answer gives the result.
    fn dirtiness(&mut self, key: Key) -> (r: Result<Dirtiness, std::io::Error>)
        ensures
            old(self).known().contains_key(key@) ==> final(self).disk_answers() == old(
                self,
            ).disk_answers(),
            !old(self).known().contains_key(key@) ==> {
                let asked = final(self).disk_answers();
                &&& asked.len() == old(self).disk_answers().len() + 1
                &&& asked.drop_last() == old(self).disk_answers()
                &&& key@ == KeyView::Path(asked.last().0)
                &&& r == answer_dirtiness(asked.last().1)
            },
    {
        match self.find(&key) {
            Some(i) => {
                proof {
                    lemma_dirt_map_lookup(self.dirty@, i as int);
                }
                Ok(self.dirty[i].1)
            },
            None => {
                proof {
                    lemma_dirt_map_absent(self.dirty@, key@);
                }
                match &key {
                    Key::Path(p) => {
                        let answer = self.ask_disk(p.as_bytes());
                        proof {
                            assert(self.disk_answers().drop_last() =~= old(self).disk_answers());
                        }
                        let d = match dirtiness_of(answer) {
                            Ok(d) => d,
                            Err(e) => {
                                return Err(e);
                            },
                        };
                        self.record(key, d);
                        Ok(d)
                    },
                    Key::Multi(_) => unreached(),
                }
            },
        }
    }

    fn mark_dirty(&mut self, key: Key, is_dirty: bool)
        ensures
            final(self).disk_answers() == old(self).disk_answers(),
    {
        // Marking as Clean only makes sense for multi-keys. For single-keys that represent
        // filesystem resources, they are either dirty or need to be consulted in the cache in the
        // future.
        if is_dirty || key.is_multi() {
            self.record(
                key,
                if is_dirty {
                    Dirtiness::Dirty
                } else {
                    Dirtiness::Clean
                },
            );
        }
    }
}

// ---------------------------------------------------------------------------------------------
// The rebuilder.
// ---------------------------------------------------------------------------------------------
/// The older of two outputs: the earlier time when both exist; dirty otherwise.
pub open spec fn min_dirtiness(a: Dirtiness, b: Dirtiness) -> Dirtiness {
    match (a, b) {
        (Dirtiness::Modified(x), Dirtiness::Modified(y)) => Dirtiness::Modified(
            if x <= y {
                x
            } else {
                y
            },
        ),
        _ => Dirtiness::Dirty,
    }
}

/// The newer of two inputs: the later time when both have one; dirty otherwise.
pub open spec fn max_dirtiness(a: Dirtiness, b: Dirtiness) -> Dirtiness {
    match (a, b) {
        (Dirtiness::Modified(x), Dirtiness::Modified(y)) => Dirtiness::Modified(
            if x >= y {
                x
            } else {
                y
            },
        ),
        _ => Dirtiness::Dirty,
    }
}

/// The dirtiness of a key's outputs, folded from the first.
pub open spec fn outputs_dirtiness(ds: Seq<Dirtiness>) -> Dirtiness
    decreases ds.len(),
{
    if ds.len() <= 1 {
        ds[0]
    } else {
        min_dirtiness(outputs_dirtiness(ds.drop_last()), ds.last())
    }
}

/// The dirtiness of a key's inputs, folded from the first; none without inputs.
pub open spec fn inputs_dirtiness(ds: Seq<Dirtiness>) -> Option<Dirtiness>
    decreases ds.len(),
{
    if ds.len() == 0 {
        None
    } else {
        match inputs_dirtiness(ds.drop_last()) {
            None => Some(ds.last()),
            Some(a) => Some(max_dirtiness(a, ds.last())),
        }
    }
}

/// A key must be rebuilt when its outputs are not all there with a time, or when its inputs are
/// dirty or newer than its oldest output. Order-only dependencies play no part.
pub open spec fn needs_rebuild(outputs: Dirtiness, inputs: Option<Dirtiness>) -> bool {
    match outputs {
        Dirtiness::Modified(o) => match inputs {
            Some(Dirtiness::Dirty) => true,
            Some(Dirtiness::Modified(i)) => i > o,
            _ => false,
        },
        _ => true,
    }
}

/// The paths a key stands for.
pub open spec fn output_keys(k: KeyView) -> Seq<KeyView> {
    match k {
        KeyView::Path(p) => seq![KeyView::Path(p)],
        KeyView::Multi(ps) => path_keys(ps),
    }
}

/// The name a key goes by in messages: its (first) path.
pub open spec fn key_name(k: KeyView) -> Seq<u8> {
    match k {
        KeyView::Path(p) => p,
        KeyView::Multi(ps) => ps[0],
    }
}

pub open spec fn path_of(k: KeyView) -> Seq<u8> {
    match k {
        KeyView::Path(p) => p,
        KeyView::Multi(_) => Seq::empty(),
    }
}

pub open spec fn values_of(m: Map<KeyView, Dirtiness>, ks: Seq<KeyView>) -> Seq<Dirtiness> {
    Seq::new(ks.len(), |i: int| m[ks[i]])
}

pub open spec fn all_known(m: Map<KeyView, Dirtiness>, ks: Seq<KeyView>) -> bool {
    forall|i: int| 0 <= i < ks.len() ==> m.contains_key(#[trigger] ks[i])
}

/// The task depends on a multi-key alone: it retrieves that key.
pub open spec fn single_multi_dep(t: TaskView) -> bool {
    t.dependencies.len() == 1 && t.dependencies[0] is Multi
}

/// The index of the first of `deps` from `i` on that does not exist, or the number of them.
pub open spec fn first_missing(m: Map<KeyView, Dirtiness>, deps: Seq<KeyView>, i: nat) -> nat
    decreases deps.len() - i,
{
    if i >= deps.len() {
        deps.len()
    } else if m[deps[i as int]] == Dirtiness::DoesNotExist {
        i
    } else {
        first_missing(m, deps, i + 1)
    }
}

/// What the rebuilder decides with what is known `m`: whether `key` is dirty, or the path of an
/// input that is missing.
pub open spec fn rebuild_decision(m: Map<KeyView, Dirtiness>, key: KeyView, t: TaskView) -> Result<
    bool,
    Seq<u8>,
> {
    let od = outputs_dirtiness(values_of(m, output_keys(key)));
    if single_multi_dep(t) {
        Ok(needs_rebuild(od, Some(m[t.dependencies[0]])))
    } else {
        let j = first_missing(m, t.dependencies, 0);
        if j < t.dependencies.len() {
            Err(path_of(t.dependencies[j as int]))
        } else {
            Ok(needs_rebuild(od, inputs_dirtiness(values_of(m, t.dependencies))))
        }
    }
}

/// Every value has a time.
pub open spec fn all_timed(ds: Seq<Dirtiness>) -> bool {
    forall|k: int| 0 <= k < ds.len() ==> (#[trigger] ds[k]) is Modified
}

/// Folding inputs that all have times gives the newest time: one of theirs, and no earlier
/// than any.
proof fn lemma_inputs_newest(ds: Seq<Dirtiness>)
    requires
        ds.len() > 0,
        all_timed(ds),
    ensures
        inputs_dirtiness(ds) matches Some(Dirtiness::Modified(t)) && (forall|k: int|
            0 <= k < ds.len() ==> (#[trigger] ds[k])->Modified_0 <= t) && (exists|k: int|
            0 <= k < ds.len() && (#[trigger] ds[k])->Modified_0 == t),
    decreases ds.len(),
{
    let p = ds.drop_last();
    assert(ds.last() == ds[ds.len() - 1]);
    if p.len() > 0 {
        assert forall|k: int| 0 <= k < p.len() implies (#[trigger] p[k]) is Modified by {
            assert(p[k] == ds[k]);
        }
        lemma_inputs_newest(p);
        let t0 = inputs_dirtiness(p)->0->Modified_0;
        let k0 = choose|k: int| 0 <= k < p.len() && (#[trigger] p[k])->Modified_0 == t0;
        assert(p[k0] == ds[k0]);
        assert forall|k: int| 0 <= k < ds.len() implies (#[trigger] ds[k])->Modified_0
            <= inputs_dirtiness(ds)->0->Modified_0 by {
            if k < p.len() {
                assert(p[k] == ds[k]);
            }
        }
    } else {
        assert(inputs_dirtiness(p) is None);
    }
}

/// Folding outputs that all have times gives the oldest time: one of theirs, and no later than
/// any.
proof fn lemma_outputs_oldest(ds: Seq<Dirtiness>)
    requires
        ds.len() > 0,
        all_timed(ds),
    ensures
        outputs_dirtiness(ds) matches Dirtiness::Modified(t) && (forall|k: int|
            0 <= k < ds.len() ==> t <= (#[trigger] ds[k])->Modified_0) && (exists|k: int|
            0 <= k < ds.len() && (#[trigger] ds[k])->Modified_0 == t),
    decreases ds.len(),
{
    let p = ds.drop_last();
    assert(ds.last() == ds[ds.len() - 1]);
    if p.len() > 0 {
        assert forall|k: int| 0 <= k < p.len() implies (#[trigger] p[k]) is Modified by {
            assert(p[k] == ds[k]);
        }
        lemma_outputs_oldest(p);
        let t0 = outputs_dirtiness(p)->Modified_0;
        let k0 = choose|k: int| 0 <= k < p.len() && (#[trigger] p[k])->Modified_0 == t0;
        assert(p[k0] == ds[k0]);
        assert forall|k: int| 0 <= k < ds.len() implies outputs_dirtiness(ds)->Modified_0 <= (
        #[trigger] ds[k])->Modified_0 by {
            if k < p.len() {
                assert(p[k] == ds[k]);
            }
        }
    }
}

proof fn lemma_none_missing(m: Map<KeyView, Dirtiness>, deps: Seq<KeyView>, i: nat)
    requires
        i <= deps.len(),
        forall|k: int| 0 <= k < deps.len() ==> m[#[trigger] deps[k]] is Modified,
    ensures
        first_missing(m, deps, i) == deps.len(),
    decreases deps.len() - i,
{
    if i < deps.len() {
        lemma_none_missing(m, deps, i + 1);
    }
}

/// Where every output of `key` and every dependency of `t` has a modification time, `key` must
/// be rebuilt exactly when some dependency is newer than some output, that is, when the newest
/// input is newer than the oldest output.
pub proof fn law_rebuild_when_an_input_is_newer(m: Map<KeyView, Dirtiness>, key: KeyView, t: TaskView)
    requires
        !single_multi_dep(t),
        output_keys(key).len() > 0,
        forall|j: int| 0 <= j < output_keys(key).len() ==> m[#[trigger] output_keys(key)[j]] is Modified,
        forall|i: int| 0 <= i < t.dependencies.len() ==> m[#[trigger] t.dependencies[i]] is Modified,
    ensures
        rebuild_decision(m, key, t) == Ok::<bool, Seq<u8>>(
            exists|i: int, j: int|
                0 <= i < t.dependencies.len() && 0 <= j < output_keys(key).len() && m[t.dependencies[i]]->Modified_0
                    > m[output_keys(key)[j]]->Modified_0,
        ),
{
    let outs = values_of(m, output_keys(key));
    let ins = values_of(m, t.dependencies);
    lemma_none_missing(m, t.dependencies, 0);
    assert forall|k: int| 0 <= k < outs.len() implies (#[trigger] outs[k]) is Modified by {
        assert(outs[k] == m[output_keys(key)[k]]);
    }
    lemma_outputs_oldest(outs);
    let o = outputs_dirtiness(outs)->Modified_0;
    let newer = exists|i: int, j: int|
        0 <= i < t.dependencies.len() && 0 <= j < output_keys(key).len() && m[t.dependencies[i]]->Modified_0
            > m[output_keys(key)[j]]->Modified_0;
    let jo = choose|k: int| 0 <= k < outs.len() && (#[trigger] outs[k])->Modified_0 == o;
    if ins.len() == 0 {
        assert(inputs_dirtiness(ins) is None);
        assert(!newer);
    } else {
        assert forall|k: int| 0 <= k < ins.len() implies (#[trigger] ins[k]) is Modified by {
            assert(ins[k] == m[t.dependencies[k]]);
        }
        lemma_inputs_newest(ins);
        let n = inputs_dirtiness(ins)->0->Modified_0;
        let ki = choose|k: int| 0 <= k < ins.len() && (#[trigger] ins[k])->Modified_0 == n;
        if n > o {
            assert(ins[ki] == m[t.dependencies[ki]]);
            assert(outs[jo] == m[output_keys(key)[jo]]);
            assert(newer);
        } else if newer {
            let (i, j) = choose|i: int, j: int|
                0 <= i < t.dependencies.len() && 0 <= j < output_keys(key).len() && m[t.dependencies[i]]->Modified_0
                    > m[output_keys(key)[j]]->Modified_0;
            assert(ins[i] == m[t.dependencies[i]]);
            assert(outs[j] == m[output_keys(key)[j]]);
            assert(false);
        }
    }
}

/// `m` knows every key the rebuilder looks at for `key` and `t`: the outputs, and the inputs up
/// to the first missing one.
pub open spec fn looked_up(m: Map<KeyView, Dirtiness>, key: KeyView, t: TaskView) -> bool {
    &&& all_known(m, output_keys(key))
    &&& if single_multi_dep(t) {
        m.contains_key(t.dependencies[0])
    } else {
        forall|i: int|
            0 <= i < t.dependencies.len() && i <= first_missing(m, t.dependencies, 0)
                ==> m.contains_key(#[trigger] t.dependencies[i])
    }
}

#[derive(Debug)]
pub enum RebuilderError {
    Utf8Error(std::string::FromUtf8Error),
    MissingInput { output: String, input: String },
    IOError(std::io::Error),
}

/// Whether `e` reports that `input`, needed by `output`, is missing.
pub open spec fn missing_input_error(e: RebuilderError, output: Seq<u8>, input: Seq<u8>) -> bool {
    if !valid_utf8(output) || !valid_utf8(input) {
        e is Utf8Error
    } else {
        e matches RebuilderError::MissingInput { output: o, input: i } && o@ == decode_utf8(output)
            && i@ == decode_utf8(input)
    }
}

/// The outcome of a build of `key` with task `t`, what was known before (`old_m`), what was
/// known once every file was looked at (`mid`) and what is known after (`fin`).
pub open spec fn build_result(
    old_m: Map<KeyView, Dirtiness>,
    mid: Map<KeyView, Dirtiness>,
    fin: Map<KeyView, Dirtiness>,
    key: KeyView,
    t: TaskView,
    r: Result<Option<CommandTask>, RebuilderError>,
) -> bool {
    &&& old_m.submap_of(mid)
    &&& looked_up(mid, key, t)
    &&& match rebuild_decision(mid, key, t) {
        Ok(dirty) => fin == mark_spec(mid, key, dirty) && (match r {
            Ok(Some(c)) => dirty && (t.variant matches VariantView::Command(s) && c@ == (key, s)),
            Ok(None) => !(dirty && t.variant is Command),
            Err(_) => false,
        }),
        Err(input) => fin == mid && (r matches Err(e) && missing_input_error(e, key_name(key), input)),
    }
}

/// A task's order-only dependencies never affect what a build does: two tasks with the same
/// dependencies and the same variant are ready together, and build alike.
pub proof fn law_order_dependencies_ignored(
    old_m: Map<KeyView, Dirtiness>,
    mid: Map<KeyView, Dirtiness>,
    fin: Map<KeyView, Dirtiness>,
    key: KeyView,
    t1: TaskView,
    t2: TaskView,
    r: Result<Option<CommandTask>, RebuilderError>,
)
    requires
        t1.dependencies == t2.dependencies,
        t1.variant == t2.variant,
    ensures
        build_ready(old_m, key, t1) == build_ready(old_m, key, t2),
        build_result(old_m, mid, fin, key, t1, r) == build_result(old_m, mid, fin, key, t2, r),
{
    assert(single_multi_dep(t1) == single_multi_dep(t2));
    assert(looked_up(mid, key, t1) == looked_up(mid, key, t2));
    assert(rebuild_decision(mid, key, t1) == rebuild_decision(mid, key, t2));
}

/// What `build` needs of its arguments: a multi-key has several paths; a task that retrieves a
/// multi-key does only that, once the multi-key's dirtiness is known; other tasks depend on
/// paths.
pub open spec fn build_ready(m: Map<KeyView, Dirtiness>, key: KeyView, t: TaskView) -> bool {
    &&& key matches KeyView::Multi(ps) ==> ps.len() >= 2
    &&& single_multi_dep(t) ==> t.variant is Retrieve && m.contains_key(t.dependencies[0])
        && m[t.dependencies[0]] != Dirtiness::DoesNotExist
    &&& !single_multi_dep(t) ==> forall|i: int|
        0 <= i < t.dependencies.len() ==> (#[trigger] t.dependencies[i]) is Path
}

/// What looking at the inputs of `t` gives with what is known `m`: the dirtiness of a multi-key
/// that `t` retrieves; or, for path inputs, each known up to the first missing one, and their
/// folded dirtiness when none is missing, or else the error for the missing one.
pub open spec fn inputs_outcome(
    m: Map<KeyView, Dirtiness>,
    key: KeyView,
    t: TaskView,
    r: Result<Option<Dirtiness>, RebuilderError>,
) -> bool {
    let deps = t.dependencies;
    if single_multi_dep(t) {
        m.contains_key(deps[0]) && r == Ok::<Option<Dirtiness>, RebuilderError>(Some(m[deps[0]]))
    } else {
        &&& forall|i: int|
            0 <= i < deps.len() && i <= first_missing(m, deps, 0) ==> m.contains_key(
                #[trigger] deps[i],
            )
        &&& match r {
            Ok(x) => first_missing(m, deps, 0) == deps.len() && x == inputs_dirtiness(
                values_of(m, deps),
            ),
            Err(e) => first_missing(m, deps, 0) < deps.len() && missing_input_error(
                e,
                key_name(key),
                path_of(deps[first_missing(m, deps, 0) as int]),
            ),
        }
    }
}

proof fn lemma_values_stable(m1: Map<KeyView, Dirtiness>, m2: Map<KeyView, Dirtiness>, ks: Seq<KeyView>)
    requires
        m1.submap_of(m2),
        all_known(m1, ks),
    ensures
        all_known(m2, ks),
        values_of(m2, ks) == values_of(m1, ks),
{
    assert forall|i: int| 0 <= i < ks.len() implies m2.contains_key(#[trigger] ks[i]) && m2[ks[i]]
        == m1[ks[i]] by {
        assert(m1.contains_key(ks[i]));
    }
    assert(values_of(m2, ks) =~= values_of(m1, ks));
}

proof fn lemma_submap_trans(a: Map<KeyView, Dirtiness>, b: Map<KeyView, Dirtiness>, c: Map<KeyView, Dirtiness>)
    requires
        a.submap_of(b),
        b.submap_of(c),
    ensures
        a.submap_of(c),
{
    vstd::map_lib::lemma_submap_of_trans(a, b, c);
}

proof fn lemma_first_missing_skip(m: Map<KeyView, Dirtiness>, deps: Seq<KeyView>, i: nat, j: nat)
    requires
        i <= j <= deps.len(),
        forall|k: int| i <= k < j ==> m[#[trigger] deps[k]] != Dirtiness::DoesNotExist,
    ensures
        first_missing(m, deps, i) == first_missing(m, deps, j),
    decreases j - i,
{
    if i < j {
        lemma_first_missing_skip(m, deps, i + 1, j);
    }
}

fn min_dirtiness_exec(a: Dirtiness, b: Dirtiness) -> (r: Dirtiness)
    ensures
        r == min_dirtiness(a, b),
{
    match (a, b) {
        (Dirtiness::Modified(x), Dirtiness::Modified(y)) => Dirtiness::Modified(
            if x <= y {
                x
            } else {
                y
            },
        ),
        _ => Dirtiness::Dirty,
    }
}

fn max_dirtiness_exec(a: Dirtiness, b: Dirtiness) -> (r: Dirtiness)
    ensures
        r == max_dirtiness(a, b),
{
    match (a, b) {
        (Dirtiness::Modified(x), Dirtiness::Modified(y)) => Dirtiness::Modified(
            if x >= y {
                x
            } else {
                y
            },
        ),
        _ => Dirtiness::Dirty,
    }
}

/// Whether a key must be rebuilt, given the dirtiness of its outputs and inputs.
pub fn needs_rebuild_exec(outputs: Dirtiness, inputs: Option<Dirtiness>) -> (r: bool)
    ensures
        r == needs_rebuild(outputs, inputs),
{
    match outputs {
        Dirtiness::Modified(output_mtime) => match inputs {
            Some(Dirtiness::Dirty) => true,
            Some(Dirtiness::Modified(input_mtime)) => input_mtime > output_mtime,
            _ => false,
        },
        _ => true,
    }
}

/// Decides whether keys must be rebuilt, caching what it learns of each file.
#[derive(Debug)]
pub struct CachingMTimeRebuilder<Cache> where Cache: DirtyCache {
    mtime_state: Cache,
}

impl<Cache> CachingMTimeRebuilder<Cache> where Cache: DirtyCache {
    /// What the rebuilder knows of each key.
    pub closed spec fn known(&self) -> Map<KeyView, Dirtiness> {
        self.mtime_state.known()
    }

    pub fn new(mtime_state: Cache) -> (r: Self)
        ensures
            r.known() == mtime_state.known(),
    {
        Self { mtime_state }
    }

    /// Looks at the outputs of `key`.
    fn outputs_dirty(&mut self, key: &Key) -> (r: Result<Dirtiness, std::io::Error>)
        requires
            key@ matches KeyView::Multi(ps) ==> ps.len() >= 1,
        ensures
            old(self).known().submap_of(final(self).known()),
            all_known(old(self).known(), output_keys(key@)) ==> r is Ok,
            r matches Ok(d) ==> all_known(final(self).known(), output_keys(key@)) && d
                == outputs_dirtiness(values_of(final(self).known(), output_keys(key@))),
            no_clean_paths(old(self).known()) ==> no_clean_paths(final(self).known()),
    {
        match key {
            Key::Path(_) => {
                let d = match self.mtime_state.dirtiness(key.copy()) {
                    Ok(d) => d,
                    Err(e) => {
                        return Err(e);
                    },
                };
                proof {
                    assert(values_of(self.known(), output_keys(key@)) =~= seq![d]);
                }
                Ok(d)
            },
            Key::Multi(keys) => {
                let ghost outs = output_keys(key@);
                let mut so_far = Dirtiness::Dirty;
                let mut i: usize = 0;
                while i < keys.0.len()
                    invariant
                        i <= keys.0@.len(),
                        outs == path_keys(key_paths_view(keys.0@)),
                        outs == output_keys(key@),
                        old(self).known().submap_of(self.known()),
                        all_known(self.known(), outs.take(i as int)),
                        no_clean_paths(old(self).known()) ==> no_clean_paths(self.known()),
                        i >= 1 ==> so_far == outputs_dirtiness(
                            values_of(self.known(), outs.take(i as int)),
                        ),
                    decreases keys.0@.len() - i,
                {
                    let ghost before = self.known();
                    let k = Key::Path(keys.0[i].copy());
                    assert(k@ == outs[i as int]);
                    let d = match self.mtime_state.dirtiness(k) {
                        Ok(d) => d,
                        Err(e) => {
                            proof {
                                if all_known(old(self).known(), outs) {
                                    assert(old(self).known().contains_key(outs[i as int]));
                                    assert(before.contains_key(outs[i as int]));
                                }
                            }
                            return Err(e);
                        },
                    };
                    proof {
                        lemma_submap_trans(old(self).known(), before, self.known());
                        lemma_values_stable(before, self.known(), outs.take(i as int));
                        let t = outs.take(i + 1);
                        assert(t.drop_last() =~= outs.take(i as int));
                        assert(values_of(self.known(), t).drop_last() =~= values_of(
                            self.known(),
                            outs.take(i as int),
                        ));
                        assert forall|j: int| 0 <= j < t.len() implies self.known().contains_key(
                            #[trigger] t[j],
                        ) by {
                            if j < i {
                                assert(t[j] == outs.take(i as int)[j]);
                            }
                        }
                    }
                    so_far = if i == 0 {
                        d
                    } else {
                        min_dirtiness_exec(so_far, d)
                    };
                    i = i + 1;
                }
                assert(outs.take(keys.0@.len() as int) =~= outs);
                Ok(so_far)
            },
        }
    }

    /// Looks at the inputs of `task`, up to the first missing one, which is an error.
    fn inputs_dirty(&mut self, key: &Key, task: &Task) -> (r: Result<Option<Dirtiness>, RebuilderError>)
        requires
            build_ready(old(self).known(), key@, task@),
        ensures
            old(self).known().submap_of(final(self).known()),
            all_known(old(self).known(), task@.dependencies) ==> !(r matches Err(
                RebuilderError::IOError(_),
            )),
            !(r matches Err(RebuilderError::IOError(_))) ==> inputs_outcome(
                final(self).known(),
                key@,
                task@,
                r,
            ),
            no_clean_paths(old(self).known()) ==> no_clean_paths(final(self).known()),
    {
        let dependencies = task.dependencies();
        let ghost deps = task@.dependencies;
        assert(deps == crate::builder::task::keys_view(dependencies@));
        // Dependencies can either be a single Multi key or a list of Singles.
        if dependencies.len() == 1 && dependencies[0].is_multi() {
            let d = match self.mtime_state.dirtiness(dependencies[0].copy()) {
                Ok(d) => d,
                Err(e) => {
                    return Err(RebuilderError::IOError(e));
                },
            };
            return Ok(Some(d));
        }
        let mut so_far: Option<Dirtiness> = None;
        let mut i: usize = 0;
        // Every input is looked at, in order, until one is missing.
        while i < dependencies.len()
            invariant
                i <= dependencies@.len(),
                deps == crate::builder::task::keys_view(dependencies@),
                deps == task@.dependencies,
                key@ matches KeyView::Multi(ps) ==> ps.len() >= 2,
                !single_multi_dep(task@),
                forall|k: int| 0 <= k < deps.len() ==> (#[trigger] deps[k]) is Path,
                old(self).known().submap_of(self.known()),
                all_known(self.known(), deps.take(i as int)),
                no_clean_paths(old(self).known()) ==> no_clean_paths(self.known()),
                forall|k: int| 0 <= k < i ==> self.known()[#[trigger] deps[k]] != Dirtiness::DoesNotExist,
                so_far == inputs_dirtiness(values_of(self.known(), deps.take(i as int))),
            decreases dependencies@.len() - i,
        {
            let ghost before = self.known();
            assert(deps[i as int] is Path);
            let dep = dependencies[i].copy();
            let d = match self.mtime_state.dirtiness(dep) {
                Ok(d) => d,
                Err(e) => {
                    proof {
                        if all_known(old(self).known(), deps) {
                            assert(old(self).known().contains_key(deps[i as int]));
                            assert(before.contains_key(deps[i as int]));
                        }
                    }
                    return Err(RebuilderError::IOError(e));
                },
            };
            proof {
                lemma_submap_trans(old(self).known(), before, self.known());
                lemma_values_stable(before, self.known(), deps.take(i as int));
                assert forall|k: int| 0 <= k < i implies self.known()[#[trigger] deps[k]]
                    != Dirtiness::DoesNotExist by {
                    assert(deps.take(i as int)[k] == deps[k]);
                }
            }
            if d == Dirtiness::DoesNotExist {
                proof {
                    assert(self.known()[deps[i as int]] == Dirtiness::DoesNotExist);
                    assert(first_missing(self.known(), deps, i as nat) == i);
                    lemma_first_missing_skip(self.known(), deps, 0, i as nat);
                    assert forall|k: int|
                        0 <= k < deps.len() && k <= first_missing(self.known(), deps, 0)
                            implies self.known().contains_key(#[trigger] deps[k]) by {
                        if k < i {
                            assert(deps.take(i as int)[k] == deps[k]);
                        }
                    }
                }
                let err = self.missing_input(key, &dependencies[i]);
                proof {
                    assert(path_of(dependencies@[i as int]@) == path_of(deps[i as int]));
                }
                return Err(err);
            }
            proof {
                let t = deps.take(i + 1);
                assert(t.drop_last() =~= deps.take(i as int));
                assert(values_of(self.known(), t).drop_last() =~= values_of(
                    self.known(),
                    deps.take(i as int),
                ));
                assert forall|j: int| 0 <= j < t.len() implies self.known().contains_key(
                    #[trigger] t[j],
                ) by {
                    if j < i {
                        assert(t[j] == deps.take(i as int)[j]);
                    }
                }
            }
            so_far = match so_far {
                None => Some(d),
                Some(prev) => Some(max_dirtiness_exec(prev, d)),
            };
            i = i + 1;
        }
        proof {
            assert(deps.take(deps.len() as int) =~= deps);
            lemma_first_missing_skip(self.known(), deps, 0, deps.len());
        }
        Ok(so_far)
    }

    /// The error for `input`, needed by `key`, which is missing.
    fn missing_input(&self, key: &Key, input: &Key) -> (r: RebuilderError)
        requires
            key@ matches KeyView::Multi(ps) ==> ps.len() >= 1,
            input is Path,
        ensures
            missing_input_error(r, key_name(key@), path_of(input@)),
    {
        let output_bytes = match key {
            Key::Path(p) => p.0.clone(),
            Key::Multi(keys) => keys.0[0].0.clone(),
        };
        let output = match crate::parse::string_from_utf8(output_bytes) {
            Ok(s) => s,
            Err(e) => {
                return RebuilderError::Utf8Error(e);
            },
        };
        let input_bytes = match input {
            Key::Path(p) => p.0.clone(),
            Key::Multi(_) => unreached(),
        };
        match crate::parse::string_from_utf8(input_bytes) {
            Ok(input) => RebuilderError::MissingInput { output, input },
            Err(e) => RebuilderError::Utf8Error(e),
        }
    }

    /// Whether `key` and `task` can be handed to `build`: a multi-key has at least two paths;
    /// a task that retrieves a single multi-key finds it known, and not missing; any other task
    /// depends on paths only.
    pub fn can_build(&self, key: &Key, task: &Task) -> (r: bool)
        ensures
            r == build_ready(self.known(), key@, task@),
    {
        if let Key::Multi(m) = key {
            if m.0.len() < 2 {
                return false;
            }
        }
        let deps = task.dependencies();
        if deps.len() == 1 && deps[0].is_multi() {
            if !task.is_retrieve() {
                return false;
            }
            return match self.mtime_state.cached(&deps[0]) {
                Some(Dirtiness::DoesNotExist) => false,
                Some(_) => true,
                None => false,
            };
        }
        assert(!single_multi_dep(task@)) by {
            if deps@.len() == 1 {
                assert(task@.dependencies[0] == deps@[0]@);
            }
        }
        let mut i: usize = 0;
        while i < deps.len()
            invariant
                i <= deps@.len(),
                deps@ == task.dependencies@,
                !single_multi_dep(task@),
                forall|k: int| 0 <= k < i ==> (#[trigger] task@.dependencies[k]) is Path,
            decreases deps@.len() - i,
        {
            if !deps[i].is_path() {
                assert(task@.dependencies[i as int] == deps@[i as int]@);
                return false;
            }
            assert(task@.dependencies[i as int] == deps@[i as int]@);
            i = i + 1;
        }
        true
    }

    /// Decides whether `key` must be rebuilt with `task`: the command to run, if any.
    ///
    /// The outputs and then the inputs are looked at (through the cache), and `key`'s dirtiness is
    /// recorded. A missing input that no earlier step marked dirty is an error.
    pub fn build(&mut self, key: Key, task: &Task) -> (r: Result<Option<CommandTask>, RebuilderError>)
        requires
            build_ready(old(self).known(), key@, task@),
        ensures
            all_known(old(self).known(), output_keys(key@)) && all_known(old(self).known(), task@.dependencies)
                ==> !(r matches Err(RebuilderError::IOError(_))),
            r matches Err(RebuilderError::IOError(_)) ==> old(self).known().submap_of(
                final(self).known(),
            ),
            !(r matches Err(RebuilderError::IOError(_))) ==> exists|mid: Map<KeyView, Dirtiness>|
                #[trigger] build_result(
                    old(self).known(),
                    mid,
                    final(self).known(),
                    key@,
                    task@,
                    r,
                ),
        no_clean_paths(old(self).known()) ==> no_clean_paths(final(self).known()),
    {
        let ghost k0 = old(self).known();
        let outputs_dirty = match self.outputs_dirty(&key) {
            Ok(d) => d,
            Err(e) => {
                return Err(RebuilderError::IOError(e));
            },
        };
        let ghost after_outputs = self.known();
        proof {
            if all_known(k0, task@.dependencies) {
                assert forall|j: int| 0 <= j < task@.dependencies.len() implies after_outputs.contains_key(
                    #[trigger] task@.dependencies[j],
                ) by {
                    assert(k0.contains_key(task@.dependencies[j]));
                }
            }
            if single_multi_dep(task@) {
                assert(after_outputs.contains_key(task@.dependencies[0]));
            }
        }
        // Iterate inputs to make sure they exist, regardless of what outputs were determined.
        let inputs = self.inputs_dirty(&key, task);
        let ghost mid = self.known();
        proof {
            lemma_submap_trans(k0, after_outputs, mid);
            lemma_values_stable(after_outputs, mid, output_keys(key@));
        }
        let inputs_dirty = match inputs {
            Ok(x) => x,
            Err(e) => {
                proof {
                    if !(e is IOError) {
                        assert(build_result(k0, mid, self.known(), key@, task@, Err(e)));
                    }
                }
                return Err(e);
            },
        };
        let dirty = needs_rebuild_exec(outputs_dirty, inputs_dirty);
        self.mtime_state.mark_dirty(key.copy(), dirty);
        let r = if dirty && task.is_command() {
            let command = match task.command() {
                Some(c) => c.clone(),
                None => unreached(),
            };
            Some(CommandTask::new(key, command))
        } else {
            None
        };
        proof {
            assert(build_result(k0, mid, self.known(), key@, task@, Ok(r)));
        }
        Ok(r)
    }
}

/// A rebuilder that reads modification times from `disk`.
pub fn caching_mtime_rebuilder<D: DiskInterface>(disk: D) -> (r: CachingMTimeRebuilder<
    DiskDirtyCache<D>,
>)
    ensures
        r.known() == Map::<KeyView, Dirtiness>::empty(),
{
    CachingMTimeRebuilder::new(DiskDirtyCache::new(disk))
}

} // verus!
