//! Keys and tasks of an earlier form: a key is a path or a list of keys.
//!
//! As in [`crate::builder::task`], a build edge with one output gives a task for that path, and
//! one with several gives a task for the list of all of them (in byte order), which each output
//! retrieves.
use crate::builder::task::{clone_paths, sort_paths, sort_paths_exec};
use crate::parse::repr::{builds_view, paths_view, Action, ActionView, Build, BuildView, Description};
use vstd::prelude::*;

verus! {

#[derive(Debug, PartialOrd, Ord, Hash, Eq, PartialEq)]
pub enum Key {
    Single(Vec<u8>),
    Multi(Vec<Key>),
}

pub enum SymKey {
    Single(Seq<u8>),
    Multi(Seq<SymKey>),
}

pub open spec fn sym_key(k: Key) -> SymKey
    decreases k,
{
    match k {
        Key::Single(v) => SymKey::Single(v@),
        Key::Multi(ks) => SymKey::Multi(
            Seq::new(ks@.len(), |i: int| if 0 <= i < ks@.len() { sym_key(ks@[i]) } else { SymKey::Single(Seq::empty()) }),
        ),
    }
}


pub open spec fn sym_keys(v: Seq<Key>) -> Seq<SymKey> {
    Seq::new(v.len(), |i: int| sym_key(v[i]))
}

/// A list key stands for the keys it lists.
pub proof fn lemma_sym_key_multi(ks: Vec<Key>)
    ensures
        sym_key(Key::Multi(ks)) == SymKey::Multi(sym_keys(ks@)),
{
    assert(sym_key(Key::Multi(ks))->Multi_0 =~= sym_keys(ks@));
}

impl Key {
    pub fn is_single(&self) -> (r: bool)
        ensures
            r == self is Single,
    {
        match self {
            Key::Single(_) => true,
            Key::Multi(_) => false,
        }
    }

    pub fn is_multi(&self) -> (r: bool)
        ensures
            r == self is Multi,
    {
        match self {
            Key::Single(_) => false,
            Key::Multi(_) => true,
        }
    }

    /// The path of a single key.
    pub fn as_bytes(&self) -> (r: &[u8])
        requires
            self is Single,
        ensures
            r@ == self->Single_0@,
    {
        match self {
            Key::Single(bytes) => bytes.as_slice(),
            Key::Multi(_) => unreached(),
        }
    }

    /// A copy of this key.
    pub fn copy(&self) -> (r: Key)
        ensures
            sym_key(r) == sym_key(*self),
        decreases self,
    {
        match self {
            Key::Single(v) => Key::Single(v.clone()),
            Key::Multi(ks) => {
                let mut v: Vec<Key> = Vec::new();
                let mut i: usize = 0;
                while i < ks.len()
                    invariant
                        i <= ks@.len(),
                        *self == Key::Multi(*ks),
                        v@.len() == i,
                        forall|k: int| 0 <= k < i ==> sym_key(#[trigger] v@[k]) == sym_key(ks@[k]),
                    decreases ks@.len() - i,
                {
                    proof {
                        assert(*self == Key::Multi(*ks));
                        assert(decreases_to!(*self => (*self)->Multi_0));
                        assert(decreases_to!(*ks => ks@));
                        assert(decreases_to!(ks@ => ks@[i as int]));
                        assert(decreases_to!(*self => ks@[i as int]));
                    }
                    let c = ks[i].copy();
                    v.push(c);
                    i = i + 1;
                }
                let ghost vv = v;
                let r = Key::Multi(v);
                proof {
                    assert(sym_keys(vv@) =~= sym_keys(ks@));
                    lemma_sym_key_multi(vv);
                    lemma_sym_key_multi(*ks);
                }
                r
            },
        }
    }

    /// Whether two keys are the same.
    pub fn same(&self, other: &Key) -> (r: bool)
        ensures
            r == (sym_key(*self) == sym_key(*other)),
        decreases self,
    {
        match (self, other) {
            (Key::Single(a), Key::Single(b)) => crate::parse::lexer::bytes_eq(a.as_slice(), b.as_slice()),
            (Key::Multi(a), Key::Multi(b)) => {
                proof {
                    lemma_sym_key_multi(*a);
                    lemma_sym_key_multi(*b);
                }
                if a.len() != b.len() {
                    assert(sym_keys(a@).len() != sym_keys(b@).len());
                    return false;
                }
                let mut i: usize = 0;
                while i < a.len()
                    invariant
                        i <= a@.len(),
                        *self == Key::Multi(*a),
                        a@.len() == b@.len(),
                        sym_key(*self) == SymKey::Multi(sym_keys(a@)),
                        sym_key(*other) == SymKey::Multi(sym_keys(b@)),
                        forall|k: int| 0 <= k < i ==> sym_key(a@[k]) == sym_key(b@[k]),
                    decreases a@.len() - i,
                {
                    proof {
                        assert(*self == Key::Multi(*a));
                        assert(decreases_to!(*self => *a));
                        assert(decreases_to!(*a => a@));
                        assert(decreases_to!(a@ => a@[i as int]));
                        assert(decreases_to!(*self => a@[i as int]));
                    }
                    if !a[i].same(&b[i]) {
                        assert(sym_keys(a@)[i as int] != sym_keys(b@)[i as int]);
                        return false;
                    }
                    i = i + 1;
                }
                assert(sym_keys(a@) =~= sym_keys(b@));
                true
            },
            _ => false,
        }
    }
}

#[derive(Debug)]
pub enum TaskVariant {
    Source,
    // Indicates that this key just depends on another, usually Multi key.
    // Also used to map Phony.
    Retrieve,
    Command(String),
}

pub enum SymVariant {
    Source,
    Retrieve,
    Command(Seq<char>),
}

#[derive(Debug)]
pub struct Task {
    pub dependencies: Vec<Key>,
    pub order_dependencies: Vec<Key>,
    pub variant: TaskVariant,
}

pub struct SymTask {
    pub dependencies: Seq<SymKey>,
    pub order_dependencies: Seq<SymKey>,
    pub variant: SymVariant,
}

impl View for Task {
    type V = SymTask;

    open spec fn view(&self) -> SymTask {
        SymTask {
            dependencies: sym_keys(self.dependencies@),
            order_dependencies: sym_keys(self.order_dependencies@),
            variant: match self.variant {
                TaskVariant::Source => SymVariant::Source,
                TaskVariant::Retrieve => SymVariant::Retrieve,
                TaskVariant::Command(s) => SymVariant::Command(s@),
            },
        }
    }
}

impl Task {
    pub fn dependencies(&self) -> (r: &[Key])
        ensures
            r@ == self.dependencies@,
    {
        self.dependencies.as_slice()
    }

    pub fn order_dependencies(&self) -> (r: &[Key])
        ensures
            r@ == self.order_dependencies@,
    {
        self.order_dependencies.as_slice()
    }

    pub fn is_retrieve(&self) -> (r: bool)
        ensures
            r == self.variant is Retrieve,
    {
        match self.variant {
            TaskVariant::Retrieve => true,
            _ => false,
        }
    }

    pub fn is_command(&self) -> (r: bool)
        ensures
            r == self.variant is Command,
    {
        match self.variant {
            TaskVariant::Command(_) => true,
            _ => false,
        }
    }

    pub fn command(&self) -> (r: Option<&String>)
        ensures
            match self.variant {
                TaskVariant::Command(s) => r == Some(&s),
                _ => r is None,
            },
    {
        match self.variant {
            TaskVariant::Command(ref s) => Some(s),
            _ => None,
        }
    }
}

/// The map that a list of (key, task) entries gives, a later entry winning.
pub open spec fn sym_entries_map(s: Seq<(Key, Task)>) -> Map<SymKey, SymTask>
    decreases s.len(),
{
    if s.len() == 0 {
        Map::empty()
    } else {
        sym_entries_map(s.drop_last()).insert(sym_key(s.last().0), s.last().1@)
    }
}

/// No key occurs twice.
pub open spec fn sym_keys_distinct(s: Seq<(Key, Task)>) -> bool {
    forall|i: int, j: int|
        0 <= i < j < s.len() ==> sym_key((#[trigger] s[i]).0) != sym_key((#[trigger] s[j]).0)
}

#[derive(Debug)]
pub struct Tasks {
    map: Vec<(Key, Task)>,
}

impl Tasks {
    pub closed spec fn entries(&self) -> Seq<(Key, Task)> {
        self.map@
    }

    pub open spec fn view(&self) -> Map<SymKey, SymTask> {
        sym_entries_map(self.entries())
    }

    pub open spec fn wf(&self) -> bool {
        sym_keys_distinct(self.entries())
    }

    /// The task of `key`, if any.
    pub fn task(&self, key: &Key) -> (r: Option<&Task>)
        requires
            self.wf(),
        ensures
            match r {
                Some(t) => self.view().contains_key(sym_key(*key)) && t@ == self.view()[sym_key(*key)],
                None => !self.view().contains_key(sym_key(*key)),
            },
    {
        let mut i: usize = 0;
        while i < self.map.len()
            invariant
                i <= self.map@.len(),
                sym_keys_distinct(self.map@),
                forall|k: int| 0 <= k < i ==> sym_key((#[trigger] self.map@[k]).0) != sym_key(*key),
            decreases self.map@.len() - i,
        {
            if self.map[i].0.same(key) {
                proof {
                    lemma_sym_map_at(self.map@, i as int);
                }
                return Some(&self.map[i].1);
            }
            i = i + 1;
        }
        proof {
            lemma_sym_map_absent(self.map@, sym_key(*key));
        }
        None
    }

    /// All entries: each key once, with its task.
    pub fn all_tasks(&self) -> (r: &Vec<(Key, Task)>)
        requires
            self.wf(),
        ensures
            sym_keys_distinct(r@),
            sym_entries_map(r@) == self.view(),
    {
        &self.map
    }

    /// Sets the task of `key`, replacing an earlier one.
    fn insert(&mut self, key: Key, task: Task)
        requires
            old(self).wf(),
        ensures
            final(self).wf(),
            final(self).view() == old(self).view().insert(sym_key(key), task@),
    {
        let mut i: usize = 0;
        while i < self.map.len()
            invariant
                i <= self.map@.len(),
                self.map@ == old(self).map@,
                sym_keys_distinct(self.map@),
                forall|k: int| 0 <= k < i ==> sym_key((#[trigger] self.map@[k]).0) != sym_key(key),
            decreases self.map@.len() - i,
        {
            if self.map[i].0.same(&key) {
                let ghost old_map = self.map@;
                let ghost kv = sym_key(key);
                self.map.set(i, (key, task));
                proof {
                    lemma_sym_map_update(old_map, i as int, self.map@[i as int]);
                    assert forall|a: int, b: int| 0 <= a < b < self.map@.len() implies sym_key(
                        (#[trigger] self.map@[a]).0,
                    ) != sym_key((#[trigger] self.map@[b]).0) by {
                        if a != i && b != i {
                            assert(self.map@[a] == old_map[a] && self.map@[b] == old_map[b]);
                        } else if a == i {
                            assert(sym_key(old_map[a].0) == kv && self.map@[b] == old_map[b]);
                        } else {
                            assert(sym_key(old_map[b].0) == kv && self.map@[a] == old_map[a]);
                        }
                    }
                }
                return;
            }
            i = i + 1;
        }
        let ghost old_map = self.map@;
        self.map.push((key, task));
        proof {
            assert(self.map@.drop_last() == old_map);
            assert forall|a: int, b: int| 0 <= a < b < self.map@.len() implies sym_key(
                (#[trigger] self.map@[a]).0,
            ) != sym_key((#[trigger] self.map@[b]).0) by {
                assert(self.map@[a] == old_map[a]);
                if b < old_map.len() {
                    assert(self.map@[b] == old_map[b]);
                }
            }
        }
    }
}

proof fn lemma_sym_map_absent(s: Seq<(Key, Task)>, k: SymKey)
    requires
        forall|i: int| 0 <= i < s.len() ==> sym_key((#[trigger] s[i]).0) != k,
    ensures
        !sym_entries_map(s).contains_key(k),
    decreases s.len(),
{
    if s.len() > 0 {
        lemma_sym_map_absent(s.drop_last(), k);
        assert(sym_key(s[s.len() - 1].0) != k);
    }
}

proof fn lemma_sym_map_at(s: Seq<(Key, Task)>, i: int)
    requires
        sym_keys_distinct(s),
        0 <= i < s.len(),
    ensures
        sym_entries_map(s).contains_key(sym_key(s[i].0)),
        sym_entries_map(s)[sym_key(s[i].0)] == s[i].1@,
    decreases s.len(),
{
    if i < s.len() - 1 {
        lemma_sym_map_at(s.drop_last(), i);
        assert(sym_key(s[i].0) != sym_key(s[s.len() - 1].0));
    }
}

proof fn lemma_sym_map_update(s: Seq<(Key, Task)>, i: int, e: (Key, Task))
    requires
        sym_keys_distinct(s),
        0 <= i < s.len(),
        sym_key(e.0) == sym_key(s[i].0),
    ensures
        sym_entries_map(s.update(i, e)) == sym_entries_map(s).insert(sym_key(e.0), e.1@),
    decreases s.len(),
{
    let t = s.update(i, e);
    if i == s.len() - 1 {
        assert(t.drop_last() =~= s.drop_last());
        assert(sym_entries_map(t) =~= sym_entries_map(s).insert(sym_key(e.0), e.1@));
    } else {
        lemma_sym_map_update(s.drop_last(), i, e);
        assert(t.drop_last() =~= s.drop_last().update(i, e));
        assert(sym_key(s[i].0) != sym_key(s[s.len() - 1].0));
        assert(sym_entries_map(t) =~= sym_entries_map(s).insert(sym_key(e.0), e.1@));
    }
}

// ---------------------------------------------------------------------------------------------
// From a build description to tasks.
// ---------------------------------------------------------------------------------------------
pub open spec fn single_keys(v: Seq<Seq<u8>>) -> Seq<SymKey> {
    Seq::new(v.len(), |k: int| SymKey::Single(v[k]))
}

/// The task of a build edge.
pub open spec fn sym_edge_task(b: BuildView) -> SymTask {
    SymTask {
        dependencies: single_keys(b.inputs) + single_keys(b.implicit_inputs),
        order_dependencies: single_keys(b.order_inputs),
        variant: match b.action {
            ActionView::Phony => SymVariant::Retrieve,
            ActionView::Command(s) => SymVariant::Command(s),
        },
    }
}

pub open spec fn sym_retrieve(k: SymKey) -> SymTask {
    SymTask { dependencies: seq![k], order_dependencies: Seq::empty(), variant: SymVariant::Retrieve }
}

pub open spec fn sym_with_members(m: Map<SymKey, SymTask>, members: Seq<Seq<u8>>, k: SymKey) -> Map<
    SymKey,
    SymTask,
>
    decreases members.len(),
{
    if members.len() == 0 {
        m
    } else {
        sym_with_members(m, members.drop_last(), k).insert(SymKey::Single(members.last()), sym_retrieve(k))
    }
}

pub open spec fn sym_edge_key(b: BuildView) -> SymKey {
    if b.outputs.len() == 1 {
        SymKey::Single(b.outputs[0])
    } else {
        SymKey::Multi(single_keys(sort_paths(b.outputs)))
    }
}

pub open spec fn sym_add_edge(m: Map<SymKey, SymTask>, b: BuildView) -> Map<SymKey, SymTask> {
    if b.outputs.len() == 1 {
        m.insert(sym_edge_key(b), sym_edge_task(b))
    } else {
        sym_with_members(m, sort_paths(b.outputs), sym_edge_key(b)).insert(sym_edge_key(b), sym_edge_task(b))
    }
}

pub open spec fn sym_tasks_of(builds: Seq<BuildView>) -> Map<SymKey, SymTask>
    decreases builds.len(),
{
    if builds.len() == 0 {
        Map::empty()
    } else {
        sym_add_edge(sym_tasks_of(builds.drop_last()), builds.last())
    }
}

fn sym_to_key(output: Vec<u8>) -> (r: Key)
    ensures
        sym_key(r) == SymKey::Single(output@),
{
    Key::Single(output)
}

/// The key of several outputs: their paths in byte order.
pub fn syms_to_key(outputs: Vec<Vec<u8>>) -> (r: Key)
    requires
        outputs@.len() > 1,
    ensures
        sym_key(r) == SymKey::Multi(single_keys(sort_paths(paths_view(outputs@)))),
{
    // The multi-key lists the outputs in byte order, not in the order they were written.
    let sorted = sort_paths_exec(&outputs);
    let mut keys: Vec<Key> = Vec::new();
    let mut i: usize = 0;
    while i < sorted.len()
        invariant
            i <= sorted@.len(),
            keys@.len() == i,
            forall|k: int| 0 <= k < i ==> sym_key(#[trigger] keys@[k]) == SymKey::Single(sorted@[k]@),
        decreases sorted@.len() - i,
    {
        keys.push(sym_to_key(sorted[i].clone()));
        i = i + 1;
    }
    assert(sym_keys(keys@) =~= single_keys(paths_view(sorted@)));
    let ghost kk = keys;
    let r = Key::Multi(keys);
    proof {
        lemma_sym_key_multi(kk);
    }
    r
}

fn push_single_keys(out: &mut Vec<Key>, paths: &Vec<Vec<u8>>)
    ensures
        sym_keys(final(out)@) == sym_keys(old(out)@) + single_keys(paths_view(paths@)),
{
    let ghost start = sym_keys(out@);
    let mut i: usize = 0;
    while i < paths.len()
        invariant
            i <= paths@.len(),
            out@.len() == start.len() + i,
            sym_keys(out@) == start + single_keys(paths_view(paths@)).take(i as int),
        decreases paths@.len() - i,
    {
        let ghost before = out@;
        out.push(sym_to_key(paths[i].clone()));
        proof {
            let t = start + single_keys(paths_view(paths@)).take(i + 1);
            assert forall|k: int| 0 <= k < out@.len() implies #[trigger] sym_keys(out@)[k] == t[k] by {
                if k < before.len() {
                    assert(out@[k] == before[k]);
                    assert(sym_keys(before)[k] == (start + single_keys(paths_view(paths@)).take(
                        i as int,
                    ))[k]);
                }
            }
            assert(sym_keys(out@) =~= t);
        }
        i = i + 1;
    }
    assert(single_keys(paths_view(paths@)).take(paths@.len() as int) =~= single_keys(paths_view(paths@)));
}

fn sym_edge_task_exec(build: &Build) -> (r: Task)
    ensures
        r@ == sym_edge_task(crate::parse::repr::build_view(*build)),
{
    let mut dependencies: Vec<Key> = Vec::new();
    assert(sym_keys(dependencies@) =~= Seq::<SymKey>::empty());
    push_single_keys(&mut dependencies, &build.inputs);
    push_single_keys(&mut dependencies, &build.implicit_inputs);
    let mut order_dependencies: Vec<Key> = Vec::new();
    assert(sym_keys(order_dependencies@) =~= Seq::<SymKey>::empty());
    push_single_keys(&mut order_dependencies, &build.order_inputs);
    let variant = match &build.action {
        Action::Phony => TaskVariant::Retrieve,
        Action::Command(s) => TaskVariant::Command(s.clone()),
    };
    Task { dependencies, order_dependencies, variant }
}

fn sym_add_edge_exec(tasks: &mut Tasks, build: &Build)
    requires
        old(tasks).wf(),
        build.outputs@.len() >= 1,
    ensures
        final(tasks).wf(),
        final(tasks).view() == sym_add_edge(old(tasks).view(), crate::parse::repr::build_view(*build)),
{
    if build.outputs.len() == 1 {
        let key = sym_to_key(build.outputs[0].clone());
        tasks.insert(key, sym_edge_task_exec(build));
    } else {
        let main_key = syms_to_key(clone_paths(&build.outputs));
        let ghost members = sort_paths(paths_view(build.outputs@));
        let ghost kv = sym_key(main_key);
        let ghost m0 = tasks.view();
        let n = match &main_key {
            Key::Multi(ks) => ks.len(),
            Key::Single(_) => unreached(),
        };
        assert(n == members.len()) by {
            assert(single_keys(members).len() == members.len());
        }
        let mut i: usize = 0;
        while i < n
            invariant
                i <= n == members.len(),
                kv == sym_key(main_key),
                kv == SymKey::Multi(single_keys(members)),
                tasks.wf(),
                tasks.view() == sym_with_members(m0, members.take(i as int), kv),
            decreases n - i,
        {
            let member = match &main_key {
                Key::Multi(ks) => {
                    proof {
                        lemma_sym_key_multi(*ks);
                        assert(sym_keys(ks@).len() == ks@.len());
                        assert(sym_keys(ks@)[i as int] == single_keys(members)[i as int]);
                    }
                    ks[i].copy()
                },
                Key::Single(_) => unreached(),
            };
            let mut deps: Vec<Key> = Vec::new();
            deps.push(main_key.copy());
            let t = Task { dependencies: deps, order_dependencies: Vec::new(), variant: TaskVariant::Retrieve };
            proof {
                assert(sym_keys(t.dependencies@) =~= seq![kv]);
                assert(sym_keys(t.order_dependencies@) =~= Seq::<SymKey>::empty());
                assert(members.take(i + 1).drop_last() =~= members.take(i as int));
            }
            tasks.insert(member, t);
            i = i + 1;
        }
        assert(members.take(n as int) =~= members);
        tasks.insert(main_key, sym_edge_task_exec(build));
    }
}

/// The tasks of a build description.
pub fn description_to_tasks(desc: Description) -> (r: Tasks)
    requires
        crate::builder::task::has_outputs(builds_view(desc.builds@)),
    ensures
        r.wf(),
        r.view() == sym_tasks_of(builds_view(desc.builds@)),
{
    let mut tasks = Tasks { map: Vec::new() };
    assert(tasks.view() =~= Map::<SymKey, SymTask>::empty());
    // Since no two build edges can produce any single output, they also cannot produce any
    // multi-outputs. This means every build's outputs are guaranteed to be unique and we may as
    // well create a new key for each.
    let mut i: usize = 0;
    while i < desc.builds.len()
        invariant
            i <= desc.builds@.len(),
            crate::builder::task::has_outputs(builds_view(desc.builds@)),
            tasks.wf(),
            tasks.view() == sym_tasks_of(builds_view(desc.builds@).take(i as int)),
        decreases desc.builds@.len() - i,
    {
        proof {
            assert(builds_view(desc.builds@)[i as int].outputs.len() >= 1);
            let t = builds_view(desc.builds@).take(i + 1);
            assert(t.drop_last() =~= builds_view(desc.builds@).take(i as int));
        }
        sym_add_edge_exec(&mut tasks, &desc.builds[i]);
        i = i + 1;
    }
    assert(builds_view(desc.builds@).take(desc.builds@.len() as int) =~= builds_view(desc.builds@));
    tasks
}

} // verus!
