//! Keys (the files a build reads and writes) and tasks (how a key is brought up to date).
//!
//! A build edge with one output gives a task for that output's path. One with several outputs
//! gives a task for a multi-key made of all of them (in byte order), and each output retrieves
//! that multi-key.
use crate::parse::repr::{paths_view, Action, ActionView, Build, BuildView, Description, builds_view};
use vstd::prelude::*;

verus! {

// ---------------------------------------------------------------------------------------------
// The order of byte strings.
// ---------------------------------------------------------------------------------------------
/// `a <= b` in the order of byte strings: byte by byte, a proper prefix first.
pub open spec fn lex_le(a: Seq<u8>, b: Seq<u8>) -> bool
    decreases a.len(),
{
    if a.len() == 0 {
        true
    } else if b.len() == 0 {
        false
    } else if a[0] != b[0] {
        a[0] < b[0]
    } else {
        lex_le(a.drop_first(), b.drop_first())
    }
}

/// Any two byte strings are ordered one way or the other.
pub proof fn lemma_lex_total(a: Seq<u8>, b: Seq<u8>)
    ensures
        lex_le(a, b) || lex_le(b, a),
    decreases a.len(),
{
    if a.len() > 0 && b.len() > 0 && a[0] == b[0] {
        lemma_lex_total(a.drop_first(), b.drop_first());
    }
}

/// Whether `a <= b` in the order of byte strings.
pub fn bytes_le(a: &[u8], b: &[u8]) -> (r: bool)
    ensures
        r == lex_le(a@, b@),
{
    let mut i: usize = 0;
    assert(a@.skip(0) =~= a@);
    assert(b@.skip(0) =~= b@);
    while i < a.len() && i < b.len() && a[i] == b[i]
        invariant
            i <= a@.len(),
            i <= b@.len(),
            lex_le(a@, b@) == lex_le(a@.skip(i as int), b@.skip(i as int)),
        decreases a@.len() - i,
    {
        assert(a@.skip(i as int).drop_first() =~= a@.skip(i + 1));
        assert(b@.skip(i as int).drop_first() =~= b@.skip(i + 1));
        i = i + 1;
    }
    if i == a.len() {
        true
    } else if i == b.len() {
        false
    } else {
        a[i] < b[i]
    }
}

/// Where `x` goes in `s`: after the elements before the first one that is not at most `x`.
pub open spec fn insert_pos(s: Seq<Seq<u8>>, x: Seq<u8>) -> int
    decreases s.len(),
{
    if s.len() == 0 {
        0
    } else if lex_le(s[0], x) {
        1 + insert_pos(s.drop_first(), x)
    } else {
        0
    }
}

pub open spec fn insert_sorted(s: Seq<Seq<u8>>, x: Seq<u8>) -> Seq<Seq<u8>> {
    s.insert(insert_pos(s, x), x)
}

/// `s` sorted by inserting its elements one after the other.
pub open spec fn sort_paths(s: Seq<Seq<u8>>) -> Seq<Seq<u8>>
    decreases s.len(),
{
    if s.len() == 0 {
        s
    } else {
        insert_sorted(sort_paths(s.drop_last()), s.last())
    }
}

/// Each element is at most the next.
pub open spec fn sorted(s: Seq<Seq<u8>>) -> bool {
    forall|i: int, j: int| 0 <= i && j == i + 1 && j < s.len() ==> lex_le(#[trigger] s[i], #[trigger] s[j])
}

proof fn lemma_insert_pos(s: Seq<Seq<u8>>, x: Seq<u8>)
    ensures
        0 <= insert_pos(s, x) <= s.len(),
        forall|k: int| 0 <= k < insert_pos(s, x) ==> lex_le(#[trigger] s[k], x),
        insert_pos(s, x) < s.len() ==> !lex_le(s[insert_pos(s, x)], x),
    decreases s.len(),
{
    if s.len() > 0 && lex_le(s[0], x) {
        lemma_insert_pos(s.drop_first(), x);
        assert forall|k: int| 0 <= k < insert_pos(s, x) implies lex_le(#[trigger] s[k], x) by {
            if k > 0 {
                assert(s[k] == s.drop_first()[k - 1]);
            }
        }
    }
}

proof fn lemma_insert_sorted(s: Seq<Seq<u8>>, x: Seq<u8>)
    requires
        sorted(s),
    ensures
        sorted(insert_sorted(s, x)),
        insert_sorted(s, x).to_multiset() == s.to_multiset().insert(x),
        insert_sorted(s, x).len() == s.len() + 1,
{
    lemma_insert_pos(s, x);
    let p = insert_pos(s, x);
    let t = insert_sorted(s, x);
    if p < s.len() {
        lemma_lex_total(s[p], x);
    }
    assert forall|i: int, j: int| 0 <= i && j == i + 1 && j < t.len() implies lex_le(
        #[trigger] t[i],
        #[trigger] t[j],
    ) by {
        if j < p {
            assert(t[i] == s[i] && t[j] == s[j]);
        } else if j == p {
            assert(t[i] == s[i]);
        } else if i == p {
            assert(t[j] == s[p]);
        } else {
            assert(t[i] == s[i - 1] && t[j] == s[j - 1]);
        }
    }
    vstd::seq_lib::to_multiset_insert(s, p, x);
}

/// Sorting gives a sorted permutation.
pub proof fn lemma_sort_paths(s: Seq<Seq<u8>>)
    ensures
        sorted(sort_paths(s)),
        sort_paths(s).to_multiset() == s.to_multiset(),
        sort_paths(s).len() == s.len(),
    decreases s.len(),
{
    if s.len() > 0 {
        lemma_sort_paths(s.drop_last());
        lemma_insert_sorted(sort_paths(s.drop_last()), s.last());
        vstd::seq_lib::to_multiset_build(s.drop_last(), s.last());
        assert(s.drop_last().push(s.last()) =~= s);
    } else {
        assert(s.to_multiset() =~= vstd::multiset::Multiset::empty()) by {
            broadcast use vstd::seq_lib::group_seq_properties;
        }
    }
    broadcast use vstd::seq_lib::group_seq_properties;
}

/// Sorts paths in the order of byte strings.
pub fn sort_paths_exec(v: &Vec<Vec<u8>>) -> (r: Vec<Vec<u8>>)
    ensures
        paths_view(r@) == sort_paths(paths_view(v@)),
{
    let mut out: Vec<Vec<u8>> = Vec::new();
    let mut i: usize = 0;
    assert(paths_view(v@).take(0) =~= Seq::<Seq<u8>>::empty());
    assert(paths_view(out@) =~= Seq::<Seq<u8>>::empty());
    while i < v.len()
        invariant
            i <= v@.len(),
            paths_view(out@) == sort_paths(paths_view(v@).take(i as int)),
        decreases v@.len() - i,
    {
        let x = v[i].clone();
        let ghost s = paths_view(out@);
        let mut pos: usize = 0;
        assert(s.skip(0) =~= s);
        while pos < out.len() && bytes_le(out[pos].as_slice(), x.as_slice())
            invariant
                pos <= out@.len(),
                s == paths_view(out@),
                insert_pos(s, x@) == pos + insert_pos(s.skip(pos as int), x@),
            decreases out@.len() - pos,
        {
            assert(s.skip(pos as int).drop_first() =~= s.skip(pos + 1));
            pos = pos + 1;
        }
        let ghost xv = x@;
        out.insert(pos, x);
        proof {
            assert(paths_view(out@) =~= s.insert(pos as int, xv));
            let t = paths_view(v@).take(i + 1);
            assert(t.drop_last() =~= paths_view(v@).take(i as int));
        }
        i = i + 1;
    }
    assert(paths_view(v@).take(v@.len() as int) =~= paths_view(v@));
    out
}

// ---------------------------------------------------------------------------------------------
// Keys.
// ---------------------------------------------------------------------------------------------
/// The path of a file.
#[derive(Debug, PartialOrd, Ord, Hash, Eq, PartialEq, Clone)]
pub struct KeyPath(pub Vec<u8>);

impl From<Vec<u8>> for KeyPath {
    fn from(v: Vec<u8>) -> (r: Self) {
        KeyPath(v)
    }
}

impl vstd::std_specs::convert::FromSpecImpl<Vec<u8>> for KeyPath {
    open spec fn obeys_from_spec() -> bool {
        true
    }

    open spec fn from_spec(v: Vec<u8>) -> Self {
        KeyPath(v)
    }
}

impl KeyPath {
    pub fn as_bytes(&self) -> (r: &[u8])
        ensures
            r@ == self.0@,
    {
        self.0.as_slice()
    }

    /// A copy of this path.
    pub fn copy(&self) -> (r: KeyPath)
        ensures
            r.0@ == self.0@,
    {
        KeyPath(self.0.clone())
    }
}

/// The outputs of a build edge that has more than one, in byte order.
#[derive(Debug, PartialOrd, Ord, Hash, Eq, PartialEq, Clone)]
pub struct KeyMulti(pub Vec<KeyPath>);

impl From<Vec<KeyPath>> for KeyMulti {
    fn from(v: Vec<KeyPath>) -> (r: Self) {
        KeyMulti(v)
    }
}

impl vstd::std_specs::convert::FromSpecImpl<Vec<KeyPath>> for KeyMulti {
    open spec fn obeys_from_spec() -> bool {
        true
    }

    open spec fn from_spec(v: Vec<KeyPath>) -> Self {
        KeyMulti(v)
    }
}

pub open spec fn key_paths_view(v: Seq<KeyPath>) -> Seq<Seq<u8>> {
    Seq::new(v.len(), |k: int| v[k].0@)
}

impl KeyMulti {
    /// The paths of this key.
    pub fn paths(&self) -> (r: &[KeyPath])
        ensures
            r@ == self.0@,
    {
        self.0.as_slice()
    }

    /// A copy of this key.
    pub fn copy(&self) -> (r: KeyMulti)
        ensures
            key_paths_view(r.0@) == key_paths_view(self.0@),
    {
        let mut v: Vec<KeyPath> = Vec::new();
        let mut i: usize = 0;
        while i < self.0.len()
            invariant
                i <= self.0@.len(),
                v@.len() == i,
                key_paths_view(v@) == key_paths_view(self.0@).take(i as int),
            decreases self.0@.len() - i,
        {
            let ghost before = v@;
            let p = self.0[i].copy();
            v.push(p);
            assert forall|k: int| 0 <= k < v@.len() implies #[trigger] key_paths_view(v@)[k]
                == key_paths_view(self.0@).take(i + 1)[k] by {
                if k < i {
                    assert(v@[k] == before[k]);
                    assert(key_paths_view(before)[k] == key_paths_view(self.0@).take(i as int)[k]);
                }
            }
            assert(key_paths_view(v@) =~= key_paths_view(self.0@).take(i + 1));
            i = i + 1;
        }
        assert(key_paths_view(self.0@).take(self.0@.len() as int) =~= key_paths_view(self.0@));
        KeyMulti(v)
    }
}

#[derive(Debug, PartialOrd, Ord, Hash, Eq, PartialEq, Clone)]
pub enum Key {
    Path(KeyPath),
    Multi(KeyMulti),
}

pub enum KeyView {
    Path(Seq<u8>),
    Multi(Seq<Seq<u8>>),
}

impl View for Key {
    type V = KeyView;

    open spec fn view(&self) -> KeyView {
        match self {
            Key::Path(p) => KeyView::Path(p.0@),
            Key::Multi(m) => KeyView::Multi(key_paths_view(m.0@)),
        }
    }
}

pub open spec fn keys_view(v: Seq<Key>) -> Seq<KeyView> {
    Seq::new(v.len(), |k: int| v[k]@)
}

impl Key {
    pub fn is_path(&self) -> (r: bool)
        ensures
            r == self is Path,
    {
        match self {
            Key::Path(_) => true,
            Key::Multi(_) => false,
        }
    }

    pub fn is_multi(&self) -> (r: bool)
        ensures
            r == self is Multi,
    {
        match self {
            Key::Path(_) => false,
            Key::Multi(_) => true,
        }
    }

    /// The paths of a path key: the one path.
    pub fn iter(&self) -> (r: Vec<&KeyPath>)
        requires
            self is Path,
        ensures
            r@.len() == 1,
            *r@[0] == self->Path_0,
    {
        match self {
            Key::Path(p) => vec![p],
            Key::Multi(_) => unreached(),
        }
    }

    /// A copy of this key.
    pub fn copy(&self) -> (r: Key)
        ensures
            r@ == self@,
    {
        match self {
            Key::Path(p) => Key::Path(p.copy()),
            Key::Multi(m) => Key::Multi(m.copy()),
        }
    }

    /// Whether two keys are the same.
    pub fn same(&self, other: &Key) -> (r: bool)
        ensures
            r == (self@ == other@),
    {
        match (self, other) {
            (Key::Path(a), Key::Path(b)) => crate::parse::lexer::bytes_eq(a.as_bytes(), b.as_bytes()),
            (Key::Multi(a), Key::Multi(b)) => {
                assert(self@ == KeyView::Multi(key_paths_view(a.0@)));
                assert(other@ == KeyView::Multi(key_paths_view(b.0@)));
                if a.0.len() != b.0.len() {
                    assert(key_paths_view(a.0@).len() != key_paths_view(b.0@).len());
                    return false;
                }
                let mut i: usize = 0;
                while i < a.0.len()
                    invariant
                        i <= a.0@.len(),
                        a.0@.len() == b.0@.len(),
                        self@ == KeyView::Multi(key_paths_view(a.0@)),
                        other@ == KeyView::Multi(key_paths_view(b.0@)),
                        forall|k: int| 0 <= k < i ==> a.0@[k].0@ == b.0@[k].0@,
                    decreases a.0@.len() - i,
                {
                    if !crate::parse::lexer::bytes_eq(a.0[i].as_bytes(), b.0[i].as_bytes()) {
                        assert(key_paths_view(a.0@)[i as int] != key_paths_view(b.0@)[i as int]);
                        return false;
                    }
                    i = i + 1;
                }
                assert(key_paths_view(a.0@) =~= key_paths_view(b.0@));
                true
            },
            _ => false,
        }
    }
}

// ---------------------------------------------------------------------------------------------
// Tasks.
// ---------------------------------------------------------------------------------------------
#[derive(Debug)]
pub enum TaskVariant {
    Source,
    // Indicates that this key just depends on another, usually Multi key.
    // Also used to map Phony.
    Retrieve,
    Command(String),
}

pub enum VariantView {
    Source,
    Retrieve,
    Command(Seq<char>),
}

#[derive(Debug)]
pub struct Task {
    pub dependencies: Vec<Key>,
    pub order_dependencies: Vec<Key>,
    pub variant: TaskVariant,
}

pub struct TaskView {
    pub dependencies: Seq<KeyView>,
    pub order_dependencies: Seq<KeyView>,
    pub variant: VariantView,
}

impl View for Task {
    type V = TaskView;

    open spec fn view(&self) -> TaskView {
        TaskView {
            dependencies: keys_view(self.dependencies@),
            order_dependencies: keys_view(self.order_dependencies@),
            variant: match self.variant {
                TaskVariant::Source => VariantView::Source,
                TaskVariant::Retrieve => VariantView::Retrieve,
                TaskVariant::Command(s) => VariantView::Command(s@),
            },
        }
    }
}

impl Task {
    pub fn dependencies(&self) -> (r: &[Key])
        ensures
            r@ == self.dependencies@,
    {
        self.dependencies.as_slice()
    }

    pub fn order_dependencies(&self) -> (r: &[Key])
        ensures
            r@ == self.order_dependencies@,
    {
        self.order_dependencies.as_slice()
    }

    pub fn is_retrieve(&self) -> (r: bool)
        ensures
            r == self.variant is Retrieve,
    {
        match self.variant {
            TaskVariant::Retrieve => true,
            _ => false,
        }
    }

    pub fn is_command(&self) -> (r: bool)
        ensures
            r == self.variant is Command,
    {
        match self.variant {
            TaskVariant::Command(_) => true,
            _ => false,
        }
    }

    pub fn command(&self) -> (r: Option<&String>)
        ensures
            match self.variant {
                TaskVariant::Command(s) => r == Some(&s),
                _ => r is None,
            },
    {
        match self.variant {
            TaskVariant::Command(ref s) => Some(s),
            _ => None,
        }
    }
}

/// The map that a list of (key, task) entries gives, a later entry winning.
pub open spec fn entries_map(s: Seq<(Key, Task)>) -> Map<KeyView, TaskView>
    decreases s.len(),
{
    if s.len() == 0 {
        Map::empty()
    } else {
        entries_map(s.drop_last()).insert(s.last().0@, s.last().1@)
    }
}

/// No key occurs twice.
pub open spec fn keys_distinct(s: Seq<(Key, Task)>) -> bool {
    forall|i: int, j: int| 0 <= i < j < s.len() ==> (#[trigger] s[i]).0@ != (#[trigger] s[j]).0@
}

/// The tasks of a build, by key.
#[derive(Debug)]
pub struct Tasks {
    map: Vec<(Key, Task)>,
}

impl Tasks {
    pub closed spec fn entries(&self) -> Seq<(Key, Task)> {
        self.map@
    }

    pub open spec fn view(&self) -> Map<KeyView, TaskView> {
        entries_map(self.entries())
    }

    /// No key has two entries.
    pub open spec fn wf(&self) -> bool {
        keys_distinct(self.entries())
    }

    /// No tasks.
    pub fn new() -> (r: Tasks)
        ensures
            r.wf(),
            r.view() == Map::<KeyView, TaskView>::empty(),
    {
        Tasks { map: Vec::new() }
    }

    /// The task of `key`, if any.
    pub fn task(&self, key: &Key) -> (r: Option<&Task>)
        requires
            self.wf(),
        ensures
            match r {
                Some(t) => self.view().contains_key(key@) && t@ == self.view()[key@],
                None => !self.view().contains_key(key@),
            },
    {
        let mut i: usize = 0;
        while i < self.map.len()
            invariant
                i <= self.map@.len(),
                keys_distinct(self.map@),
                forall|k: int| 0 <= k < i ==> (#[trigger] self.map@[k]).0@ != key@,
            decreases self.map@.len() - i,
        {
            if self.map[i].0.same(key) {
                proof {
                    lemma_entries_map_at(self.map@, i as int);
                }
                return Some(&self.map[i].1);
            }
            i = i + 1;
        }
        proof {
            lemma_entries_map_dom(self.map@, key@);
        }
        None
    }

    /// All entries: each key once, with its task.
    pub fn all_tasks(&self) -> (r: &Vec<(Key, Task)>)
        requires
            self.wf(),
        ensures
            keys_distinct(r@),
            entries_map(r@) == self.view(),
    {
        &self.map
    }

    /// Sets the task of `key`, replacing an earlier one.
    pub fn insert(&mut self, key: Key, task: Task)
        requires
            old(self).wf(),
        ensures
            final(self).wf(),
            final(self).view() == old(self).view().insert(key@, task@),
    {
        let mut i: usize = 0;
        while i < self.map.len()
            invariant
                i <= self.map@.len(),
                self.map@ == old(self).map@,
                keys_distinct(self.map@),
                forall|k: int| 0 <= k < i ==> (#[trigger] self.map@[k]).0@ != key@,
            decreases self.map@.len() - i,
        {
            if self.map[i].0.same(&key) {
                let ghost old_map = self.map@;
                let ghost kv = key@;
                let ghost tv = task@;
                self.map.set(i, (key, task));
                proof {
                    lemma_entries_map_update(old_map, i as int, self.map@[i as int]);
                    assert forall|a: int, b: int| 0 <= a < b < self.map@.len() implies (
                    #[trigger] self.map@[a]).0@ != (#[trigger] self.map@[b]).0@ by {
                        if a != i && b != i {
                            assert(self.map@[a] == old_map[a] && self.map@[b] == old_map[b]);
                        } else if a == i {
                            assert(old_map[a].0@ == kv && self.map@[b] == old_map[b]);
                        } else {
                            assert(old_map[b].0@ == kv && self.map@[a] == old_map[a]);
                        }
                    }
                }
                return;
            }
            i = i + 1;
        }
        let ghost old_map = self.map@;
        self.map.push((key, task));
        proof {
            assert(self.map@.drop_last() == old_map);
            assert forall|a: int, b: int| 0 <= a < b < self.map@.len() implies (
            #[trigger] self.map@[a]).0@ != (#[trigger] self.map@[b]).0@ by {
                assert(self.map@[a] == old_map[a]);
                if b < old_map.len() {
                    assert(self.map@[b] == old_map[b]);
                }
            }
        }
    }
}

pub(crate) proof fn lemma_entries_map_dom(s: Seq<(Key, Task)>, k: KeyView)
    requires
        forall|i: int| 0 <= i < s.len() ==> (#[trigger] s[i]).0@ != k,
    ensures
        !entries_map(s).contains_key(k),
    decreases s.len(),
{
    if s.len() > 0 {
        lemma_entries_map_dom(s.drop_last(), k);
        assert(s[s.len() - 1].0@ != k);
    }
}

pub(crate) proof fn lemma_entries_map_at(s: Seq<(Key, Task)>, i: int)
    requires
        keys_distinct(s),
        0 <= i < s.len(),
    ensures
        entries_map(s).contains_key(s[i].0@),
        entries_map(s)[s[i].0@] == s[i].1@,
    decreases s.len(),
{
    if i < s.len() - 1 {
        lemma_entries_map_at(s.drop_last(), i);
        assert(s[i].0@ != s[s.len() - 1].0@);
    }
}

proof fn lemma_entries_map_update(s: Seq<(Key, Task)>, i: int, e: (Key, Task))
    requires
        keys_distinct(s),
        0 <= i < s.len(),
        e.0@ == s[i].0@,
    ensures
        entries_map(s.update(i, e)) == entries_map(s).insert(e.0@, e.1@),
    decreases s.len(),
{
    let t = s.update(i, e);
    if i == s.len() - 1 {
        assert(t.drop_last() =~= s.drop_last());
        assert(entries_map(t) =~= entries_map(s).insert(e.0@, e.1@));
    } else {
        lemma_entries_map_update(s.drop_last(), i, e);
        assert(t.drop_last() =~= s.drop_last().update(i, e));
        assert(s[i].0@ != s[s.len() - 1].0@);
        assert(entries_map(t) =~= entries_map(s).insert(e.0@, e.1@));
    }
}

// ---------------------------------------------------------------------------------------------
// From a build description to tasks.
// ---------------------------------------------------------------------------------------------
pub open spec fn path_keys(v: Seq<Seq<u8>>) -> Seq<KeyView> {
    Seq::new(v.len(), |k: int| KeyView::Path(v[k]))
}

/// The task of a build edge: its inputs (explicit, then implicit) and order-only inputs as path
/// keys, and its command (a phony edge only retrieves).
pub open spec fn edge_task(b: BuildView) -> TaskView {
    TaskView {
        dependencies: path_keys(b.inputs) + path_keys(b.implicit_inputs),
        order_dependencies: path_keys(b.order_inputs),
        variant: match b.action {
            ActionView::Phony => VariantView::Retrieve,
            ActionView::Command(s) => VariantView::Command(s),
        },
    }
}

/// The task of one output of a build edge with several: retrieve the multi-key `k`.
pub open spec fn retrieve_task(k: KeyView) -> TaskView {
    TaskView {
        dependencies: seq![k],
        order_dependencies: Seq::empty(),
        variant: VariantView::Retrieve,
    }
}

/// `m` with each of `members` retrieving the multi-key `k`.
pub open spec fn with_members(m: Map<KeyView, TaskView>, members: Seq<Seq<u8>>, k: KeyView) -> Map<
    KeyView,
    TaskView,
>
    decreases members.len(),
{
    if members.len() == 0 {
        m
    } else {
        with_members(m, members.drop_last(), k).insert(
            KeyView::Path(members.last()),
            retrieve_task(k),
        )
    }
}

/// The key of a build edge's outputs.
pub open spec fn edge_key(b: BuildView) -> KeyView {
    if b.outputs.len() == 1 {
        KeyView::Path(b.outputs[0])
    } else {
        KeyView::Multi(sort_paths(b.outputs))
    }
}

/// `m` with the tasks of the build edge `b`.
pub open spec fn add_edge_tasks(m: Map<KeyView, TaskView>, b: BuildView) -> Map<KeyView, TaskView> {
    if b.outputs.len() == 1 {
        m.insert(edge_key(b), edge_task(b))
    } else {
        with_members(m, sort_paths(b.outputs), edge_key(b)).insert(edge_key(b), edge_task(b))
    }
}

/// The tasks of the build edges `builds`, a later edge's winning where two share a key.
pub open spec fn tasks_of(builds: Seq<BuildView>) -> Map<KeyView, TaskView>
    decreases builds.len(),
{
    if builds.len() == 0 {
        Map::empty()
    } else {
        add_edge_tasks(tasks_of(builds.drop_last()), builds.last())
    }
}

/// Every build edge has an output.
pub open spec fn has_outputs(builds: Seq<BuildView>) -> bool {
    forall|i: int| 0 <= i < builds.len() ==> (#[trigger] builds[i]).outputs.len() >= 1
}

fn path_to_key(path: Vec<u8>) -> (r: KeyPath)
    ensures
        r.0@ == path@,
{
    KeyPath(path)
}

/// The multi-key of several outputs: their paths in byte order.
pub fn paths_to_multi_key(outputs: Vec<Vec<u8>>) -> (r: KeyMulti)
    requires
        outputs@.len() > 1,
    ensures
        key_paths_view(r.0@) == sort_paths(paths_view(outputs@)),
{
    // The multi-key lists the outputs in byte order, not in the order they were written.
    let sorted = sort_paths_exec(&outputs);
    let mut keys: Vec<KeyPath> = Vec::new();
    let mut i: usize = 0;
    while i < sorted.len()
        invariant
            i <= sorted@.len(),
            keys@.len() == i,
            forall|k: int| 0 <= k < i ==> (#[trigger] keys@[k]).0@ == sorted@[k]@,
        decreases sorted@.len() - i,
    {
        keys.push(path_to_key(sorted[i].clone()));
        i = i + 1;
    }
    assert(key_paths_view(keys@) =~= paths_view(sorted@));
    KeyMulti(keys)
}

/// Path keys for `paths`, appended to `out`.
fn push_path_keys(out: &mut Vec<Key>, paths: &Vec<Vec<u8>>)
    ensures
        keys_view(final(out)@) == keys_view(old(out)@) + path_keys(paths_view(paths@)),
{
    let ghost start = keys_view(out@);
    let mut i: usize = 0;
    while i < paths.len()
        invariant
            i <= paths@.len(),
            out@.len() == start.len() + i,
            keys_view(out@) == start + path_keys(paths_view(paths@)).take(i as int),
        decreases paths@.len() - i,
    {
        let ghost before = out@;
        out.push(Key::Path(path_to_key(paths[i].clone())));
        proof {
            let t = start + path_keys(paths_view(paths@)).take(i + 1);
            assert forall|k: int| 0 <= k < out@.len() implies #[trigger] keys_view(out@)[k] == t[k] by {
                if k < before.len() {
                    assert(out@[k] == before[k]);
                    assert(keys_view(before)[k] == (start + path_keys(paths_view(paths@)).take(
                        i as int,
                    ))[k]);
                }
            }
            assert(keys_view(out@) =~= t);
        }
        i = i + 1;
    }
    assert(path_keys(paths_view(paths@)).take(paths@.len() as int) =~= path_keys(paths_view(paths@)));
}

/// The task of a build edge.
fn edge_task_exec(build: &Build) -> (r: Task)
    ensures
        r@ == edge_task(crate::parse::repr::build_view(*build)),
{
    let mut dependencies: Vec<Key> = Vec::new();
    assert(keys_view(dependencies@) =~= Seq::<KeyView>::empty());
    push_path_keys(&mut dependencies, &build.inputs);
    push_path_keys(&mut dependencies, &build.implicit_inputs);
    let mut order_dependencies: Vec<Key> = Vec::new();
    assert(keys_view(order_dependencies@) =~= Seq::<KeyView>::empty());
    push_path_keys(&mut order_dependencies, &build.order_inputs);
    let variant = match &build.action {
        Action::Phony => TaskVariant::Retrieve,
        Action::Command(s) => TaskVariant::Command(s.clone()),
    };
    Task { dependencies, order_dependencies, variant }
}

/// Adds the tasks of one build edge.
fn add_edge_tasks_exec(tasks: &mut Tasks, build: &Build)
    requires
        old(tasks).wf(),
        build.outputs@.len() >= 1,
    ensures
        final(tasks).wf(),
        final(tasks).view() == add_edge_tasks(
            old(tasks).view(),
            crate::parse::repr::build_view(*build),
        ),
{
    let ghost bv = crate::parse::repr::build_view(*build);
    if build.outputs.len() == 1 {
        let key = Key::Path(path_to_key(build.outputs[0].clone()));
        tasks.insert(key, edge_task_exec(build));
    } else {
        let main_key = paths_to_multi_key(clone_paths(&build.outputs));
        let ghost members = key_paths_view(main_key.0@);
        let ghost kv = KeyView::Multi(members);
        let ghost m0 = tasks.view();
        let mut i: usize = 0;
        while i < main_key.0.len()
            invariant
                i <= main_key.0@.len(),
                members == key_paths_view(main_key.0@),
                kv == KeyView::Multi(members),
                tasks.wf(),
                tasks.view() == with_members(m0, members.take(i as int), kv),
            decreases main_key.0@.len() - i,
        {
            let member = Key::Path(main_key.0[i].copy());
            let mut deps: Vec<Key> = Vec::new();
            let mk = Key::Multi(main_key.copy());
            assert(mk@ == kv);
            deps.push(mk);
            let t = Task { dependencies: deps, order_dependencies: Vec::new(), variant: TaskVariant::Retrieve };
            proof {
                assert(keys_view(t.dependencies@) =~= seq![kv]);
                assert(keys_view(t.order_dependencies@) =~= Seq::<KeyView>::empty());
                assert(members.take(i + 1).drop_last() =~= members.take(i as int));
            }
            tasks.insert(member, t);
            i = i + 1;
        }
        assert(members.take(main_key.0@.len() as int) =~= members);
        tasks.insert(Key::Multi(main_key), edge_task_exec(build));
    }
}

/// The tasks of a build description, and the keys that were asked for: `start` if given, else the
/// description's defaults.
pub fn description_to_tasks_with_start(desc: Description, start: Option<Vec<Vec<u8>>>) -> (r: (
    Tasks,
    Option<Vec<KeyPath>>,
))
    requires
        has_outputs(builds_view(desc.builds@)),
    ensures
        r.0.wf(),
        r.0.view() == tasks_of(builds_view(desc.builds@)),
        match start {
            Some(v) => r.1 matches Some(ks) && key_paths_view(ks@) == paths_view(v@),
            None => match desc.defaults {
                Some(v) => r.1 matches Some(ks) && key_paths_view(ks@) == paths_view(v@),
                None => r.1 is None,
            },
        },
{
    let requested = match start {
        Some(specified) => Some(keys_of_paths(&specified)),
        None => match &desc.defaults {
            Some(v) => Some(keys_of_paths(v)),
            None => None,
        },
    };
    let mut tasks = Tasks::new();
    // Since no two build edges can produce any single output, they also cannot produce any
    // multi-outputs. This means every build's outputs are guaranteed to be unique and we may as
    // well create a new key for each.
    let mut i: usize = 0;
    while i < desc.builds.len()
        invariant
            i <= desc.builds@.len(),
            has_outputs(builds_view(desc.builds@)),
            tasks.wf(),
            tasks.view() == tasks_of(builds_view(desc.builds@).take(i as int)),
        decreases desc.builds@.len() - i,
    {
        proof {
            assert(builds_view(desc.builds@)[i as int].outputs.len() >= 1);
            let t = builds_view(desc.builds@).take(i + 1);
            assert(t.drop_last() =~= builds_view(desc.builds@).take(i as int));
        }
        add_edge_tasks_exec(&mut tasks, &desc.builds[i]);
        i = i + 1;
    }
    assert(builds_view(desc.builds@).take(desc.builds@.len() as int) =~= builds_view(desc.builds@));
    (tasks, requested)
}

/// Path keys for `paths`.
fn keys_of_paths(paths: &Vec<Vec<u8>>) -> (r: Vec<KeyPath>)
    ensures
        key_paths_view(r@) == paths_view(paths@),
{
    let mut r: Vec<KeyPath> = Vec::new();
    let mut i: usize = 0;
    while i < paths.len()
        invariant
            i <= paths@.len(),
            r@.len() == i,
            forall|k: int| 0 <= k < i ==> (#[trigger] r@[k]).0@ == paths@[k]@,
        decreases paths@.len() - i,
    {
        r.push(path_to_key(paths[i].clone()));
        i = i + 1;
    }
    assert(key_paths_view(r@) =~= paths_view(paths@));
    r
}

/// No path is the output of two build edges, or twice the output of one.
pub open spec fn outputs_distinct(builds: Seq<BuildView>) -> bool {
    forall|i1: int, j1: int, i2: int, j2: int|
        0 <= i1 < builds.len() && 0 <= i2 < builds.len() && 0 <= j1 < builds[i1].outputs.len() && 0
            <= j2 < builds[i2].outputs.len() && (i1 != i2 || j1 != j2) ==> #[trigger] builds[i1].outputs[j1]
            != #[trigger] builds[i2].outputs[j2]
}

pub proof fn lemma_sorted_contains(s: Seq<Seq<u8>>, x: Seq<u8>)
    ensures
        sort_paths(s).contains(x) <==> s.contains(x),
{
    lemma_sort_paths(s);
    vstd::seq_lib::to_multiset_contains(s, x);
    vstd::seq_lib::to_multiset_contains(sort_paths(s), x);
}

/// What `with_members` gives at a key: a member's path retrieves `k`; any other key keeps what
/// it had.
pub proof fn lemma_with_members_at(m: Map<KeyView, TaskView>, ms: Seq<Seq<u8>>, k: KeyView, key: KeyView)
    ensures
        (key matches KeyView::Path(p) && ms.contains(p)) ==> with_members(m, ms, k).contains_key(key)
            && with_members(m, ms, k)[key] == retrieve_task(k),
        !(key matches KeyView::Path(p) && ms.contains(p)) ==> (with_members(m, ms, k).contains_key(key)
            == m.contains_key(key) && (m.contains_key(key) ==> with_members(m, ms, k)[key] == m[key])),
    decreases ms.len(),
{
    if ms.len() > 0 {
        lemma_with_members_at(m, ms.drop_last(), k, key);
        if let KeyView::Path(p) = key {
            if ms.contains(p) && p != ms.last() {
                let j = choose|j: int| 0 <= j < ms.len() && ms[j] == p;
                assert(ms.drop_last()[j] == p);
            }
            if ms.drop_last().contains(p) {
                let j = choose|j: int| 0 <= j < ms.drop_last().len() && ms.drop_last()[j] == p;
                assert(ms[j] == p);
            }
            if p == ms.last() {
                assert(ms[ms.len() - 1] == p);
            }
        }
    }
}

/// What a build edge's task does: a phony edge runs no command, its task only retrieves; an
/// edge with a command runs exactly that command. Either way the task depends on the edge's
/// inputs and implicit inputs, in order, and waits for its order-only inputs.
pub proof fn law_edge_task_runs_its_command(builds: Seq<BuildView>, i: int)
    requires
        has_outputs(builds),
        outputs_distinct(builds),
        0 <= i < builds.len(),
    ensures
        tasks_of(builds).contains_key(edge_key(builds[i])),
        builds[i].action is Phony ==> tasks_of(builds)[edge_key(builds[i])].variant is Retrieve,
        forall|s: Seq<char>|
            builds[i].action == ActionView::Command(s) ==> #[trigger] tasks_of(builds)[edge_key(
                builds[i],
            )].variant == VariantView::Command(s),
        tasks_of(builds)[edge_key(builds[i])].dependencies.len() == builds[i].inputs.len()
            + builds[i].implicit_inputs.len(),
        forall|j: int|
            0 <= j < builds[i].inputs.len() ==> #[trigger] tasks_of(builds)[edge_key(
                builds[i],
            )].dependencies[j] == KeyView::Path(builds[i].inputs[j]),
        forall|j: int|
            0 <= j < builds[i].implicit_inputs.len() ==> #[trigger] tasks_of(builds)[edge_key(
                builds[i],
            )].dependencies[builds[i].inputs.len() + j] == KeyView::Path(builds[i].implicit_inputs[j]),
{
    law_output_tasks(builds, i, 0);
    let b = builds[i];
    if b.outputs.len() == 1 {
        assert(edge_key(b) == KeyView::Path(b.outputs[0]));
    }
    let t = tasks_of(builds)[edge_key(b)];
    assert(t == edge_task(b));
    assert forall|j: int| 0 <= j < b.inputs.len() implies #[trigger] t.dependencies[j] == KeyView::Path(
        b.inputs[j],
    ) by {
        assert(t.dependencies[j] == path_keys(b.inputs)[j]);
    }
    assert forall|j: int| 0 <= j < b.implicit_inputs.len() implies #[trigger] t.dependencies[b.inputs.len()
        + j] == KeyView::Path(b.implicit_inputs[j]) by {
        assert(t.dependencies[b.inputs.len() + j] == path_keys(b.implicit_inputs)[j]);
    }
}

/// The tasks of a description's build edges, when no path is output twice: an edge with one
/// output gives that path its task; an edge with several gives its multi-key (the outputs in
/// byte order) its task, and each output a task that retrieves the multi-key.
pub proof fn law_output_tasks(builds: Seq<BuildView>, i: int, j: int)
    requires
        has_outputs(builds),
        outputs_distinct(builds),
        0 <= i < builds.len(),
        0 <= j < builds[i].outputs.len(),
    ensures
        tasks_of(builds).contains_key(KeyView::Path(builds[i].outputs[j])),
        builds[i].outputs.len() == 1 ==> tasks_of(builds)[KeyView::Path(builds[i].outputs[0])]
            == edge_task(builds[i]),
        builds[i].outputs.len() > 1 ==> {
            &&& tasks_of(builds)[KeyView::Path(builds[i].outputs[j])] == retrieve_task(edge_key(builds[i]))
            &&& tasks_of(builds).contains_key(edge_key(builds[i]))
            &&& tasks_of(builds)[edge_key(builds[i])] == edge_task(builds[i])
        },
    decreases builds.len(),
{
    let n = builds.len() - 1;
    let b = builds[n];
    let rest = builds.drop_last();
    let m = tasks_of(rest);
    assert(builds.last() == b);
    let bi = builds[i];
    let out = bi.outputs[j];
    assert(bi.outputs.contains(out));
    lemma_sorted_contains(b.outputs, out);
    if bi.outputs.len() > 1 {
        lemma_sorted_contains(bi.outputs, out);
    }
    if i == n {
        lemma_with_members_at(m, sort_paths(b.outputs), edge_key(b), KeyView::Path(out));
    } else {
        assert(has_outputs(rest)) by {
            assert forall|k: int| 0 <= k < rest.len() implies (#[trigger] rest[k]).outputs.len() >= 1 by {
                assert(rest[k] == builds[k]);
            }
        }
        assert(outputs_distinct(rest)) by {
            assert forall|i1: int, j1: int, i2: int, j2: int|
                0 <= i1 < rest.len() && 0 <= i2 < rest.len() && 0 <= j1 < rest[i1].outputs.len() && 0 <= j2
                    < rest[i2].outputs.len() && (i1 != i2 || j1 != j2) implies #[trigger] rest[i1].outputs[j1]
                != #[trigger] rest[i2].outputs[j2] by {
                assert(rest[i1] == builds[i1]);
                assert(rest[i2] == builds[i2]);
            }
        }
        assert(rest[i] == bi);
        law_output_tasks(rest, i, j);
        // The last edge's keys are not those of edge `i`.
        assert(!b.outputs.contains(out)) by {
            if b.outputs.contains(out) {
                let k = choose|k: int| 0 <= k < b.outputs.len() && b.outputs[k] == out;
                assert(builds[n].outputs[k] == builds[i].outputs[j]);
            }
        }
        assert(KeyView::Path(out) != edge_key(b)) by {
            if b.outputs.len() == 1 {
                assert(b.outputs[0] != out);
            }
        }
        lemma_with_members_at(m, sort_paths(b.outputs), edge_key(b), KeyView::Path(out));
        if bi.outputs.len() > 1 {
            let ki = edge_key(bi);
            lemma_with_members_at(m, sort_paths(b.outputs), edge_key(b), ki);
            assert(ki != edge_key(b)) by {
                if b.outputs.len() > 1 {
                    let o0 = bi.outputs[0];
                    assert(bi.outputs.contains(o0));
                    lemma_sorted_contains(bi.outputs, o0);
                    lemma_sorted_contains(b.outputs, o0);
                    assert(!b.outputs.contains(o0)) by {
                        if b.outputs.contains(o0) {
                            let k = choose|k: int| 0 <= k < b.outputs.len() && b.outputs[k] == o0;
                            assert(builds[n].outputs[k] == builds[i].outputs[0]);
                        }
                    }
                }
            }
        }
    }
}

/// The tasks of a build description, and its defaults.
pub fn description_to_tasks(desc: Description) -> (r: (Tasks, Option<Vec<KeyPath>>))
    requires
        has_outputs(builds_view(desc.builds@)),
    ensures
        r.0.wf(),
        r.0.view() == tasks_of(builds_view(desc.builds@)),
        match desc.defaults {
            Some(v) => r.1 matches Some(ks) && key_paths_view(ks@) == paths_view(v@),
            None => r.1 is None,
        },
{
    description_to_tasks_with_start(desc, None)
}

/// A copy of a list of paths.
pub fn clone_paths(v: &Vec<Vec<u8>>) -> (r: Vec<Vec<u8>>)
    ensures
        paths_view(r@) == paths_view(v@),
        r@.len() == v@.len(),
{
    let mut r: Vec<Vec<u8>> = Vec::new();
    let mut i: usize = 0;
    while i < v.len()
        invariant
            i <= v@.len(),
            r@.len() == i,
            forall|k: int| 0 <= k < i ==> (#[trigger] r@[k])@ == v@[k]@,
        decreases v@.len() - i,
    {
        r.push(v[i].clone());
        i = i + 1;
    }
    assert(paths_view(r@) =~= paths_view(v@));
    r
}

} // verus!
