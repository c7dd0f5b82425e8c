//! Variable scopes: bindings from names to (already evaluated) values, with an optional parent
//! scope that is consulted when a name is not bound here.
use crate::parse::ast::{eval_for_build_fuel, Rule};
use vstd::prelude::*;

verus! {

/// The bindings of a list of (name, value) pairs, where a later pair wins over an earlier pair
/// with the same name.
pub open spec fn pairs_map(s: Seq<(Vec<u8>, Vec<u8>)>) -> Map<Seq<u8>, Seq<u8>>
    decreases s.len(),
{
    if s.len() == 0 {
        Map::empty()
    } else {
        pairs_map(s.drop_last()).insert(s.last().0@, s.last().1@)
    }
}

#[derive(Debug)]
pub struct Env {
    // A scope owns a copy of its parent. A build edge evaluates its bindings (and its paths) at
    // the point it is read, so it sees the top-level bindings as they are at that point.
    parent: Option<Box<Env>>,
    bindings: Vec<(Vec<u8>, Vec<u8>)>,
}

impl Default for Env {
    /// An empty scope without a parent.
    fn default() -> (r: Env)
        ensures
            r.env_view() == Map::<Seq<u8>, Seq<u8>>::empty(),
            r.own_view() == Map::<Seq<u8>, Seq<u8>>::empty(),
            r.parent_view() == Map::<Seq<u8>, Seq<u8>>::empty(),
    {
        Env::new()
    }
}

impl Env {
    /// The bindings made in this scope itself.
    pub closed spec fn own_view(&self) -> Map<Seq<u8>, Seq<u8>> {
        pairs_map(self.bindings@)
    }

    /// The bindings visible through the parent scope (none without a parent).
    pub closed spec fn parent_view(&self) -> Map<Seq<u8>, Seq<u8>> {
        match self.parent {
            Some(p) => p.env_view(),
            None => Map::empty(),
        }
    }

    /// All bindings visible from this scope.
    pub closed spec fn env_view(&self) -> Map<Seq<u8>, Seq<u8>>
        decreases self,
    {
        match self.parent {
            Some(p) => p.env_view().union_prefer_right(pairs_map(self.bindings@)),
            None => pairs_map(self.bindings@),
        }
    }

    pub proof fn lemma_view_parts(&self)
        ensures
            self.env_view() == self.parent_view().union_prefer_right(self.own_view()),
    {
        if self.parent is None {
            assert(self.env_view() =~= Map::<Seq<u8>, Seq<u8>>::empty().union_prefer_right(
                self.own_view(),
            ));
        }
    }

    /// An empty scope without a parent.
    pub fn new() -> (r: Env)
        ensures
            r.env_view() == Map::<Seq<u8>, Seq<u8>>::empty(),
            r.own_view() == Map::<Seq<u8>, Seq<u8>>::empty(),
            r.parent_view() == Map::<Seq<u8>, Seq<u8>>::empty(),
    {
        Env { parent: None, bindings: Vec::new() }
    }

    /// An empty scope whose lookups fall back to `env`.
    pub fn with_parent(env: Env) -> (r: Self)
        ensures
            r.own_view() == Map::<Seq<u8>, Seq<u8>>::empty(),
            r.parent_view() == env.env_view(),
            r.env_view() == env.env_view(),
    {
        let r = Env { parent: Some(Box::new(env)), bindings: Vec::new() };
        assert(r.env_view() =~= env.env_view());
        r
    }

    /// An empty scope whose lookups fall back to `env`.
    pub fn with_parent_owned(env: Env) -> (r: Self)
        ensures
            r.own_view() == Map::<Seq<u8>, Seq<u8>>::empty(),
            r.parent_view() == env.env_view(),
            r.env_view() == env.env_view(),
    {
        Env::with_parent(env)
    }

    /// A copy of this scope and its parents.
    pub fn clone_env(&self) -> (r: Env)
        ensures
            r.env_view() == self.env_view(),
            r.own_view() == self.own_view(),
            r.parent_view() == self.parent_view(),
        decreases self,
    {
        let parent = match &self.parent {
            Some(p) => Some(Box::new(p.clone_env())),
            None => None,
        };
        let mut bindings: Vec<(Vec<u8>, Vec<u8>)> = Vec::new();
        let mut i: usize = 0;
        while i < self.bindings.len()
            invariant
                i <= self.bindings@.len(),
                bindings@.len() == i,
                forall|k: int|
                    0 <= k < i ==> (#[trigger] bindings@[k]).0@ == self.bindings@[k].0@
                        && bindings@[k].1@ == self.bindings@[k].1@,
            decreases self.bindings@.len() - i,
        {
            let name = self.bindings[i].0.clone();
            let value = self.bindings[i].1.clone();
            bindings.push((name, value));
            i = i + 1;
        }
        proof {
            lemma_pairs_map_same_views(bindings@, self.bindings@);
        }
        let r = Env { parent, bindings };
        proof {
            r.lemma_view_parts();
            self.lemma_view_parts();
        }
        r
    }

    /// Binds `name` to `value` in this scope, replacing an earlier binding of `name` here.
    pub fn add_binding(&mut self, name: Vec<u8>, value: Vec<u8>)
        ensures
            final(self).own_view() == old(self).own_view().insert(name@, value@),
            final(self).parent_view() == old(self).parent_view(),
            final(self).env_view() == old(self).env_view().insert(name@, value@),
    {
        proof {
            self.lemma_view_parts();
        }
        let ghost n = name@;
        let ghost v = value@;
        self.bindings.push((name, value));
        proof {
            assert(self.bindings@.drop_last() == old(self).bindings@);
            self.lemma_view_parts();
            assert(self.env_view() =~= old(self).env_view().insert(n, v));
        }
    }

    /// The value bound to `name` in this scope itself.
    fn lookup_own(&self, name: &[u8]) -> (r: Option<Vec<u8>>)
        ensures
            r is Some <==> self.own_view().contains_key(name@),
            r is Some ==> r->Some_0@ == self.own_view()[name@],
    {
        let mut i = self.bindings.len();
        proof {
            assert(self.bindings@.take(i as int) =~= self.bindings@);
            assert(self.bindings@.skip(i as int).len() == 0);
            assert(pairs_map(self.bindings@) =~= pairs_map(self.bindings@.take(i as int)).union_prefer_right(
                pairs_map(self.bindings@.skip(i as int)),
            ));
        }
        while i > 0
            invariant
                i <= self.bindings@.len(),
                pairs_map(self.bindings@) == pairs_map(self.bindings@.take(i as int)).union_prefer_right(
                    pairs_map(self.bindings@.skip(i as int)),
                ),
                !pairs_map(self.bindings@.skip(i as int)).contains_key(name@),
            decreases i,
        {
            let ghost prefix = self.bindings@.take(i as int);
            let ghost suffix = self.bindings@.skip(i as int);
            assert(prefix.drop_last() == self.bindings@.take(i - 1));
            if bytes_eq(self.bindings[i - 1].0.as_slice(), name) {
                assert(pairs_map(prefix).contains_key(name@));
                return Some(self.bindings[i - 1].1.clone());
            }
            proof {
                let s2 = self.bindings@.skip(i - 1);
                lemma_pairs_map_cons(s2);
                assert(s2.drop_first() =~= suffix);
                assert(pairs_map(self.bindings@) =~= pairs_map(self.bindings@.take(i - 1)).union_prefer_right(
                    pairs_map(s2),
                )) by {
                    lemma_pairs_map_split(self.bindings@, i - 1);
                }
            }
            i = i - 1;
        }
        assert(self.bindings@.skip(0) == self.bindings@);
        None
    }

    /// The value bound to `name`, looking through the parent scopes.
    pub fn lookup(&self, name: &[u8]) -> (r: Option<Vec<u8>>)
        ensures
            r is Some <==> self.env_view().contains_key(name@),
            r is Some ==> r->Some_0@ == self.env_view()[name@],
        decreases self,
    {
        proof {
            self.lemma_view_parts();
        }
        match self.lookup_own(name) {
            Some(v) => Some(v),
            None => match &self.parent {
                Some(p) => p.lookup(name),
                None => None,
            },
        }
    }

    /// The value of `name` for a build edge that uses `rule`: a binding of this scope, else the
    /// rule's binding evaluated in this scope, else a binding of the parent scopes. `None` as the
    /// outer result means the rule's bindings refer to each other in a cycle.
    pub fn lookup_for_build(&self, rule: &Rule, name: &[u8]) -> (r: Option<Option<Vec<u8>>>)
        ensures
            opt_opt_view(r) == lookup_for_build_fuel(
                self.own_view(),
                self.parent_view(),
                rule.bindings_view(),
                name@,
                rule.bindings@.len(),
            ),
    {
        self.lookup_for_build_bounded(rule, name, rule.bindings.len())
    }

    pub fn lookup_for_build_bounded(&self, rule: &Rule, name: &[u8], fuel: usize) -> (r: Option<
        Option<Vec<u8>>,
    >)
        ensures
            opt_opt_view(r) == lookup_for_build_fuel(
                self.own_view(),
                self.parent_view(),
                rule.bindings_view(),
                name@,
                fuel as nat,
            ),
        decreases fuel, 0nat,
    {
        match self.lookup_own(name) {
            Some(v) => Some(Some(v)),
            None => {
                match rule.binding(name) {
                    Some(expr) => {
                        if fuel == 0 {
                            None
                        } else {
                            match expr.eval_for_build_bounded(self, rule, fuel - 1) {
                                Some(v) => Some(Some(v)),
                                None => None,
                            }
                        }
                    },
                    None => match &self.parent {
                        Some(p) => Some(p.lookup(name)),
                        None => Some(None),
                    },
                }
            },
        }
    }
}

pub open spec fn opt_opt_view(r: Option<Option<Vec<u8>>>) -> Option<Option<Seq<u8>>> {
    match r {
        Some(Some(v)) => Some(Some(v@)),
        Some(None) => Some(None),
        None => None,
    }
}

pub open spec fn map_get(m: Map<Seq<u8>, Seq<u8>>, k: Seq<u8>) -> Option<Seq<u8>> {
    if m.contains_key(k) {
        Some(m[k])
    } else {
        None
    }
}

/// See [`Env::lookup_for_build`]; `fuel` bounds how deeply rule bindings may refer to each other.
pub open spec fn lookup_for_build_fuel(
    own: Map<Seq<u8>, Seq<u8>>,
    parent: Map<Seq<u8>, Seq<u8>>,
    rule: Seq<(Seq<u8>, Seq<crate::parse::ast::TermView>)>,
    name: Seq<u8>,
    fuel: nat,
) -> Option<Option<Seq<u8>>>
    decreases fuel, 0nat,
{
    if own.contains_key(name) {
        Some(Some(own[name]))
    } else {
        match crate::parse::ast::rule_lookup(rule, name) {
            Some(terms) => if fuel == 0 {
                None
            } else {
                match eval_for_build_fuel(own, parent, rule, terms, (fuel - 1) as nat) {
                    Some(v) => Some(Some(v)),
                    None => None,
                }
            },
            None => Some(map_get(parent, name)),
        }
    }
}

proof fn lemma_pairs_map_cons(s: Seq<(Vec<u8>, Vec<u8>)>)
    requires
        s.len() > 0,
    ensures
        pairs_map(s) == map_single(s[0]).union_prefer_right(pairs_map(s.drop_first())),
    decreases s.len(),
{
    if s.len() == 1 {
        assert(s.drop_first().len() == 0);
        assert(s.drop_last().len() == 0);
        assert(s.last() == s[0]);
        assert(pairs_map(s.drop_last()) == Map::<Seq<u8>, Seq<u8>>::empty());
        assert(pairs_map(s.drop_first()) == Map::<Seq<u8>, Seq<u8>>::empty());
        assert(pairs_map(s) =~= map_single(s[0]).union_prefer_right(pairs_map(s.drop_first())));
    } else {
        let a = s.drop_last();
        let b = s.drop_first();
        lemma_pairs_map_cons(a);
        assert(a[0] == s[0]);
        assert(a.drop_first() =~= b.drop_last());
        assert(b.last() == s.last());
        let c = b.drop_last();
        assert(pairs_map(a) == map_single(s[0]).union_prefer_right(pairs_map(c)));
        assert(pairs_map(b) == pairs_map(c).insert(s.last().0@, s.last().1@));
        assert(pairs_map(s) == pairs_map(a).insert(s.last().0@, s.last().1@));
        assert(pairs_map(s) =~= map_single(s[0]).union_prefer_right(pairs_map(s.drop_first())));
    }
}

pub open spec fn map_single(p: (Vec<u8>, Vec<u8>)) -> Map<Seq<u8>, Seq<u8>> {
    Map::empty().insert(p.0@, p.1@)
}

proof fn lemma_pairs_map_split(s: Seq<(Vec<u8>, Vec<u8>)>, i: int)
    requires
        0 <= i <= s.len(),
    ensures
        pairs_map(s) == pairs_map(s.take(i)).union_prefer_right(pairs_map(s.skip(i))),
    decreases s.len() - i,
{
    if i == s.len() {
        assert(s.take(i) =~= s);
        assert(s.skip(i).len() == 0);
        assert(pairs_map(s) =~= pairs_map(s.take(i)).union_prefer_right(pairs_map(s.skip(i))));
    } else {
        lemma_pairs_map_split(s, i + 1);
        let a = s.take(i);
        let b = s.take(i + 1);
        assert(b.drop_last() =~= a);
        assert(b.last() == s[i]);
        lemma_pairs_map_cons(s.skip(i));
        assert(s.skip(i).drop_first() =~= s.skip(i + 1));
        assert(s.skip(i)[0] == s[i]);
        assert(pairs_map(s) =~= pairs_map(s.take(i)).union_prefer_right(pairs_map(s.skip(i))));
    }
}

fn bytes_eq(a: &[u8], b: &[u8]) -> (r: bool)
    ensures
        r == (a@ == b@),
{
    crate::parse::lexer::bytes_eq(a, b)
}

/// Pairs with the same names and values, in the same order, bind the same.
proof fn lemma_pairs_map_same_views(a: Seq<(Vec<u8>, Vec<u8>)>, b: Seq<(Vec<u8>, Vec<u8>)>)
    requires
        a.len() == b.len(),
        forall|k: int| 0 <= k < a.len() ==> (#[trigger] a[k]).0@ == b[k].0@ && a[k].1@ == b[k].1@,
    ensures
        pairs_map(a) == pairs_map(b),
    decreases a.len(),
{
    if a.len() > 0 {
        lemma_pairs_map_same_views(a.drop_last(), b.drop_last());
        assert(a.last().0@ == b.last().0@);
    }
}

/// A binding is read back: after `add_binding(name, value)` (whose contract relates the two
/// scopes so), looking `name` up gives `value`, and every other name looks up as before.
pub proof fn law_lookup_after_binding(before: Env, after: Env, name: Seq<u8>, value: Seq<u8>)
    requires
        after.env_view() == before.env_view().insert(name, value),
    ensures
        after.env_view().contains_key(name),
        after.env_view()[name] == value,
        forall|n: Seq<u8>|
            n != name ==> (#[trigger] after.env_view().contains_key(n) == before.env_view().contains_key(n))
                && (before.env_view().contains_key(n) ==> after.env_view()[n] == before.env_view()[n]),
{
}

} // verus!
