//! Unevaluated expressions, rules and build edges as they are read from a `.ninja` file.
use crate::parse::env::{lookup_for_build_fuel, map_get, Env};
use vstd::prelude::*;

verus! {

#[derive(Debug)]
pub enum Term {
    Literal(Vec<u8>),
    Reference(Vec<u8>),
}

pub enum TermView {
    Literal(Seq<u8>),
    Reference(Seq<u8>),
}

pub open spec fn term_view(t: Term) -> TermView {
    match t {
        Term::Literal(v) => TermView::Literal(v@),
        Term::Reference(v) => TermView::Reference(v@),
    }
}

/// An expression: literal bytes and references to variables, to be concatenated.
#[derive(Debug)]
pub struct Expr(pub Vec<Term>);

pub open spec fn terms_view(v: Seq<Term>) -> Seq<TermView> {
    Seq::new(v.len(), |k: int| term_view(v[k]))
}

impl Expr {
    pub open spec fn view_terms(&self) -> Seq<TermView> {
        terms_view(self.0@)
    }
}

/// The value of one term in the bindings `env`; an unbound reference is empty.
pub open spec fn term_value(t: TermView, env: Map<Seq<u8>, Seq<u8>>) -> Seq<u8> {
    match t {
        TermView::Literal(b) => b,
        TermView::Reference(n) => if env.contains_key(n) {
            env[n]
        } else {
            Seq::empty()
        },
    }
}

/// The value of an expression in the bindings `env`: its terms' values, concatenated.
pub open spec fn eval_terms(terms: Seq<TermView>, env: Map<Seq<u8>, Seq<u8>>) -> Seq<u8>
    decreases terms.len(),
{
    if terms.len() == 0 {
        Seq::empty()
    } else {
        eval_terms(terms.drop_last(), env) + term_value(terms.last(), env)
    }
}

/// The binding of `name` in a rule's list of bindings (a later binding wins).
pub open spec fn rule_lookup(rule: Seq<(Seq<u8>, Seq<TermView>)>, name: Seq<u8>) -> Option<
    Seq<TermView>,
>
    decreases rule.len(),
{
    if rule.len() == 0 {
        None
    } else if rule.last().0 == name {
        Some(rule.last().1)
    } else {
        rule_lookup(rule.drop_last(), name)
    }
}

/// The value of an expression of a build edge that uses `rule`, where variables are looked up by
/// [`lookup_for_build_fuel`]. `None` means that rule bindings refer to each other more deeply than
/// `fuel` allows.
pub open spec fn eval_for_build_fuel(
    own: Map<Seq<u8>, Seq<u8>>,
    parent: Map<Seq<u8>, Seq<u8>>,
    rule: Seq<(Seq<u8>, Seq<TermView>)>,
    terms: Seq<TermView>,
    fuel: nat,
) -> Option<Seq<u8>>
    decreases fuel, terms.len(),
{
    if terms.len() == 0 {
        Some(Seq::empty())
    } else {
        match eval_for_build_fuel(own, parent, rule, terms.drop_last(), fuel) {
            None => None,
            Some(prefix) => match terms.last() {
                TermView::Literal(b) => Some(prefix + b),
                TermView::Reference(n) => match lookup_for_build_fuel(own, parent, rule, n, fuel) {
                    None => None,
                    Some(Some(v)) => Some(prefix + v),
                    Some(None) => Some(prefix),
                },
            },
        }
    }
}

impl Expr {
    /// Evaluates the expression in `env`. Unbound variables evaluate to nothing.
    pub fn eval(&self, env: &Env) -> (r: Vec<u8>)
        ensures
            r@ == eval_terms(self.view_terms(), env.env_view()),
    {
        let mut result: Vec<u8> = Vec::new();
        let mut k: usize = 0;
        while k < self.0.len()
            invariant
                k <= self.0@.len(),
                result@ == eval_terms(self.view_terms().take(k as int), env.env_view()),
            decreases self.0@.len() - k,
        {
            let ghost before = result@;
            match &self.0[k] {
                Term::Literal(bytes) => {
                    extend(&mut result, bytes.as_slice());
                },
                Term::Reference(name) => {
                    match env.lookup(name.as_slice()) {
                        Some(v) => extend(&mut result, v.as_slice()),
                        None => {},
                    }
                },
            }
            proof {
                let t = self.view_terms().take(k + 1);
                assert(t.drop_last() =~= self.view_terms().take(k as int));
                assert(t.last() == term_view(self.0@[k as int]));
                assert(result@ =~= eval_terms(t, env.env_view()));
            }
            k = k + 1;
        }
        assert(self.view_terms().take(self.0@.len() as int) =~= self.view_terms());
        result
    }

    /// Evaluates the expression for a build edge that uses `rule`: variables are looked up with
    /// [`Env::lookup_for_build`]. `None` means that the rule's bindings refer to each other in a
    /// cycle, which could never be expanded.
    pub fn eval_for_build(&self, env: &Env, rule: &Rule) -> (r: Option<Vec<u8>>)
        ensures
            opt_bytes_view(r) == eval_for_build_fuel(
                env.own_view(),
                env.parent_view(),
                rule.bindings_view(),
                self.view_terms(),
                rule.bindings@.len(),
            ),
    {
        self.eval_for_build_bounded(env, rule, rule.bindings.len())
    }

    pub fn eval_for_build_bounded(&self, env: &Env, rule: &Rule, fuel: usize) -> (r: Option<Vec<u8>>)
        ensures
            opt_bytes_view(r) == eval_for_build_fuel(
                env.own_view(),
                env.parent_view(),
                rule.bindings_view(),
                self.view_terms(),
                fuel as nat,
            ),
        decreases fuel, self.0@.len(),
    {
        let mut result: Vec<u8> = Vec::new();
        let mut k: usize = 0;
        let ghost own = env.own_view();
        let ghost parent = env.parent_view();
        let ghost rb = rule.bindings_view();
        while k < self.0.len()
            invariant
                k <= self.0@.len(),
                own == env.own_view(),
                parent == env.parent_view(),
                rb == rule.bindings_view(),
                eval_for_build_fuel(own, parent, rb, self.view_terms().take(k as int), fuel as nat)
                    == Some(result@),
            decreases self.0@.len() - k,
        {
            proof {
                let t = self.view_terms().take(k + 1);
                assert(t.drop_last() =~= self.view_terms().take(k as int));
                assert(t.last() == term_view(self.0@[k as int]));
            }
            match &self.0[k] {
                Term::Literal(bytes) => {
                    extend(&mut result, bytes.as_slice());
                },
                Term::Reference(name) => {
                    match env.lookup_for_build_bounded(rule, name.as_slice(), fuel) {
                        None => {
                            proof {
                                lemma_eval_none_extends(own, parent, rb, self.view_terms(), k + 1, fuel as nat);
                            }
                            return None;
                        },
                        Some(Some(v)) => extend(&mut result, v.as_slice()),
                        Some(None) => {},
                    }
                },
            }
            proof {
                let t = self.view_terms().take(k + 1);
                assert(result@ =~= eval_for_build_fuel(own, parent, rb, t, fuel as nat)->Some_0);
            }
            k = k + 1;
        }
        assert(self.view_terms().take(self.0@.len() as int) =~= self.view_terms());
        Some(result)
    }
}

proof fn lemma_eval_none_extends(
    own: Map<Seq<u8>, Seq<u8>>,
    parent: Map<Seq<u8>, Seq<u8>>,
    rule: Seq<(Seq<u8>, Seq<TermView>)>,
    terms: Seq<TermView>,
    k: int,
    fuel: nat,
)
    requires
        0 <= k <= terms.len(),
        eval_for_build_fuel(own, parent, rule, terms.take(k), fuel) is None,
    ensures
        eval_for_build_fuel(own, parent, rule, terms, fuel) is None,
    decreases terms.len() - k,
{
    if k < terms.len() {
        let t = terms.take(k + 1);
        assert(t.drop_last() =~= terms.take(k));
        lemma_eval_none_extends(own, parent, rule, terms, k + 1, fuel);
    } else {
        assert(terms.take(k) =~= terms);
    }
}

pub open spec fn opt_bytes_view(r: Option<Vec<u8>>) -> Option<Seq<u8>> {
    match r {
        Some(v) => Some(v@),
        None => None,
    }
}

/// Appends `bytes` to `v`.
pub fn extend(v: &mut Vec<u8>, bytes: &[u8])
    ensures
        final(v)@ == old(v)@ + bytes@,
{
    let mut i: usize = 0;
    let ghost start = v@;
    while i < bytes.len()
        invariant
            i <= bytes@.len(),
            v@ == start + bytes@.take(i as int),
        decreases bytes@.len() - i,
    {
        v.push(bytes[i]);
        proof {
            assert(bytes@.take(i + 1) =~= bytes@.take(i as int).push(bytes@[i as int]));
        }
        i = i + 1;
    }
    assert(bytes@.take(bytes@.len() as int) =~= bytes@);
}

#[derive(Debug)]
pub struct Rule {
    pub name: Vec<u8>,
    /// The rule's bindings; a later binding of a name replaces an earlier one.
    pub bindings: Vec<(Vec<u8>, Expr)>,
}

impl Rule {
    pub open spec fn bindings_view(&self) -> Seq<(Seq<u8>, Seq<TermView>)> {
        Seq::new(self.bindings@.len(), |k: int| (self.bindings@[k].0@, self.bindings@[k].1.view_terms()))
    }

    /// The rule's binding of `name`.
    pub fn binding(&self, name: &[u8]) -> (r: Option<&Expr>)
        ensures
            match rule_lookup(self.bindings_view(), name@) {
                Some(t) => r is Some && r->Some_0.view_terms() == t,
                None => r is None,
            },
    {
        let mut i = self.bindings.len();
        assert(self.bindings_view().take(i as int) =~= self.bindings_view());
        while i > 0
            invariant
                i <= self.bindings@.len(),
                rule_lookup(self.bindings_view(), name@) == rule_lookup(
                    self.bindings_view().take(i as int),
                    name@,
                ),
            decreases i,
        {
            let ghost t = self.bindings_view().take(i as int);
            assert(t.drop_last() =~= self.bindings_view().take(i - 1));
            if crate::parse::lexer::bytes_eq(self.bindings[i - 1].0.as_slice(), name) {
                return Some(&self.bindings[i - 1].1);
            }
            i = i - 1;
        }
        None
    }
}

#[derive(Debug, Default)]
pub struct Build {
    pub rule: Vec<u8>,
    // These will become structs once we discriminate inputs and outputs.
    pub inputs: Vec<Expr>,
    pub implicit_inputs: Vec<Expr>,
    pub order_inputs: Vec<Expr>,
    pub outputs: Vec<Expr>,
    pub bindings: Env,
}

} // verus!
