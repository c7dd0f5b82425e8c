//! Lexing, parsing and evaluation of `.ninja` files.
//!
//! A parse is stateful: top-level bindings are evaluated as soon as they are read, rules are
//! collected, and each build edge is evaluated (its paths and its command) when it is read.

pub mod ast;
pub mod env;
pub mod lexer;
pub mod parser;
pub mod repr;
pub mod stream;

use crate::parse::ast::{
    eval_for_build_fuel, eval_terms, extend, rule_lookup, Expr, Rule, TermView,
};
use crate::parse::env::Env;
use crate::parse::lexer::Position;
use crate::parse::parser::{
    outcome_error_matches, parse_top, parse_with, IncludeLoad, ParseError, ParseOutcome, Parser,
};
use crate::parse::repr::{
    build_view, builds_view, defaults_view, paths_view, Action, ActionView, Build, BuildView,
    Description,
};
use vstd::prelude::*;
use vstd::utf8::{decode_utf8, valid_utf8};

verus! {

#[verifier::external_type_specification]
#[verifier::external_body]
pub struct ExUtf8Error(std::str::Utf8Error);

#[verifier::external_type_specification]
#[verifier::external_body]
pub struct ExFromUtf8Error(std::string::FromUtf8Error);

#[verifier::external_type_specification]
#[verifier::external_body]
pub struct ExIoError(std::io::Error);

/// `std::str::from_utf8`: succeeds exactly on valid UTF-8, with the decoded characters.
#[verifier::external_body]
pub(crate) fn str_from_utf8(v: &[u8]) -> (r: Result<&str, std::str::Utf8Error>)
    ensures
        r is Ok <==> valid_utf8(v@),
        r matches Ok(s) ==> s@ == decode_utf8(v@),
{
    std::str::from_utf8(v)
}

/// `String::from_utf8`: succeeds exactly on valid UTF-8, with the decoded characters.
#[verifier::external_body]
pub(crate) fn string_from_utf8(v: Vec<u8>) -> (r: Result<String, std::string::FromUtf8Error>)
    ensures
        r is Ok <==> valid_utf8(v@),
        r matches Ok(s) ==> s@ == decode_utf8(v@),
{
    String::from_utf8(v)
}

/// `std::io::Error::new` with the kind `InvalidData`, for a file too large to read.
#[verifier::external_body]
pub(crate) fn too_large_error() -> std::io::Error {
    std::io::Error::new(std::io::ErrorKind::InvalidData, "file too large")
}

/// Reads the contents of a `.ninja` file. `from` names the file that asks (if any) and `request`
/// the file asked for, as it was written there.
pub trait Loader {
    fn load(&mut self, from: Option<&[u8]>, request: &[u8]) -> Result<Vec<u8>, std::io::Error>;
}

/// One load: the asking file, the file asked for, and the contents returned (none on failure).
pub struct LoadRecord {
    pub from: Option<Seq<u8>>,
    pub request: Seq<u8>,
    pub contents: Option<Seq<u8>>,
}

/// The record of a call `load(from, request)` that returned `r`.
pub open spec fn load_record(
    from: Option<&[u8]>,
    request: &[u8],
    r: Result<Vec<u8>, std::io::Error>,
) -> LoadRecord {
    LoadRecord {
        from: match from {
            Some(f) => Some(f@),
            None => None,
        },
        request: request@,
        contents: match r {
            Ok(c) => Some(c@),
            Err(_) => None,
        },
    }
}

/// A loader, with the record of every load asked of it through this log, in order.
pub struct LoadLog<L: Loader> {
    loader: L,
    made: Ghost<Seq<LoadRecord>>,
}

impl<L: Loader> LoadLog<L> {
    /// The loads asked for so far, in order.
    pub closed spec fn loads_made(&self) -> Seq<LoadRecord> {
        self.made@
    }

    /// Starts a log of the loads asked of `loader`.
    pub fn new(loader: L) -> (r: Self)
        ensures
            r.loads_made() == Seq::<LoadRecord>::empty(),
    {
        LoadLog { loader, made: Ghost(Seq::empty()) }
    }

    /// The loader itself.
    pub fn loader(&self) -> &L {
        &self.loader
    }

    /// Asks the loader for `request` on behalf of `from`, and records the load.
    pub fn load(&mut self, from: Option<&[u8]>, request: &[u8]) -> (r: Result<Vec<u8>, std::io::Error>)
        ensures
            final(self).loads_made() == old(self).loads_made().push(load_record(from, request, r)),
    {
        let r = self.loader.load(from, request);
        self.made = Ghost(self.made@.push(load_record(from, request, r)));
        r
    }
}

#[derive(Debug)]
pub struct ProcessingErrorWithPosition {
    pub inner: ProcessingError,
    pub position: Position,
}

#[derive(Debug)]
pub enum ProcessingError {
    Utf8Error(std::str::Utf8Error),
    StringUtf8Error(std::string::FromUtf8Error),
    DuplicateRule(String),
    DuplicateOutput(String),
    UnknownRule(String),
    MissingCommand(String),
    /// The bindings of the named rule refer to each other in a cycle, so its command can never be
    /// expanded.
    CyclicRuleBindings(String),
    /// Files include each other more deeply than [`MAX_INCLUDE_DEPTH`] allows (in a cycle, most
    /// likely).
    IncludeTooDeep,
    ParseFailed(ParseError),
    IoError(std::io::Error),
    WithPosition(Box<ProcessingErrorWithPosition>),
}

/// How deeply `include` statements may nest.
pub const MAX_INCLUDE_DEPTH: usize = 256;

impl ProcessingError {
    pub fn with_position(self, position: Position) -> (r: ProcessingErrorWithPosition)
        ensures
            r.inner == self,
            r.position == position,
    {
        ProcessingErrorWithPosition { inner: self, position }
    }

    pub fn with_position_boxed(self, position: Position) -> (r: Box<ProcessingErrorWithPosition>)
        ensures
            r.inner == self,
            r.position == position,
    {
        Box::new(self.with_position(position))
    }
}

/// The errors of processing a build description, with names as bytes.
pub enum ErrorView {
    /// A parse error at a byte offset, with its message.
    ParseFailed(int, Seq<char>),
    DuplicateRule(Seq<u8>),
    DuplicateOutput(Seq<u8>),
    UnknownRule(Seq<u8>),
    MissingCommand(Seq<u8>),
    CyclicRuleBindings(Seq<u8>),
    /// The command of a build edge is not UTF-8.
    CommandNotUtf8,
}

/// A name of an error as text: its decoding when it is UTF-8.
pub open spec fn named_error(
    s: String,
    name: Seq<u8>,
) -> bool {
    s@ == decode_utf8(name)
}

/// Whether `e` is the error `v` (parse errors are compared by [`parse_error_matches`] elsewhere).
pub open spec fn error_matches(e: ProcessingError, v: ErrorView) -> bool {
    match v {
        ErrorView::DuplicateRule(n) => if valid_utf8(n) {
            e matches ProcessingError::DuplicateRule(s) && named_error(s, n)
        } else {
            e is Utf8Error
        },
        ErrorView::DuplicateOutput(n) => if valid_utf8(n) {
            e matches ProcessingError::DuplicateOutput(s) && named_error(s, n)
        } else {
            e is StringUtf8Error
        },
        ErrorView::UnknownRule(n) => if valid_utf8(n) {
            e matches ProcessingError::UnknownRule(s) && named_error(s, n)
        } else {
            e is Utf8Error
        },
        ErrorView::MissingCommand(n) => if valid_utf8(n) {
            e matches ProcessingError::MissingCommand(s) && named_error(s, n)
        } else {
            e is Utf8Error
        },
        ErrorView::CyclicRuleBindings(n) => if valid_utf8(n) {
            e matches ProcessingError::CyclicRuleBindings(s) && named_error(s, n)
        } else {
            e is Utf8Error
        },
        ErrorView::CommandNotUtf8 => e is StringUtf8Error,
        ErrorView::ParseFailed(_, _) => e is ParseFailed,
    }
}

/// The bytes of `phony`, the built-in rule.
pub open spec fn phony_name() -> Seq<u8> {
    seq![112u8, 104, 111, 110, 121]
}

pub open spec fn command_name() -> Seq<u8> {
    seq![99u8, 111, 109, 109, 97, 110, 100]
}

/// A rule: its name and its bindings.
pub type RuleView = (Seq<u8>, Seq<(Seq<u8>, Seq<TermView>)>);

pub open spec fn rule_view(r: Rule) -> RuleView {
    (r.name@, r.bindings_view())
}

pub open spec fn rules_view(v: Seq<Rule>) -> Seq<RuleView> {
    Seq::new(v.len(), |k: int| rule_view(v[k]))
}

/// The rule named `name` in `rules`, if any.
pub open spec fn find_rule(rules: Seq<RuleView>, name: Seq<u8>) -> Option<RuleView>
    decreases rules.len(),
{
    if rules.len() == 0 {
        None
    } else if rules.last().0 == name {
        Some(rules.last())
    } else {
        find_rule(rules.drop_last(), name)
    }
}

/// A build edge as it was read: its rule, its input and output expressions and the bindings in
/// scope (the top-level bindings with the edge's own on top).
pub struct BuildAstView {
    pub rule: Seq<u8>,
    pub inputs: Seq<Seq<TermView>>,
    pub implicit_inputs: Seq<Seq<TermView>>,
    pub order_inputs: Seq<Seq<TermView>>,
    pub outputs: Seq<Seq<TermView>>,
    pub env: Map<Seq<u8>, Seq<u8>>,
}

pub open spec fn exprs_view(v: Seq<Expr>) -> Seq<Seq<TermView>> {
    Seq::new(v.len(), |k: int| v[k].view_terms())
}

pub open spec fn build_ast_view(b: crate::parse::ast::Build) -> BuildAstView {
    BuildAstView {
        rule: b.rule@,
        inputs: exprs_view(b.inputs@),
        implicit_inputs: exprs_view(b.implicit_inputs@),
        order_inputs: exprs_view(b.order_inputs@),
        outputs: exprs_view(b.outputs@),
        env: b.bindings.env_view(),
    }
}

/// The values of a list of expressions.
pub open spec fn eval_all(v: Seq<Seq<TermView>>, env: Map<Seq<u8>, Seq<u8>>) -> Seq<Seq<u8>> {
    Seq::new(v.len(), |k: int| eval_terms(v[k], env))
}

/// The outputs of an edge that are recorded as seen while it is read: those before its first
/// duplicate, or all of them where there is none.
pub open spec fn outputs_before_duplicate(seen: Set<Seq<u8>>, outs: Seq<Seq<u8>>) -> Seq<Seq<u8>>
    decreases outs.len(),
{
    if outs.len() == 0 {
        outs
    } else if first_duplicate(seen, outs.drop_last()) is Some {
        outputs_before_duplicate(seen, outs.drop_last())
    } else if seen.contains(outs.last()) || outs.drop_last().contains(outs.last()) {
        outs.drop_last()
    } else {
        outs
    }
}

/// The state after an edge is refused: its outputs up to its first duplicate are recorded as
/// seen, and nothing else changes.
pub open spec fn failed_edge_state(st: StateView, b: BuildAstView) -> StateView {
    StateView {
        outputs: st.outputs.union(
            outputs_before_duplicate(st.outputs, eval_all(b.outputs, b.env)).to_set(),
        ),
        ..st
    }
}

/// Paths joined by single spaces.
pub open spec fn join_paths(s: Seq<Seq<u8>>) -> Seq<u8>
    decreases s.len(),
{
    if s.len() == 0 {
        Seq::empty()
    } else if s.len() == 1 {
        s[0]
    } else {
        join_paths(s.drop_last()) + seq![32u8] + s.last()
    }
}

/// The first path of `outs` that is in `seen` or occurs earlier in `outs`.
pub open spec fn first_duplicate(seen: Set<Seq<u8>>, outs: Seq<Seq<u8>>) -> Option<Seq<u8>>
    decreases outs.len(),
{
    if outs.len() == 0 {
        None
    } else {
        match first_duplicate(seen, outs.drop_last()) {
            Some(o) => Some(o),
            None => if seen.contains(outs.last()) || outs.drop_last().contains(outs.last()) {
                Some(outs.last())
            } else {
                None
            },
        }
    }
}

/// The state of a parse.
pub struct StateView {
    pub rules: Seq<RuleView>,
    pub outputs: Set<Seq<u8>>,
    pub builds: Seq<BuildView>,
    pub defaults: Option<Set<Seq<u8>>>,
    pub env: Map<Seq<u8>, Seq<u8>>,
}

/// Adding a rule fails if a rule of that name exists (`phony` always does).
pub open spec fn add_rule_spec(st: StateView, rule: RuleView) -> Result<StateView, ErrorView> {
    if find_rule(st.rules, rule.0) is Some {
        Err(ErrorView::DuplicateRule(rule.0))
    } else {
        Ok(StateView { rules: st.rules.push(rule), ..st })
    }
}

/// The action of a build edge that uses the rule named `rule_name`, with outputs `outs`, inputs
/// `ins` and the bindings `env` in scope: `phony` is a phony action; otherwise the rule's command
/// is evaluated with `$out` and `$in` bound to the space separated outputs and inputs.
pub open spec fn action_spec(
    rules: Seq<RuleView>,
    rule_name: Seq<u8>,
    outs: Seq<Seq<u8>>,
    ins: Seq<Seq<u8>>,
    env: Map<Seq<u8>, Seq<u8>>,
) -> Result<ActionView, ErrorView> {
    if rule_name == phony_name() {
        Ok(ActionView::Phony)
    } else {
        match find_rule(rules, rule_name) {
            None => Err(ErrorView::UnknownRule(rule_name)),
            Some(rule) => match rule_lookup(rule.1, command_name()) {
                None => Err(ErrorView::MissingCommand(rule.0)),
                Some(command) => {
                    let own = Map::<Seq<u8>, Seq<u8>>::empty().insert(
                        seq![111u8, 117, 116],
                        join_paths(outs),
                    ).insert(seq![105u8, 110], join_paths(ins));
                    match eval_for_build_fuel(own, env, rule.1, command, rule.1.len()) {
                        None => Err(ErrorView::CyclicRuleBindings(rule.0)),
                        Some(bytes) => if valid_utf8(bytes) {
                            Ok(ActionView::Command(decode_utf8(bytes)))
                        } else {
                            Err(ErrorView::CommandNotUtf8)
                        },
                    }
                },
            },
        }
    }
}

/// Adding a build edge evaluates its paths in its scope, fails on an output that an earlier edge
/// (or this one) already has, and evaluates its action.
pub open spec fn add_build_edge_spec(st: StateView, b: BuildAstView) -> Result<StateView, ErrorView> {
    let outs = eval_all(b.outputs, b.env);
    let ins = eval_all(b.inputs, b.env);
    match first_duplicate(st.outputs, outs) {
        Some(o) => Err(ErrorView::DuplicateOutput(o)),
        None => match action_spec(st.rules, b.rule, outs, ins, b.env) {
            Err(e) => Err(e),
            Ok(action) => Ok(
                StateView {
                    outputs: st.outputs.union(outs.to_set()),
                    builds: st.builds.push(
                        BuildView {
                            action,
                            inputs: ins,
                            implicit_inputs: eval_all(b.implicit_inputs, b.env),
                            order_inputs: eval_all(b.order_inputs, b.env),
                            outputs: outs,
                        },
                    ),
                    ..st
                },
            ),
        },
    }
}

/// An accepted build edge adds one build after the others, which stay as they were; its
/// outputs, inputs, implicit inputs and order-only inputs are its expressions each evaluated in
/// the edge's own bindings (with those of the scopes around it), in order; and it is phony
/// exactly when its rule is `phony`.
pub proof fn law_edge_paths_evaluated_in_its_scope(st: StateView, b: BuildAstView)
    requires
        add_build_edge_spec(st, b) is Ok,
    ensures
        ({
            let builds = add_build_edge_spec(st, b)->Ok_0.builds;
            let nb = builds.last();
            &&& builds.len() == st.builds.len() + 1
            &&& builds.drop_last() == st.builds
            &&& nb.outputs.len() == b.outputs.len()
            &&& nb.inputs.len() == b.inputs.len()
            &&& nb.implicit_inputs.len() == b.implicit_inputs.len()
            &&& nb.order_inputs.len() == b.order_inputs.len()
            &&& forall|k: int| 0 <= k < b.outputs.len() ==> #[trigger] nb.outputs[k] == eval_terms(b.outputs[k], b.env)
            &&& forall|k: int| 0 <= k < b.inputs.len() ==> #[trigger] nb.inputs[k] == eval_terms(b.inputs[k], b.env)
            &&& forall|k: int|
                0 <= k < b.implicit_inputs.len() ==> #[trigger] nb.implicit_inputs[k] == eval_terms(
                    b.implicit_inputs[k],
                    b.env,
                )
            &&& forall|k: int|
                0 <= k < b.order_inputs.len() ==> #[trigger] nb.order_inputs[k] == eval_terms(
                    b.order_inputs[k],
                    b.env,
                )
            &&& (nb.action is Phony) == (b.rule == phony_name())
        }),
{
    let builds = add_build_edge_spec(st, b)->Ok_0.builds;
    assert(builds.drop_last() =~= st.builds);
}

pub struct ParseState {
    known_rules: Vec<Rule>,
    outputs_seen: Vec<Vec<u8>>,
    description: Description,
    bindings: Env,
}

impl Default for ParseState {
    /// The same state as `ParseState::new`.
    fn default() -> (r: ParseState)
        ensures
            r.wf(),
            r.view().rules == seq![(phony_name(), Seq::<(Seq<u8>, Seq<TermView>)>::empty())],
            r.view().outputs == Set::<Seq<u8>>::empty(),
            r.view().builds == Seq::<BuildView>::empty(),
            r.view().defaults is None,
            r.view().env == Map::<Seq<u8>, Seq<u8>>::empty(),
    {
        ParseState::new()
    }
}

impl ParseState {
    pub closed spec fn view(&self) -> StateView {
        StateView {
            rules: rules_view(self.known_rules@),
            outputs: paths_view(self.outputs_seen@).to_set(),
            builds: builds_view(self.description.builds@),
            defaults: defaults_view(self.description.defaults),
            env: self.bindings.env_view(),
        }
    }

    pub closed spec fn wf(&self) -> bool {
        &&& self.description.wf()
        &&& self.known_rules@.len() >= 1
        &&& self.known_rules@[0].name@ == phony_name()
        &&& outputs_tracked(self.view())
    }

    /// A fresh state: only the built-in `phony` rule, no outputs, builds or bindings.
    pub fn new() -> (r: ParseState)
        ensures
            r.wf(),
            r.view().rules == seq![(phony_name(), Seq::<(Seq<u8>, Seq<TermView>)>::empty())],
            r.view().outputs == Set::<Seq<u8>>::empty(),
            r.view().builds == Seq::<BuildView>::empty(),
            r.view().defaults is None,
            r.view().env == Map::<Seq<u8>, Seq<u8>>::empty(),
    {
        let mut rules: Vec<Rule> = Vec::new();
        // Insert built-in rules.
        rules.push(Rule { name: phony_vec(), bindings: Vec::new() });
        let r = ParseState {
            known_rules: rules,
            outputs_seen: Vec::new(),
            description: Description { builds: Vec::new(), defaults: None },
            bindings: Env::new(),
        };
        proof {
            assert(r.known_rules@[0].bindings_view() =~= Seq::<(Seq<u8>, Seq<TermView>)>::empty());
            assert(r.view().rules =~= seq![(phony_name(), Seq::<(Seq<u8>, Seq<TermView>)>::empty())]);
            assert(r.view().outputs =~= Set::<Seq<u8>>::empty());
            assert(r.view().builds =~= Seq::<BuildView>::empty());
        }
        r
    }

    /// The top-level bindings.
    pub fn bindings(&self) -> (r: &Env)
        ensures
            r.env_view() == self.view().env,
    {
        &self.bindings
    }

    /// Binds a top-level variable.
    pub fn add_top_binding(&mut self, name: Vec<u8>, value: Vec<u8>)
        requires
            old(self).wf(),
        ensures
            final(self).wf(),
            final(self).view() == (StateView {
                env: old(self).view().env.insert(name@, value@),
                ..old(self).view()
            }),
    {
        self.bindings.add_binding(name, value);
    }

    /// A copy of the top-level bindings.
    pub fn top_env(&self) -> (r: Env)
        ensures
            r.env_view() == self.view().env,
    {
        self.bindings.clone_env()
    }

    fn find_rule(&self, name: &[u8]) -> (r: Option<&Rule>)
        ensures
            match find_rule(self.view().rules, name@) {
                Some(rv) => r is Some && rule_view(*r->Some_0) == rv,
                None => r is None,
            },
    {
        let mut i = self.known_rules.len();
        assert(rules_view(self.known_rules@).take(i as int) =~= rules_view(self.known_rules@));
        while i > 0
            invariant
                i <= self.known_rules@.len(),
                find_rule(self.view().rules, name@) == find_rule(
                    rules_view(self.known_rules@).take(i as int),
                    name@,
                ),
            decreases i,
        {
            let ghost t = rules_view(self.known_rules@).take(i as int);
            assert(t.drop_last() =~= rules_view(self.known_rules@).take(i - 1));
            if crate::parse::lexer::bytes_eq(self.known_rules[i - 1].name.as_slice(), name) {
                return Some(&self.known_rules[i - 1]);
            }
            i = i - 1;
        }
        None
    }

    pub fn add_rule(&mut self, rule: Rule) -> (r: Result<(), ProcessingError>)
        requires
            old(self).wf(),
        ensures
            final(self).wf(),
            match add_rule_spec(old(self).view(), rule_view(rule)) {
                Ok(st) => r is Ok && final(self).view() == st,
                Err(e) => r matches Err(err) && error_matches(err, e) && final(self).view()
                    == old(self).view(),
            },
    {
        if self.find_rule(rule.name.as_slice()).is_some() {
            match str_from_utf8(rule.name.as_slice()) {
                Ok(s) => Err(ProcessingError::DuplicateRule(s.to_owned())),
                Err(e) => Err(ProcessingError::Utf8Error(e)),
            }
        } else {
            let ghost old_rules = self.known_rules@;
            self.known_rules.push(rule);
            proof {
                assert(rules_view(self.known_rules@) =~= rules_view(old_rules).push(rule_view(rule)));
            }
            Ok(())
        }
    }

    /// Whether `output` is among the outputs seen so far.
    fn seen_output(&self, output: &[u8]) -> (r: bool)
        ensures
            r == self.view().outputs.contains(output@),
    {
        let mut i: usize = 0;
        while i < self.outputs_seen.len()
            invariant
                i <= self.outputs_seen@.len(),
                forall|k: int| 0 <= k < i ==> self.outputs_seen@[k]@ != output@,
            decreases self.outputs_seen@.len() - i,
        {
            if crate::parse::lexer::bytes_eq(self.outputs_seen[i].as_slice(), output) {
                assert(paths_view(self.outputs_seen@)[i as int] == output@);
                return true;
            }
            i = i + 1;
        }
        assert(!paths_view(self.outputs_seen@).contains(output@));
        false
    }

    pub fn add_build_edge(&mut self, build: crate::parse::ast::Build) -> (r: Result<(), ProcessingError>)
        requires
            old(self).wf(),
        ensures
            final(self).wf(),
            match add_build_edge_spec(old(self).view(), build_ast_view(build)) {
                Ok(st) => r is Ok && final(self).view() == st,
                Err(e) => r matches Err(err) && error_matches(err, e) && final(self).view()
                    == failed_edge_state(old(self).view(), build_ast_view(build)),
            },
    {
        let ghost bv = build_ast_view(build);
        let ghost st0 = self.view();
        let evaluated_outputs = eval_exprs(&build.outputs, &build.bindings);
        let ghost outs = paths_view(evaluated_outputs@);
        // Each output is recorded as seen in turn; the first that an earlier build edge (or this
        // one) has too is refused.
        let mut i: usize = 0;
        while i < evaluated_outputs.len()
            invariant
                *self == *old(self),
                self.wf(),
                st0 == self.view(),
                bv == build_ast_view(build),
                i <= evaluated_outputs@.len(),
                outs == paths_view(evaluated_outputs@),
                outs == eval_all(bv.outputs, bv.env),
                first_duplicate(self.view().outputs, outs.take(i as int)) is None,
            decreases evaluated_outputs@.len() - i,
        {
            assert(outs.take(i + 1).drop_last() =~= outs.take(i as int));
            assert(outs.take(i + 1).last() == outs[i as int]);
            let output = evaluated_outputs[i].as_slice();
            let dup = self.seen_output(output) || contains_path(&evaluated_outputs, i, output);
            if dup {
                proof {
                    lemma_first_duplicate_prefix(st0.outputs, outs, i + 1);
                    lemma_before_duplicate_prefix(st0.outputs, outs, i + 1);
                }
                let err = match string_from_utf8(evaluated_outputs[i].clone()) {
                    Ok(s) => ProcessingError::DuplicateOutput(s),
                    Err(e) => ProcessingError::StringUtf8Error(e),
                };
                self.record_outputs(&evaluated_outputs, i);
                return Err(err);
            }
            i = i + 1;
        }
        proof {
            assert(outs.take(evaluated_outputs@.len() as int) =~= outs);
            lemma_before_no_duplicate(st0.outputs, outs);
        }
        let evaluated_inputs = eval_exprs(&build.inputs, &build.bindings);
        let evaluated_implicit_inputs = eval_exprs(&build.implicit_inputs, &build.bindings);
        let evaluated_order_inputs = eval_exprs(&build.order_inputs, &build.bindings);

        // `$out` and `$in` are bound for the command, unquoted.
        let action: Result<Action, ProcessingError> = if crate::parse::lexer::bytes_eq(
            build.rule.as_slice(),
            &[112u8, 104, 111, 110, 121],
        ) {
            Ok(Action::Phony)
        } else {
            let rule = self.find_rule(build.rule.as_slice());
            match rule {
                None => match str_from_utf8(build.rule.as_slice()) {
                    Ok(s) => Err(ProcessingError::UnknownRule(s.to_owned())),
                    Err(e) => Err(ProcessingError::Utf8Error(e)),
                },
                Some(rule) => {
                    let command = rule.binding(&[99u8, 111, 109, 109, 97, 110, 100]);
                    match command {
                        None => match str_from_utf8(rule.name.as_slice()) {
                            Ok(s) => Err(ProcessingError::MissingCommand(s.to_owned())),
                            Err(e) => Err(ProcessingError::Utf8Error(e)),
                        },
                        Some(command) => {
                            let mut env = Env::with_parent(build.bindings.clone_env());
                            env.add_binding(vec![111u8, 117, 116], space_seperated_paths(&evaluated_outputs));
                            env.add_binding(vec![105u8, 110], space_seperated_paths(&evaluated_inputs));
                            proof {
                                assert(env.own_view() =~= Map::<Seq<u8>, Seq<u8>>::empty().insert(
                                    seq![111u8, 117, 116],
                                    join_paths(paths_view(evaluated_outputs@)),
                                ).insert(seq![105u8, 110], join_paths(paths_view(evaluated_inputs@))));
                            }
                            match command.eval_for_build(&env, rule) {
                                None => match str_from_utf8(rule.name.as_slice()) {
                                    Ok(s) => Err(ProcessingError::CyclicRuleBindings(s.to_owned())),
                                    Err(e) => Err(ProcessingError::Utf8Error(e)),
                                },
                                Some(bytes) => match string_from_utf8(bytes) {
                                    Ok(s) => Ok(Action::Command(s)),
                                    Err(e) => Err(ProcessingError::StringUtf8Error(e)),
                                },
                            }
                        },
                    }
                },
            }
        };
        let ghost old_builds = self.description.builds@;
        self.record_outputs(&evaluated_outputs, evaluated_outputs.len());
        let action = match action {
            Ok(a) => a,
            Err(e) => {
                return Err(e);
            },
        };
        let b = Build {
            action,
            inputs: evaluated_inputs,
            implicit_inputs: evaluated_implicit_inputs,
            order_inputs: evaluated_order_inputs,
            outputs: evaluated_outputs,
        };
        self.description.builds.push(b);
        proof {
            assert(builds_view(self.description.builds@) =~= builds_view(old_builds).push(build_view(b)));
            law_outputs_stay_distinct(st0, bv);
            assert(self.view() == add_build_edge_spec(st0, bv)->Ok_0);
        }
        Ok(())
    }

    /// Records the first `n` of `outs` as seen outputs.
    fn record_outputs(&mut self, outs: &Vec<Vec<u8>>, n: usize)
        requires
            old(self).wf(),
            n <= outs@.len(),
        ensures
            final(self).view() == (StateView {
                outputs: old(self).view().outputs.union(paths_view(outs@).take(n as int).to_set()),
                ..old(self).view()
            }),
            final(self).description == old(self).description,
            final(self).wf(),
    {
        let ghost old_outputs = self.outputs_seen@;
        append_paths(&mut self.outputs_seen, outs, n);
        proof {
            vstd::seq_lib::seq_to_set_distributes_over_add(
                paths_view(old_outputs),
                paths_view(outs@).take(n as int),
            );
            let st = self.view();
            assert forall|i: int, j: int| 0 <= i < st.builds.len() && 0 <= j < st.builds[i].outputs.len() implies st.outputs.contains(
                #[trigger] st.builds[i].outputs[j],
            ) by {
                assert(old(self).view().outputs.contains(old(self).view().builds[i].outputs[j]));
            }
        }
    }

    /// Adds a default target (once).
    pub fn add_default(&mut self, entries: Vec<u8>)
        requires
            old(self).wf(),
        ensures
            final(self).wf(),
            final(self).view() == (StateView {
                defaults: Some(
                    match old(self).view().defaults {
                        Some(s) => s,
                        None => Set::<Seq<u8>>::empty(),
                    }.insert(entries@),
                ),
                ..old(self).view()
            }),
    {
        let ghost old_view = self.view();
        match &mut self.description.defaults {
            Some(v) => {
                let ghost old_v = v@;
                let mut found = false;
                let mut i: usize = 0;
                while i < v.len()
                    invariant
                        i <= v@.len(),
                        found == exists|k: int| 0 <= k < i && #[trigger] v@[k]@ == entries@,
                    decreases v@.len() - i,
                {
                    if crate::parse::lexer::bytes_eq(v[i].as_slice(), entries.as_slice()) {
                        found = true;
                    }
                    i = i + 1;
                }
                if !found {
                    v.push(entries);
                    proof {
                        assert(paths_view(v@) =~= paths_view(old_v).push(entries@));
                        assert(!paths_view(old_v).contains(entries@));
                    }
                } else {
                    proof {
                        let k = choose|k: int| 0 <= k < old_v.len() && #[trigger] old_v[k]@ == entries@;
                        assert(paths_view(old_v)[k] == entries@);
                    }
                }
                proof {
                    if !found {
                        paths_view(old_v).lemma_push_to_set_commute(entries@);
                    } else {
                        assert(paths_view(v@).to_set().insert(entries@) =~= paths_view(v@).to_set());
                    }
                }
            },
            None => {
                let mut v: Vec<Vec<u8>> = Vec::new();
                v.push(entries);
                proof {
                    assert(paths_view(v@) =~= Seq::<Seq<u8>>::empty().push(entries@));
                    Seq::<Seq<u8>>::empty().lemma_push_to_set_commute(entries@);
                    assert(Seq::<Seq<u8>>::empty().to_set() =~= Set::<Seq<u8>>::empty());
                }
                self.description.defaults = Some(v);
            },
        }
    }

    pub fn into_description(self) -> (r: Description)
        requires
            self.wf(),
        ensures
            r.wf(),
            builds_view(r.builds@) == self.view().builds,
            defaults_view(r.defaults) == self.view().defaults,
            crate::builder::task::outputs_distinct(builds_view(r.builds@)),
    {
        self.description
    }
}

/// Whether `p` occurs among the first `n` paths of `v`.
pub(crate) fn contains_path(v: &Vec<Vec<u8>>, n: usize, p: &[u8]) -> (r: bool)
    requires
        n <= v@.len(),
    ensures
        r == paths_view(v@).take(n as int).contains(p@),
{
    let mut i: usize = 0;
    while i < n
        invariant
            i <= n <= v@.len(),
            forall|k: int| 0 <= k < i ==> v@[k]@ != p@,
        decreases n - i,
    {
        if crate::parse::lexer::bytes_eq(v[i].as_slice(), p) {
            assert(paths_view(v@).take(n as int)[i as int] == p@);
            return true;
        }
        i = i + 1;
    }
    assert(!paths_view(v@).take(n as int).contains(p@));
    false
}

/// No path is new to `seen` twice: `outs` repeats nothing and meets nothing of `seen`.
pub proof fn lemma_no_duplicate(seen: Set<Seq<u8>>, outs: Seq<Seq<u8>>)
    requires
        first_duplicate(seen, outs) is None,
    ensures
        forall|j: int| 0 <= j < outs.len() ==> !seen.contains(#[trigger] outs[j]),
        outs.no_duplicates(),
    decreases outs.len(),
{
    if outs.len() > 0 {
        let d = outs.drop_last();
        lemma_no_duplicate(seen, d);
        assert forall|j: int| 0 <= j < outs.len() implies !seen.contains(#[trigger] outs[j]) by {
            if j < d.len() {
                assert(outs[j] == d[j]);
            }
        }
        assert forall|a: int, b: int| 0 <= a < b < outs.len() implies outs[a] != outs[b] by {
            if b < d.len() {
                assert(outs[a] == d[a] && outs[b] == d[b]);
            } else {
                assert(outs[a] == d[a]);
                assert(outs[b] == outs.last());
            }
        }
    }
}

/// The outputs a state records are those of its build edges, and no path is the output of two
/// edges or twice of one.
pub open spec fn outputs_tracked(st: StateView) -> bool {
    &&& crate::builder::task::outputs_distinct(st.builds)
    &&& forall|i: int, j: int|
        0 <= i < st.builds.len() && 0 <= j < st.builds[i].outputs.len() ==> st.outputs.contains(
            #[trigger] st.builds[i].outputs[j],
        )
}

/// Build edges never share an output: adding an edge to a state whose outputs are tracked keeps
/// them tracked, and so does refusing one (an edge with an output seen before is refused).
pub proof fn law_outputs_stay_distinct(st: StateView, b: BuildAstView)
    requires
        outputs_tracked(st),
    ensures
        add_build_edge_spec(st, b) matches Ok(st2) ==> outputs_tracked(st2),
        add_build_edge_spec(st, b) is Err ==> outputs_tracked(failed_edge_state(st, b)),
{
    let outs = eval_all(b.outputs, b.env);
    if add_build_edge_spec(st, b) is Err {
        let f = failed_edge_state(st, b);
        assert forall|i: int, j: int| 0 <= i < f.builds.len() && 0 <= j < f.builds[i].outputs.len() implies f.outputs.contains(
            #[trigger] f.builds[i].outputs[j],
        ) by {
            assert(st.outputs.contains(st.builds[i].outputs[j]));
        }
    }
    if let Ok(st2) = add_build_edge_spec(st, b) {
        lemma_no_duplicate(st.outputs, outs);
        let n = st.builds.len();
        let nb = st2.builds;
        assert(nb.len() == n + 1);
        assert(nb[n as int].outputs == outs);
        assert forall|i: int| 0 <= i < n implies #[trigger] nb[i] == st.builds[i] by {}
        assert forall|i1: int, j1: int, i2: int, j2: int|
            0 <= i1 < nb.len() && 0 <= i2 < nb.len() && 0 <= j1 < nb[i1].outputs.len() && 0 <= j2
                < nb[i2].outputs.len() && (i1 != i2 || j1 != j2) implies #[trigger] nb[i1].outputs[j1]
            != #[trigger] nb[i2].outputs[j2] by {
            if i1 < n && i2 < n {
                assert(nb[i1] == st.builds[i1] && nb[i2] == st.builds[i2]);
            } else if i1 == n && i2 == n {
            } else if i1 == n {
                assert(nb[i2] == st.builds[i2]);
                assert(st.outputs.contains(st.builds[i2].outputs[j2]));
                assert(!st.outputs.contains(outs[j1]));
            } else {
                assert(nb[i1] == st.builds[i1]);
                assert(st.outputs.contains(st.builds[i1].outputs[j1]));
                assert(!st.outputs.contains(outs[j2]));
            }
        }
        assert forall|i: int, j: int| 0 <= i < nb.len() && 0 <= j < nb[i].outputs.len() implies st2.outputs.contains(
            #[trigger] nb[i].outputs[j],
        ) by {
            if i < n {
                assert(nb[i] == st.builds[i]);
            } else {
                assert(outs.contains(outs[j]));
            }
        }
    }
}

pub(crate) proof fn lemma_first_duplicate_prefix(seen: Set<Seq<u8>>, outs: Seq<Seq<u8>>, n: int)
    requires
        1 <= n <= outs.len(),
        first_duplicate(seen, outs.take(n - 1)) is None,
        seen.contains(outs[n - 1]) || outs.take(n - 1).contains(outs[n - 1]),
    ensures
        first_duplicate(seen, outs) == Some(outs[n - 1]),
    decreases outs.len() - n,
{
    if n == outs.len() {
        assert(outs.take(n) =~= outs);
        assert(outs.drop_last() =~= outs.take(n - 1));
    } else {
        assert(outs.drop_last().take(n - 1) =~= outs.take(n - 1));
        lemma_first_duplicate_prefix(seen, outs.drop_last(), n);
    }
}

/// With no duplicate, every output is recorded.
pub(crate) proof fn lemma_before_no_duplicate(seen: Set<Seq<u8>>, outs: Seq<Seq<u8>>)
    requires
        first_duplicate(seen, outs) is None,
    ensures
        outputs_before_duplicate(seen, outs) == outs,
{
}

/// With the first duplicate at `n - 1`, the outputs before it are recorded.
pub(crate) proof fn lemma_before_duplicate_prefix(seen: Set<Seq<u8>>, outs: Seq<Seq<u8>>, n: int)
    requires
        1 <= n <= outs.len(),
        first_duplicate(seen, outs.take(n - 1)) is None,
        seen.contains(outs[n - 1]) || outs.take(n - 1).contains(outs[n - 1]),
    ensures
        outputs_before_duplicate(seen, outs) == outs.take(n - 1),
    decreases outs.len() - n,
{
    if n == outs.len() {
        assert(outs.drop_last() =~= outs.take(n - 1));
    } else {
        assert(outs.drop_last().take(n - 1) =~= outs.take(n - 1));
        lemma_first_duplicate_prefix(seen, outs.drop_last(), n);
        lemma_before_duplicate_prefix(seen, outs.drop_last(), n);
    }
}

/// Evaluates each expression in `env`.
pub(crate) fn eval_exprs(v: &Vec<Expr>, env: &Env) -> (r: Vec<Vec<u8>>)
    ensures
        paths_view(r@) == eval_all(exprs_view(v@), env.env_view()),
{
    let mut r: Vec<Vec<u8>> = Vec::new();
    let mut i: usize = 0;
    while i < v.len()
        invariant
            i <= v@.len(),
            r@.len() == i,
            paths_view(r@) == eval_all(exprs_view(v@), env.env_view()).take(i as int),
        decreases v@.len() - i,
    {
        let e = v[i].eval(env);
        let ghost before = r@;
        r.push(e);
        proof {
            let ev = eval_all(exprs_view(v@), env.env_view());
            assert(exprs_view(v@)[i as int] == v@[i as int].view_terms());
            assert forall|j: int| 0 <= j < i + 1 implies #[trigger] paths_view(r@)[j] == ev.take(
                i + 1,
            )[j] by {
                if j < i {
                    assert(r@[j] == before[j]);
                    assert(paths_view(before)[j] == ev.take(i as int)[j]);
                }
            }
            assert(paths_view(r@) =~= ev.take(i + 1));
        }
        i = i + 1;
    }
    assert(eval_all(exprs_view(v@), env.env_view()).take(v@.len() as int) =~= eval_all(
        exprs_view(v@),
        env.env_view(),
    ));
    r
}

/// Appends copies of `src` to `dst`.
pub(crate) fn append_paths(dst: &mut Vec<Vec<u8>>, src: &Vec<Vec<u8>>, n: usize)
    requires
        n <= src@.len(),
    ensures
        paths_view(final(dst)@) == paths_view(old(dst)@) + paths_view(src@).take(n as int),
{
    let mut i: usize = 0;
    let ghost start = paths_view(dst@);
    while i < n
        invariant
            n <= src@.len(),
            i <= n,
            dst@.len() == start.len() + i,
            paths_view(dst@) == start + paths_view(src@).take(i as int),
        decreases src@.len() - i,
    {
        let ghost before = dst@;
        dst.push(src[i].clone());
        proof {
            let t = start + paths_view(src@).take(i + 1);
            assert forall|j: int| 0 <= j < dst@.len() implies #[trigger] paths_view(dst@)[j] == t[j] by {
                if j < before.len() {
                    assert(dst@[j] == before[j]);
                    assert(paths_view(before)[j] == (start + paths_view(src@).take(i as int))[j]);
                }
            }
            assert(paths_view(dst@) =~= t);
        }
        i = i + 1;
    }
}

/// The paths joined by single spaces.
pub(crate) fn space_seperated_paths(paths: &Vec<Vec<u8>>) -> (r: Vec<u8>)
    ensures
        r@ == join_paths(paths_view(paths@)),
{
    let mut vec: Vec<u8> = Vec::new();
    let mut i: usize = 0;
    while i < paths.len()
        invariant
            i <= paths@.len(),
            vec@ == if i == 0 {
                Seq::<u8>::empty()
            } else if i == paths@.len() {
                join_paths(paths_view(paths@).take(i as int))
            } else {
                join_paths(paths_view(paths@).take(i as int)) + seq![32u8]
            },
        decreases paths@.len() - i,
    {
        let ghost t = paths_view(paths@).take(i + 1);
        assert(t.drop_last() =~= paths_view(paths@).take(i as int));
        extend(&mut vec, paths[i].as_slice());
        if i != paths.len() - 1 {
            vec.push(32u8);
        }
        proof {
            if i == 0 {
                assert(t.len() == 1);
            }
            assert(vec@ =~= if i + 1 == paths@.len() {
                join_paths(t)
            } else {
                join_paths(t) + seq![32u8]
            });
        }
        i = i + 1;
    }
    assert(paths_view(paths@).take(paths@.len() as int) =~= paths_view(paths@));
    vec
}

pub(crate) fn phony_vec() -> (r: Vec<u8>)
    ensures
        r@ == phony_name(),
{
    let r = vec![112u8, 104, 111, 110, 121];
    assert(r@ =~= phony_name());
    r
}

/// Reads `contents`, included `depth` deep and named `name`, into `state`.
pub(crate) fn parse_nested<L: Loader>(
    contents: &[u8],
    name: Option<Vec<u8>>,
    state: &mut ParseState,
    loader: &mut LoadLog<L>,
    depth: usize,
) -> (r: Result<(), ProcessingError>)
    requires
        contents@.len() < usize::MAX,
        old(state).wf(),
        depth <= MAX_INCLUDE_DEPTH,
    ensures
        final(state).wf(),
        match parse_top(contents@, 0, old(state).view()) {
            ParseOutcome::Finished(st, None) => r is Ok && final(state).view() == st,
            ParseOutcome::Finished(st, Some(e)) => r matches Err(x) && outcome_error_matches(
                x,
                e,
                contents@,
                crate::parse::lexer::opt_bytes(name),
            ) && final(state).view() == st,
            ParseOutcome::Included(_, _, st) => depth >= MAX_INCLUDE_DEPTH ==> (r matches Err(
                ProcessingError::IncludeTooDeep,
            ) && final(state).view() == st),
        },
        exists|loads: Seq<IncludeLoad>|
            #[trigger] parse_with(
                contents@,
                crate::parse::lexer::opt_bytes(name),
                0,
                old(state).view(),
                loads,
                depth as nat,
            ) matches Some(run) && run.ok == (r is Ok) && run.state == final(state).view()
                && final(loader).loads_made() == old(loader).loads_made() + run.loads,
    decreases MAX_INCLUDE_DEPTH - depth, 2nat, 0int,
{
    Parser::new(contents, name).parse(state, loader, depth)
}

/// Reads the build description `contents`, named `name`, into `state`; each `include`
/// statement asks `loader` for the file it names, on behalf of the file that holds it.
///
/// Where the input includes no other file, the outcome is exactly [`parse_top`]'s: the state it
/// gives, and its error if any.
pub fn parse_single<L: Loader>(
    contents: &[u8],
    name: Option<Vec<u8>>,
    state: &mut ParseState,
    loader: &mut LoadLog<L>,
) -> (r: Result<(), ProcessingError>)
    requires
        contents@.len() < usize::MAX,
        old(state).wf(),
    ensures
        final(state).wf(),
        match parse_top(contents@, 0, old(state).view()) {
            ParseOutcome::Finished(st, None) => r is Ok && final(state).view() == st,
            ParseOutcome::Finished(st, Some(e)) => r matches Err(x) && outcome_error_matches(
                x,
                e,
                contents@,
                crate::parse::lexer::opt_bytes(name),
            ) && final(state).view() == st,
            ParseOutcome::Included(_, _, _) => true,
        },
        exists|loads: Seq<IncludeLoad>|
            #[trigger] parse_with(
                contents@,
                crate::parse::lexer::opt_bytes(name),
                0,
                old(state).view(),
                loads,
                0,
            ) matches Some(run) && run.ok == (r is Ok) && run.state == final(state).view()
                && final(loader).loads_made() == old(loader).loads_made() + run.loads,
{
    parse_nested(contents, name, state, loader, 0)
}

/// The state a parse starts from: only the built-in `phony` rule.
pub open spec fn initial_view() -> StateView {
    StateView {
        rules: seq![(phony_name(), Seq::<(Seq<u8>, Seq<TermView>)>::empty())],
        outputs: Set::<Seq<u8>>::empty(),
        builds: Seq::<BuildView>::empty(),
        defaults: None,
        env: Map::<Seq<u8>, Seq<u8>>::empty(),
    }
}

/// What reading the contents `c` of the file `start` from the initial state gives, with the
/// loader answering as `loads` says: whether it succeeds, its build edges and defaults when it
/// does, and the loads asked for, in order.
pub open spec fn read_start(
    c: Seq<u8>,
    start: Seq<u8>,
    loads: Seq<IncludeLoad>,
    r: Result<Description, ProcessingError>,
    made: Seq<LoadRecord>,
) -> bool {
    parse_with(c, Some(start), 0, initial_view(), loads, 0) matches Some(run) && run.ok == (r is Ok)
        && (r matches Ok(desc) ==> builds_view(desc.builds@) == run.state.builds && defaults_view(
        desc.defaults,
    ) == run.state.defaults) && made == run.loads
}

/// The build description that the file `start`, whose contents are `contents`, gives; each
/// `include` asks `loader` for the file it names, on behalf of the file that holds it.
///
/// Where the contents include no other file, the outcome is exactly [`parse_top`]'s from the
/// initial state: its build edges and defaults, or its error.
pub fn representation_of<L: Loader>(contents: Vec<u8>, start: Vec<u8>, loader: &mut LoadLog<L>) -> (r: Result<
    Description,
    ProcessingError,
>)
    ensures
        r matches Ok(desc) ==> desc.wf() && crate::builder::task::outputs_distinct(builds_view(desc.builds@)),
        contents@.len() == usize::MAX ==> (r matches Err(ProcessingError::IoError(_)))
            && final(loader).loads_made() == old(loader).loads_made(),
        contents@.len() < usize::MAX ==> match parse_top(contents@, 0, initial_view()) {
            ParseOutcome::Finished(st, None) => r matches Ok(desc) && builds_view(desc.builds@)
                == st.builds && defaults_view(desc.defaults) == st.defaults,
            ParseOutcome::Finished(st, Some(e)) => r matches Err(x) && outcome_error_matches(
                x,
                e,
                contents@,
                crate::parse::lexer::opt_bytes(Some(start)),
            ),
            ParseOutcome::Included(_, _, _) => true,
        },
        contents@.len() < usize::MAX ==> exists|loads: Seq<IncludeLoad>|
            #[trigger] read_start(
                contents@,
                start@,
                loads,
                r,
                final(loader).loads_made().skip(old(loader).loads_made().len() as int),
            ),
        old(loader).loads_made().is_prefix_of(final(loader).loads_made()),
{
    if contents.len() == usize::MAX {
        return Err(ProcessingError::IoError(too_large_error()));
    }
    let ghost m0 = loader.loads_made();
    let ghost c = contents@;
    let ghost s = start@;
    let mut state = ParseState::new();
    assert(state.view() == initial_view());
    let read = parse_single(contents.as_slice(), Some(start), &mut state, loader);
    let ghost loads = choose|loads: Seq<IncludeLoad>|
        #[trigger] parse_with(c, Some(s), 0, initial_view(), loads, 0) matches Some(run) && run.ok == (
        read is Ok) && run.state == state.view() && loader.loads_made() == m0 + run.loads;
    proof {
        let run = parse_with(c, Some(s), 0, initial_view(), loads, 0)->0;
        assert(loader.loads_made().skip(m0.len() as int) =~= run.loads);
        assert(m0.is_prefix_of(loader.loads_made()));
    }
    match read {
        Err(e) => {
            assert(read_start(c, s, loads, Err(e), loader.loads_made().skip(m0.len() as int)));
            Err(e)
        },
        Ok(()) => {
            let desc = state.into_description();
            assert(read_start(c, s, loads, Ok(desc), loader.loads_made().skip(m0.len() as int)));
            Ok(desc)
        },
    }
}

/// Reads the build description that starts at the file `start`: the first load asks `loader`
/// for `start` on behalf of no file; its contents are then read as [`representation_of`] says.
pub fn build_representation<L: Loader>(loader: &mut LoadLog<L>, start: Vec<u8>) -> (r: Result<
    Description,
    ProcessingError,
>)
    ensures
        r matches Ok(desc) ==> desc.wf() && crate::builder::task::outputs_distinct(builds_view(desc.builds@)),
        final(loader).loads_made().len() > old(loader).loads_made().len(),
        final(loader).loads_made().take(old(loader).loads_made().len() as int) == old(loader).loads_made(),
        ({
            let first = final(loader).loads_made()[old(loader).loads_made().len() as int];
            let rest = final(loader).loads_made().skip(old(loader).loads_made().len() + 1int);
            &&& first.from is None
            &&& first.request == start@
            &&& match first.contents {
                None => (r matches Err(ProcessingError::IoError(_))) && rest.len() == 0,
                Some(c) => if c.len() >= usize::MAX {
                    (r matches Err(ProcessingError::IoError(_))) && rest.len() == 0
                } else {
                    exists|loads: Seq<IncludeLoad>| #[trigger] read_start(c, start@, loads, r, rest)
                },
            }
        }),
{
    let ghost m0 = loader.loads_made();
    let loaded = loader.load(None, start.as_slice());
    let ghost m1 = loader.loads_made();
    let contents = match loaded {
        Ok(c) => c,
        Err(e) => {
            assert(loader.loads_made().skip(m0.len() + 1int) =~= Seq::<LoadRecord>::empty());
            assert(loader.loads_made().take(m0.len() as int) =~= m0);
            return Err(ProcessingError::IoError(e));
        },
    };
    let ghost c = contents@;
    assert(c.len() == contents.len());
    let r = representation_of(contents, start, loader);
    proof {
        let fin = loader.loads_made();
        assert(fin.take(m0.len() as int) =~= m0) by {
            assert(m1.is_prefix_of(fin));
            assert forall|k: int| 0 <= k < m0.len() implies fin[k] == m0[k] by {
                assert(fin[k] == m1[k]);
            }
        }
        assert(fin[m0.len() as int] == m1[m0.len() as int]);
        assert(fin.skip(m0.len() + 1int) =~= fin.skip(m1.len() as int));
        if c.len() >= usize::MAX {
            assert(fin =~= m1);
            assert(fin.skip(m1.len() as int) =~= Seq::<LoadRecord>::empty());
        }
    }
    r
}

} // verus!
