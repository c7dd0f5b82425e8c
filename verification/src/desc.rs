//! From a build description as it is read to its canonical form: rule names are checked, every
//! path and command is evaluated, and no output may be produced twice.

pub mod ast;
pub mod source;
pub mod tasks;

use crate::desc::ast::{edges_view, Action, Build, Description, EdgeView};
use crate::desc::source::{rules_view, source_builds_view, SourceBuildView};
use crate::parse::ast::{eval_terms, TermView};
use crate::parse::env::Env;
use crate::parse::repr::{paths_view, ActionView};
use crate::parse::{
    command_name, contains_path, eval_exprs, first_duplicate, join_paths,
    lemma_first_duplicate_prefix, phony_name, space_seperated_paths, str_from_utf8,
    string_from_utf8, ErrorView,
};
use vstd::prelude::*;
use vstd::utf8::{decode_utf8, valid_utf8};

verus! {

#[derive(Debug)]
pub enum ProcessingError {
    Utf8Error(std::str::Utf8Error),
    StringUtf8Error(std::string::FromUtf8Error),
    DuplicateRule(String),
    DuplicateOutput(String),
    UnknownRule(String),
}

/// Whether `e` is the error `v`: a name that is not UTF-8 gives a UTF-8 error instead.
pub open spec fn desc_error_matches(e: ProcessingError, v: ErrorView) -> bool {
    match v {
        ErrorView::DuplicateRule(n) => if valid_utf8(n) {
            e matches ProcessingError::DuplicateRule(s) && s@ == decode_utf8(n)
        } else {
            e is Utf8Error
        },
        ErrorView::DuplicateOutput(n) => if valid_utf8(n) {
            e matches ProcessingError::DuplicateOutput(s) && s@ == decode_utf8(n)
        } else {
            e is StringUtf8Error
        },
        ErrorView::UnknownRule(n) => if valid_utf8(n) {
            e matches ProcessingError::UnknownRule(s) && s@ == decode_utf8(n)
        } else {
            e is Utf8Error
        },
        ErrorView::CommandNotUtf8 => e is StringUtf8Error,
        _ => false,
    }
}

/// The command of the rule named `name`, if there is one.
pub open spec fn find_command(rules: Seq<(Seq<u8>, Seq<TermView>)>, name: Seq<u8>) -> Option<
    Seq<TermView>,
>
    decreases rules.len(),
{
    if rules.len() == 0 {
        None
    } else if rules.last().0 == name {
        Some(rules.last().1)
    } else {
        find_command(rules.drop_last(), name)
    }
}

pub open spec fn rule_names(rules: Seq<(Seq<u8>, Seq<TermView>)>) -> Seq<Seq<u8>> {
    Seq::new(rules.len(), |k: int| rules[k].0)
}

/// One build edge in canonical form, given the outputs `seen` of the edges before it: outputs
/// and inputs are evaluated without bindings; a phony edge has no command; any other's command is
/// its rule's, evaluated with `$out` and `$in` bound to the space separated outputs and inputs.
pub open spec fn canonical_build(
    rules: Seq<(Seq<u8>, Seq<TermView>)>,
    seen: Set<Seq<u8>>,
    b: SourceBuildView,
) -> Result<EdgeView, ErrorView> {
    let none = Map::<Seq<u8>, Seq<u8>>::empty();
    let outs = crate::parse::eval_all(b.outputs, none);
    let ins = crate::parse::eval_all(b.inputs, none);
    match first_duplicate(seen, outs) {
        Some(o) => Err(ErrorView::DuplicateOutput(o)),
        None => if b.rule == phony_name() {
            Ok(EdgeView { action: ActionView::Phony, inputs: ins, outputs: outs })
        } else {
            match find_command(rules, b.rule) {
                None => Err(ErrorView::UnknownRule(b.rule)),
                Some(command) => {
                    let env = none.insert(seq![111u8, 117, 116], join_paths(outs)).insert(
                        seq![105u8, 110],
                        join_paths(ins),
                    );
                    let bytes = eval_terms(command, env);
                    if valid_utf8(bytes) {
                        Ok(
                            EdgeView {
                                action: ActionView::Command(decode_utf8(bytes)),
                                inputs: ins,
                                outputs: outs,
                            },
                        )
                    } else {
                        Err(ErrorView::CommandNotUtf8)
                    }
                },
            }
        },
    }
}

/// The build edges in canonical form, with all their outputs, or the first error.
pub open spec fn canonical_builds(
    rules: Seq<(Seq<u8>, Seq<TermView>)>,
    builds: Seq<SourceBuildView>,
) -> Result<(Seq<EdgeView>, Set<Seq<u8>>), ErrorView>
    decreases builds.len(),
{
    if builds.len() == 0 {
        Ok((Seq::empty(), Set::empty()))
    } else {
        match canonical_builds(rules, builds.drop_last()) {
            Err(e) => Err(e),
            Ok((done, seen)) => match canonical_build(rules, seen, builds.last()) {
                Err(e) => Err(e),
                Ok(b) => Ok((done.push(b), seen.union(b.outputs.to_set()))),
            },
        }
    }
}

/// The canonical form of a description: no rule may be named twice (nor `phony`, which is built
/// in); then its build edges, in order.
pub open spec fn canonical(
    rules: Seq<(Seq<u8>, Seq<TermView>)>,
    builds: Seq<SourceBuildView>,
) -> Result<Seq<EdgeView>, ErrorView> {
    match first_duplicate(set![phony_name()], rule_names(rules)) {
        Some(n) => Err(ErrorView::DuplicateRule(n)),
        None => match canonical_builds(rules, builds) {
            Err(e) => Err(e),
            Ok((edges, _)) => Ok(edges),
        },
    }
}

/// Each canonical edge keeps its source edge: one edge per source edge, in order, with the
/// source's inputs and outputs evaluated (phony or not), and a phony action exactly for the
/// built-in `phony` rule.
pub proof fn law_canonical_edges_keep_their_source(
    rules: Seq<(Seq<u8>, Seq<TermView>)>,
    builds: Seq<SourceBuildView>,
    i: int,
)
    requires
        canonical(rules, builds) is Ok,
        0 <= i < builds.len(),
    ensures
        canonical(rules, builds)->Ok_0.len() == builds.len(),
        canonical(rules, builds)->Ok_0[i].inputs == crate::parse::eval_all(
            builds[i].inputs,
            Map::<Seq<u8>, Seq<u8>>::empty(),
        ),
        canonical(rules, builds)->Ok_0[i].outputs == crate::parse::eval_all(
            builds[i].outputs,
            Map::<Seq<u8>, Seq<u8>>::empty(),
        ),
        (canonical(rules, builds)->Ok_0[i].action is Phony) == (builds[i].rule == phony_name()),
{
    lemma_canonical_builds_keep(rules, builds, i);
}

proof fn lemma_canonical_builds_keep(rules: Seq<(Seq<u8>, Seq<TermView>)>, builds: Seq<SourceBuildView>, i: int)
    requires
        canonical_builds(rules, builds) is Ok,
        0 <= i < builds.len(),
    ensures
        canonical_builds(rules, builds)->Ok_0.0.len() == builds.len(),
        canonical_builds(rules, builds)->Ok_0.0[i].inputs == crate::parse::eval_all(
            builds[i].inputs,
            Map::<Seq<u8>, Seq<u8>>::empty(),
        ),
        canonical_builds(rules, builds)->Ok_0.0[i].outputs == crate::parse::eval_all(
            builds[i].outputs,
            Map::<Seq<u8>, Seq<u8>>::empty(),
        ),
        (canonical_builds(rules, builds)->Ok_0.0[i].action is Phony) == (builds[i].rule == phony_name()),
    decreases builds.len(),
{
    let p = builds.drop_last();
    let (done, seen) = canonical_builds(rules, p)->Ok_0;
    if i < builds.len() - 1 {
        assert(p[i] == builds[i]);
        lemma_canonical_builds_keep(rules, p, i);
    } else if p.len() > 0 {
        lemma_canonical_builds_keep(rules, p, 0);
    }
    assert(builds.last() == builds[builds.len() - 1]);
}

/// An error among the first `k` build edges is the error of them all.
proof fn lemma_canonical_builds_err(
    rules: Seq<(Seq<u8>, Seq<TermView>)>,
    builds: Seq<SourceBuildView>,
    k: int,
)
    requires
        0 <= k <= builds.len(),
        canonical_builds(rules, builds.take(k)) is Err,
    ensures
        canonical_builds(rules, builds) == canonical_builds(rules, builds.take(k)),
    decreases builds.len() - k,
{
    if k == builds.len() {
        assert(builds.take(k) =~= builds);
    } else {
        assert(builds.drop_last().take(k) =~= builds.take(k));
        lemma_canonical_builds_err(rules, builds.drop_last(), k);
    }
}

/// Whether `p` is one of the paths of `seen`.
fn seen_before(seen: &Vec<Vec<u8>>, p: &[u8]) -> (r: bool)
    ensures
        r == paths_view(seen@).contains(p@),
{
    let r = contains_path(seen, seen.len(), p);
    assert(paths_view(seen@).take(seen@.len() as int) =~= paths_view(seen@));
    r
}

fn canonicalize(past: crate::desc::source::Description) -> (r: Result<Description, ProcessingError>)
    ensures
        match canonical(rules_view(past.rules@), source_builds_view(past.builds@)) {
            Ok(edges) => r matches Ok(d) && edges_view(d.builds@) == edges,
            Err(e) => r matches Err(err) && desc_error_matches(err, e),
        },
{
    let ghost rv = rules_view(past.rules@);
    let ghost names = rule_names(rv);
    // Using an interner that could accept bytes would allow us to not have to convert.
    let mut i: usize = 0;
    let phony = crate::parse::phony_vec();
    proof {
        assert(names.take(0) =~= Seq::<Seq<u8>>::empty());
    }
    while i < past.rules.len()
        invariant
            i <= past.rules@.len(),
            rv == rules_view(past.rules@),
            names == rule_names(rv),
            phony@ == phony_name(),
            first_duplicate(set![phony_name()], names.take(i as int)) is None,
        decreases past.rules@.len() - i,
    {
        let name = past.rules[i].name.as_slice();
        proof {
            assert(names.take(i + 1).drop_last() =~= names.take(i as int));
            assert(names[i as int] == name@);
        }
        let mut earlier = crate::parse::lexer::bytes_eq(name, phony.as_slice());
        let mut j: usize = 0;
        while j < i && !earlier
            invariant
                j <= i < past.rules@.len(),
                rv == rules_view(past.rules@),
                names == rule_names(rv),
                name@ == names[i as int],
                earlier ==> name@ == phony_name() || names.take(i as int).contains(name@),
                !earlier ==> name@ != phony_name() && forall|k: int| 0 <= k < j ==> names[k] != name@,
            decreases i - j,
        {
            if crate::parse::lexer::bytes_eq(past.rules[j].name.as_slice(), name) {
                assert(names.take(i as int)[j as int] == name@);
                earlier = true;
            }
            j = j + 1;
        }
        if earlier {
            proof {
                if !(name@ == phony_name()) {
                    assert(names.take(i as int).contains(name@));
                }
                lemma_first_duplicate_prefix(set![phony_name()], names, i + 1);
            }
            return match str_from_utf8(name) {
                Ok(s) => Err(ProcessingError::DuplicateRule(s.to_owned())),
                Err(e) => Err(ProcessingError::Utf8Error(e)),
            };
        }
        proof {
            assert(!names.take(i as int).contains(name@)) by {
                if names.take(i as int).contains(name@) {
                    let k = choose|k: int| 0 <= k < i && names.take(i as int)[k] == name@;
                    assert(names[k] == name@);
                }
            }
            assert(!set![phony_name()].contains(name@));
        }
        i = i + 1;
    }
    proof {
        assert(names.take(past.rules@.len() as int) =~= names);
    }

    let ghost bv = source_builds_view(past.builds@);
    let mut outputs_seen: Vec<Vec<u8>> = Vec::new();
    let mut builds: Vec<Build> = Vec::new();
    let mut b: usize = 0;
    proof {
        assert(bv.take(0) =~= Seq::<SourceBuildView>::empty());
        assert(paths_view(outputs_seen@).to_set() =~= Set::<Seq<u8>>::empty());
        assert(edges_view(builds@) =~= Seq::<EdgeView>::empty());
    }
    while b < past.builds.len()
        invariant
            b <= past.builds@.len(),
            rv == rules_view(past.rules@),
            bv == source_builds_view(past.builds@),
            first_duplicate(set![phony_name()], rule_names(rv)) is None,
            canonical_builds(rv, bv.take(b as int)) == Ok::<(Seq<EdgeView>, Set<Seq<u8>>), ErrorView>(
                (edges_view(builds@), paths_view(outputs_seen@).to_set()),
            ),
        decreases past.builds@.len() - b,
    {
        proof {
            assert(bv.take(b + 1).drop_last() =~= bv.take(b as int));
            assert(bv.take(b + 1).last() == bv[b as int]);
        }
        match canonical_one(&past.rules, &outputs_seen, &past.builds[b]) {
            Err(e) => {
                proof {
                    lemma_canonical_builds_err(rv, bv, b + 1);
                }
                return Err(e);
            },
            Ok(edge) => {
                let ghost old_seen = outputs_seen@;
                let ghost old_builds = builds@;
                crate::parse::append_paths(&mut outputs_seen, &edge.outputs, edge.outputs.len());
                proof {
                    assert(paths_view(edge.outputs@).take(edge.outputs@.len() as int) =~= paths_view(
                        edge.outputs@,
                    ));
                    vstd::seq_lib::seq_to_set_distributes_over_add(
                        paths_view(old_seen),
                        paths_view(edge.outputs@),
                    );
                }
                builds.push(edge);
                proof {
                    assert(edges_view(builds@) =~= edges_view(old_builds).push(builds@.last()@));
                }
            },
        }
        b = b + 1;
    }
    proof {
        assert(bv.take(past.builds@.len() as int) =~= bv);
    }
    Ok(Description { builds })
}

/// One build edge in canonical form, after the outputs `seen` of the edges before it.
fn canonical_one(
    rules: &Vec<crate::desc::source::Rule>,
    seen: &Vec<Vec<u8>>,
    build: &crate::desc::source::Build,
) -> (r: Result<Build, ProcessingError>)
    ensures
        match canonical_build(rules_view(rules@), paths_view(seen@).to_set(), build@) {
            Ok(edge) => r matches Ok(b) && b@ == edge,
            Err(e) => r matches Err(err) && desc_error_matches(err, e),
        },
{
    let ghost none = Map::<Seq<u8>, Seq<u8>>::empty();
    // Paths are evaluated without bindings.
    let empty_env = Env::new();
    let evaluated_outputs = eval_exprs(&build.outputs, &empty_env);
    let ghost outs = paths_view(evaluated_outputs@);
    let mut i: usize = 0;
    while i < evaluated_outputs.len()
        invariant
            i <= evaluated_outputs@.len(),
            outs == paths_view(evaluated_outputs@),
            outs == crate::parse::eval_all(build@.outputs, none),
            none == Map::<Seq<u8>, Seq<u8>>::empty(),
            first_duplicate(paths_view(seen@).to_set(), outs.take(i as int)) is None,
        decreases evaluated_outputs@.len() - i,
    {
        assert(outs.take(i + 1).drop_last() =~= outs.take(i as int));
        assert(outs.take(i + 1).last() == outs[i as int]);
        let output = evaluated_outputs[i].as_slice();
        let dup = seen_before(seen, output) || contains_path(&evaluated_outputs, i, output);
        if dup {
            proof {
                lemma_first_duplicate_prefix(paths_view(seen@).to_set(), outs, i + 1);
            }
            return match string_from_utf8(evaluated_outputs[i].clone()) {
                Ok(s) => Err(ProcessingError::DuplicateOutput(s)),
                Err(e) => Err(ProcessingError::StringUtf8Error(e)),
            };
        }
        i = i + 1;
    }
    assert(outs.take(outs.len() as int) =~= outs);
    let evaluated_inputs = eval_exprs(&build.inputs, &empty_env);

    // `$out` and `$in` are bound for the command, unquoted.
    let action = if crate::parse::lexer::bytes_eq(build.rule.as_slice(), &[112u8, 104, 111, 110, 121]) {
        Action::Phony
    } else {
        match find_rule_command(rules, build.rule.as_slice()) {
            None => {
                return match str_from_utf8(build.rule.as_slice()) {
                    Ok(s) => Err(ProcessingError::UnknownRule(s.to_owned())),
                    Err(e) => Err(ProcessingError::Utf8Error(e)),
                };
            },
            Some(command) => {
                let mut env = Env::new();
                env.add_binding(vec![111u8, 117, 116], space_seperated_paths(&evaluated_outputs));
                env.add_binding(vec![105u8, 110], space_seperated_paths(&evaluated_inputs));
                match string_from_utf8(command.eval(&env)) {
                    Ok(s) => Action::Command(s),
                    Err(e) => {
                        return Err(ProcessingError::StringUtf8Error(e));
                    },
                }
            },
        }
    };
    Ok(Build { action, inputs: evaluated_inputs, outputs: evaluated_outputs })
}

/// The command of the rule named `name`.
fn find_rule_command<'r>(rules: &'r Vec<crate::desc::source::Rule>, name: &[u8]) -> (r: Option<
    &'r crate::parse::ast::Expr,
>)
    ensures
        match find_command(rules_view(rules@), name@) {
            Some(c) => r matches Some(e) && e.view_terms() == c,
            None => r is None,
        },
{
    let ghost rv = rules_view(rules@);
    let mut i = rules.len();
    assert(rv.take(i as int) =~= rv);
    while i > 0
        invariant
            i <= rules@.len(),
            rv == rules_view(rules@),
            find_command(rv, name@) == find_command(rv.take(i as int), name@),
        decreases i,
    {
        assert(rv.take(i as int).drop_last() =~= rv.take(i - 1));
        if crate::parse::lexer::bytes_eq(rules[i - 1].name.as_slice(), name) {
            return Some(&rules[i - 1].command);
        }
        i = i - 1;
    }
    None
}

/// The canonical form of a build description.
pub fn to_description(past: crate::desc::source::Description) -> (r: Result<Description, ProcessingError>)
    ensures
        match canonical(rules_view(past.rules@), source_builds_view(past.builds@)) {
            Ok(edges) => r matches Ok(d) && edges_view(d.builds@) == edges,
            Err(e) => r matches Err(err) && desc_error_matches(err, e),
        },
{
    canonicalize(past)
}

} // verus!
