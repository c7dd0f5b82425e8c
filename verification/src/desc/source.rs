//! A build description as it is read: rules with their commands, and build edges whose paths
//! are expressions.
use crate::parse::ast::{Expr, TermView};
use vstd::prelude::*;

verus! {

#[derive(Debug)]
pub struct Description {
    pub rules: Vec<Rule>,
    pub builds: Vec<Build>,
}

#[derive(Debug)]
pub struct Rule {
    pub name: Vec<u8>,
    pub command: Expr,
}

#[derive(Debug)]
pub struct Build {
    pub rule: Vec<u8>,
    pub inputs: Vec<Expr>,
    pub outputs: Vec<Expr>,
}

pub struct SourceBuildView {
    pub rule: Seq<u8>,
    pub inputs: Seq<Seq<TermView>>,
    pub outputs: Seq<Seq<TermView>>,
}

impl View for Rule {
    type V = (Seq<u8>, Seq<TermView>);

    open spec fn view(&self) -> (Seq<u8>, Seq<TermView>) {
        (self.name@, self.command.view_terms())
    }
}

impl View for Build {
    type V = SourceBuildView;

    open spec fn view(&self) -> SourceBuildView {
        SourceBuildView {
            rule: self.rule@,
            inputs: crate::parse::exprs_view(self.inputs@),
            outputs: crate::parse::exprs_view(self.outputs@),
        }
    }
}

pub open spec fn rules_view(v: Seq<Rule>) -> Seq<(Seq<u8>, Seq<TermView>)> {
    Seq::new(v.len(), |k: int| v[k]@)
}

pub open spec fn source_builds_view(v: Seq<Build>) -> Seq<SourceBuildView> {
    Seq::new(v.len(), |k: int| v[k]@)
}

} // verus!
