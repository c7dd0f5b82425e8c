//! The canonical build description: build edges with evaluated paths and commands.
use crate::parse::repr::{paths_view, ActionView};
use vstd::prelude::*;

verus! {

// Paths are canonicalized and mapped to a cache
// Rules are interned into indices.
// This actually needs to come after the variable evaluation pass.
#[derive(Debug)]
pub struct Description {
    pub builds: Vec<Build>,
}

#[derive(Debug)]
pub enum Action {
    Phony,
    Command(String),
}

#[derive(Debug)]
pub struct Build {
    pub action: Action,
    pub inputs: Vec<Vec<u8>>,
    pub outputs: Vec<Vec<u8>>,
}

pub struct EdgeView {
    pub action: ActionView,
    pub inputs: Seq<Seq<u8>>,
    pub outputs: Seq<Seq<u8>>,
}

impl View for Build {
    type V = EdgeView;

    open spec fn view(&self) -> EdgeView {
        EdgeView {
            action: match self.action {
                Action::Phony => ActionView::Phony,
                Action::Command(s) => ActionView::Command(s@),
            },
            inputs: paths_view(self.inputs@),
            outputs: paths_view(self.outputs@),
        }
    }
}

pub open spec fn edges_view(v: Seq<Build>) -> Seq<EdgeView> {
    Seq::new(v.len(), |k: int| v[k]@)
}

} // verus!
