//! The evaluated build description that a parse produces.
use vstd::prelude::*;

verus! {

// Paths are canonicalized and mapped to a cache
// Rules are interned into indices.
// This actually needs to come after the variable evaluation pass.
#[derive(Debug, Default)]
pub struct Description {
    // will have things like pools and minimum ninja version and defaults and so on.
    pub builds: Vec<Build>,
    /// The default targets, each at most once.
    pub defaults: Option<Vec<Vec<u8>>>,
}

#[derive(Debug)]
pub enum Action {
    Phony,
    Command(String),
}

#[derive(Debug)]
pub struct Build {
    pub action: Action,
    pub inputs: Vec<Vec<u8>>,
    pub implicit_inputs: Vec<Vec<u8>>,
    pub order_inputs: Vec<Vec<u8>>,
    pub outputs: Vec<Vec<u8>>,
}

pub enum ActionView {
    Phony,
    Command(Seq<char>),
}

pub struct BuildView {
    pub action: ActionView,
    pub inputs: Seq<Seq<u8>>,
    pub implicit_inputs: Seq<Seq<u8>>,
    pub order_inputs: Seq<Seq<u8>>,
    pub outputs: Seq<Seq<u8>>,
}

pub open spec fn paths_view(v: Seq<Vec<u8>>) -> Seq<Seq<u8>> {
    Seq::new(v.len(), |k: int| v[k]@)
}

pub open spec fn action_view(a: Action) -> ActionView {
    match a {
        Action::Phony => ActionView::Phony,
        Action::Command(s) => ActionView::Command(s@),
    }
}

pub open spec fn build_view(b: Build) -> BuildView {
    BuildView {
        action: action_view(b.action),
        inputs: paths_view(b.inputs@),
        implicit_inputs: paths_view(b.implicit_inputs@),
        order_inputs: paths_view(b.order_inputs@),
        outputs: paths_view(b.outputs@),
    }
}

pub open spec fn builds_view(v: Seq<Build>) -> Seq<BuildView> {
    Seq::new(v.len(), |k: int| build_view(v[k]))
}

pub open spec fn defaults_view(d: Option<Vec<Vec<u8>>>) -> Option<Set<Seq<u8>>> {
    match d {
        Some(v) => Some(paths_view(v@).to_set()),
        None => None,
    }
}

impl Description {
    /// The defaults hold no path twice.
    pub open spec fn wf(&self) -> bool {
        self.defaults matches Some(v) ==> paths_view(v@).no_duplicates()
    }
}

} // verus!
