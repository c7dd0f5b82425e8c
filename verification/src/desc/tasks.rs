//! The tasks of a canonical description: run a command, or nothing for a phony edge.
use vstd::prelude::*;

verus! {

// actually needs a buffer result or something.
pub struct TaskResult {}

#[derive(Debug)]
pub struct CommandTask {
    command: Vec<u8>,
}

impl CommandTask {
    pub fn new(c: Vec<u8>) -> (r: CommandTask)
        ensures
            r.spec_command() == c@,
    {
        CommandTask { command: c }
    }

    pub closed spec fn spec_command(&self) -> Seq<u8> {
        self.command@
    }

    /// The shell command.
    pub fn command(&self) -> (r: &[u8])
        ensures
            r@ == self.spec_command(),
    {
        self.command.as_slice()
    }
}

#[derive(Debug, Default)]
pub struct PhonyTask {}

impl PhonyTask {
    fn new() -> PhonyTask {
        PhonyTask {}
    }

    /// Running a phony task does nothing.
    pub fn run(&self) -> TaskResult {
        TaskResult {}
    }
}

} // verus!
