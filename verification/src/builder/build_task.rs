//! What the rebuilder asks to run: a command that brings a key up to date.
use crate::builder::task::{Key, KeyView};
use vstd::prelude::*;

verus! {

#[derive(Debug)]
pub struct CommandTask {
    key: Key,
    command: String,
}

impl View for CommandTask {
    type V = (KeyView, Seq<char>);

    closed spec fn view(&self) -> (KeyView, Seq<char>) {
        (self.key@, self.command@)
    }
}

impl CommandTask {
    pub fn new(key: Key, command: String) -> (r: CommandTask)
        ensures
            r@ == (key@, command@),
    {
        CommandTask { key, command }
    }

    /// The key the command brings up to date.
    pub fn key(&self) -> (r: &Key)
        ensures
            r@ == self@.0,
    {
        &self.key
    }

    /// The shell command.
    pub fn command(&self) -> (r: &str)
        ensures
            r@ == self@.1,
    {
        self.command.as_str()
    }
}

} // verus!
