//! The persisted record of which theme is currently active. Reading and
//! writing it to disk is I/O left to the caller; the record itself and
//! the question it answers live here.

use vstd::prelude::*;

verus! {

/// The persisted state: the active theme's name, if one was ever set.
#[derive(Clone, Debug)]
pub struct State {
    pub current: Option<String>,
}

impl State {
    /// Whether `name` names the active theme.
    pub open spec fn spec_is_current(self, name: Seq<char>) -> bool {
        self.current matches Some(c) && c@ == name
    }

    /// Whether `name` names the active theme.
    pub fn is_current(&self, name: &String) -> (r: bool)
        ensures
            r == self.spec_is_current(name@),
    {
        match &self.current {
            Some(c) => *c == *name,
            None => false,
        }
    }
}

impl Default for State {
    /// A state in which no theme is active.
    fn default() -> (r: State)
        ensures
            r.current is None,
    {
        State { current: None }
    }
}

} // verus!
