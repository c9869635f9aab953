//! Standard input and output of a task.
use vstd::prelude::*;

verus! {

/// Standard input: read only.
pub struct Stdin;

/// Standard output: write only.
pub struct Stdout;

impl Stdin {
    pub fn readable(&self) -> (r: bool)
        ensures
            r,
    {
        true
    }

    pub fn writable(&self) -> (r: bool)
        ensures
            !r,
    {
        false
    }
}

impl Stdout {
    pub fn readable(&self) -> (r: bool)
        ensures
            !r,
    {
        false
    }

    pub fn writable(&self) -> (r: bool)
        ensures
            r,
    {
        true
    }
}

} // verus!
