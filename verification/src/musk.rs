use vstd::prelude::*;

use crate::traits::Actor;

verus! {

/// A tiny actor alphabet: tests that exercise concurrent clocks are more
/// effective when they draw from a small number of actors.
#[derive(Clone, Hash, PartialEq, Eq, Debug)]
pub enum Musk {
    A,
    B,
    C,
}

impl DeepView for Musk {
    type V = Musk;

    open spec fn deep_view(&self) -> Musk {
        *self
    }
}

impl Actor for Musk {
    fn actor_eq(&self, other: &Self) -> (r: bool) {
        match (self, other) {
            (Musk::A, Musk::A) => true,
            (Musk::B, Musk::B) => true,
            (Musk::C, Musk::C) => true,
            _ => false,
        }
    }

    fn actor_clone(&self) -> (r: Self) {
        match self {
            Musk::A => Musk::A,
            Musk::B => Musk::B,
            Musk::C => Musk::C,
        }
    }
}

} // verus!
