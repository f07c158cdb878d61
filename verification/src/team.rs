use vstd::prelude::*;

verus! {

/// The two sides of an encounter.
#[derive(Clone, Copy, Debug, PartialEq, Eq, Structural, Hash)]
pub enum Team {
    Heroes,
    Monsters,
}

} // verus!
