//! The per-agent navigation state written by the plan executor and read
//! by the steering layer and the physics host.

use vstd::prelude::*;
use crate::geom::Vec2;

verus! {

/// What an agent is currently trying to do with its legs.  The direction
/// carried by `Walking` is a fixed-point unit heading (or zero for "no
/// preference").
#[derive(Clone, Copy, PartialEq, Eq, Structural, Debug)]
pub enum PersonState {
    Standing,
    Walking(Vec2),
}

impl Default for PersonState {
    fn default() -> (r: Self)
        ensures
            r == PersonState::Standing,
    {
        PersonState::Standing
    }
}

/// A pedestrian agent as the navigation core sees it.
#[derive(Clone, Copy, PartialEq, Eq, Structural, Debug)]
pub struct Person {
    pub state: PersonState,
}

impl Default for Person {
    fn default() -> (r: Self)
        ensures
            r == (Person { state: PersonState::Standing }),
    {
        Person { state: PersonState::Standing }
    }
}

} // verus!
