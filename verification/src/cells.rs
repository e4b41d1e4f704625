//! A point mass in the ring.
use crate::fp::SCALE;
use crate::vectors::{s_add, Vector2};
use vstd::prelude::*;

verus! {

/// A point mass: identity, position, velocity and mass. The mass is fixed
/// at one (in fixed point, `SCALE`) for the life of a cell; it stays in the
/// type because it scales the force into an acceleration.
#[derive(Clone, Copy, PartialEq, Eq, Structural, Debug)]
pub struct Cell {
    pub id: u64,
    pub position: Vector2,
    pub velocity: Vector2,
    pub mass: i64,
}

impl Cell {
    /// A new cell at `pos`: velocity zero, mass one.
    pub fn new(id: u64, pos: Vector2) -> (c: Self)
        ensures
            c.id == id,
            c.position == pos,
            c.velocity@ == (0int, 0int),
            c.mass == SCALE,
    {
        Cell { id, position: pos, velocity: Vector2::default(), mass: SCALE }
    }

    /// The current position.
    pub fn pos(&self) -> (p: Vector2)
        ensures
            p == self.position,
    {
        self.position
    }

    /// One integration step: the position advances by the velocity (one
    /// tick is the implicit time unit).
    pub fn react(&mut self)
        ensures
            final(self).position@ == s_add(old(self).position@, old(self).velocity@),
            final(self).velocity == old(self).velocity,
            final(self).id == old(self).id,
            final(self).mass == old(self).mass,
    {
        self.position = self.position.add(self.velocity);
    }
}

} // verus!
