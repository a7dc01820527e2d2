use vstd::prelude::*;

use crate::position::Position;

verus! {

/// A map from grid positions to values of type `T`, which may run out of room.
pub trait PosMap<T>: Sized {
    /// Whether the map is consistent.
    spec fn valid(&self) -> bool;

    /// What the map holds at `pos`, if anything.
    spec fn lookup(&self, pos: (int, int)) -> Option<T>;

    /// The value that other positions may come to hold when room is made for a new one.
    spec fn blank() -> T;

    /// Whether a value can be stored at `pos`.
    spec fn accepts(&self, pos: (int, int)) -> bool;

    /// Whether a cleared map can store a value anywhere.
    spec fn accepts_when_clear() -> bool;

    /// Stores `t` at `pos`. Other positions keep what they hold, but a position that held
    /// nothing may come to hold the blank value. Gives `t` back, changing nothing, where there is
    /// no room.
    fn set(&mut self, pos: Position, t: T) -> (r: Result<(), T>)
        requires
            old(self).valid(),
        ensures
            final(self).valid(),
            r is Ok ==> final(self).lookup(pos@) == Some(t),
            r is Ok ==> forall|q: (int, int)|
                q != pos@ ==> #[trigger] final(self).lookup(q) == old(self).lookup(q) || (old(
                    self,
                ).lookup(q) is None && final(self).lookup(q) == Some(Self::blank())),
            r matches Err(u) ==> u == t && forall|q: (int, int)| #[trigger]
                final(self).lookup(q) == old(self).lookup(q),
            old(self).accepts(pos@) ==> r is Ok,
            r is Err ==> !final(self).accepts(pos@),
    ;

    /// What the map holds at `pos`.
    fn get(&self, pos: Position) -> (r: Option<T>)
        requires
            self.valid(),
        ensures
            r == self.lookup(pos@),
    ;

    /// Forgets every position.
    fn clear(&mut self)
        requires
            old(self).valid(),
        ensures
            final(self).valid(),
            forall|q: (int, int)| #[trigger] final(self).lookup(q) is None,
            forall|q: (int, int)| #[trigger] final(self).accepts(q) == Self::accepts_when_clear(),
    ;
}

} // verus!
