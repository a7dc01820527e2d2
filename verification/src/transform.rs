use vstd::prelude::*;
use core::ops::Neg;

use crate::direction::{Direction, Rotation};
use crate::position::{Position, PositionAnchor};
use crate::vec2::{fits_i16, local_to_global, negatable_vec, rotate_spec, Local, Vec2};

verus! {

/// A move of the bot: first a translation in the bot's local frame, then a rotation.
/// The translation is given in the frame before the rotation.
#[derive(Clone, Copy, Debug, PartialEq, Eq)]
pub struct Transform {
    vec: Vec2<Local>,
    rotation: Rotation,
}

/// The mathematical value of a transform: the translation's components and the rotation.
pub struct TransformView {
    pub vec: (int, int),
    pub rotation: Rotation,
}

impl View for Transform {
    type V = TransformView;

    closed spec fn view(&self) -> TransformView {
        TransformView { vec: self.vec@, rotation: self.rotation }
    }
}

/// Doing `a` and then `b`.
pub open spec fn chain_spec(a: TransformView, b: TransformView) -> TransformView {
    let rv = rotate_spec(b.vec, a.rotation);
    TransformView { vec: (a.vec.0 + rv.0, a.vec.1 + rv.1), rotation: a.rotation.compose(b.rotation) }
}

/// The transform that undoes `a`.
pub open spec fn inverse_spec(a: TransformView) -> TransformView {
    TransformView {
        vec: rotate_spec((-a.vec.0, -a.vec.1), a.rotation.inverse()),
        rotation: a.rotation.inverse(),
    }
}

/// The transform that changes nothing.
pub open spec fn identity_spec() -> TransformView {
    TransformView { vec: (0, 0), rotation: Rotation::Id }
}

/// Where a bot at `pos` facing `facing` ends up after `t`.
pub open spec fn apply_spec(t: TransformView, pos: (int, int), facing: Direction) -> ((int, int), Direction) {
    let g = local_to_global(t.vec, facing);
    ((pos.0 + g.0, pos.1 + g.1), facing.rotated(t.rotation))
}

impl From<Vec2<Local>> for Transform {
    fn from(value: Vec2<Local>) -> (r: Transform) {
        Transform { vec: value, rotation: Rotation::Id }
    }
}

impl vstd::std_specs::convert::FromSpecImpl<Vec2<Local>> for Transform {
    open spec fn obeys_from_spec() -> bool {
        true
    }

    open spec fn from_spec(v: Vec2<Local>) -> Transform {
        Transform::translation_spec(v)
    }
}

impl From<Rotation> for Transform {
    fn from(value: Rotation) -> (r: Transform) {
        Transform { vec: Vec2::zero(), rotation: value }
    }
}

impl vstd::std_specs::convert::FromSpecImpl<Rotation> for Transform {
    open spec fn obeys_from_spec() -> bool {
        true
    }

    open spec fn from_spec(v: Rotation) -> Transform {
        Transform::rotation_spec(v)
    }
}

impl Default for Transform {
    fn default() -> (r: Transform)
        ensures
            r@ == identity_spec(),
    {
        Transform::identity()
    }
}

impl Transform {
    /// The pure translation by `v`.
    pub closed spec fn translation_spec(v: Vec2<Local>) -> Transform {
        Transform { vec: v, rotation: Rotation::Id }
    }

    /// The pure rotation by `r`.
    pub closed spec fn rotation_spec(r: Rotation) -> Transform {
        Transform { vec: Vec2::<Local>::zero_spec(), rotation: r }
    }

    /// The pure translation and rotation have the expected values.
    pub proof fn lemma_from_values(v: Vec2<Local>, r: Rotation)
        ensures
            Transform::translation_spec(v)@ == (TransformView { vec: v@, rotation: Rotation::Id }),
            Transform::rotation_spec(r)@ == (TransformView { vec: (0, 0), rotation: r }),
    {
        Vec2::<Local>::lemma_zero_spec();
    }

    pub fn identity() -> (r: Self)
        ensures
            r@ == identity_spec(),
    {
        Self { vec: Vec2::zero(), rotation: Rotation::Id }
    }

    pub fn translation(&self) -> (r: Vec2<Local>)
        ensures
            r@ == self@.vec,
    {
        self.vec
    }

    pub fn rotation(&self) -> (r: Rotation)
        ensures
            r == self@.rotation,
    {
        self.rotation
    }

    pub fn new(translation: Vec2<Local>, rotation: Rotation) -> (r: Self)
        ensures
            r@ == (TransformView { vec: translation@, rotation }),
    {
        Self { vec: translation, rotation }
    }

    /// Doing `self` and then `next`.
    pub fn chain(&self, next: Self) -> (r: Self)
        requires
            negatable_vec(next@.vec),
            fits_i16(self@.vec.0 + rotate_spec(next@.vec, self@.rotation).0),
            fits_i16(self@.vec.1 + rotate_spec(next@.vec, self@.rotation).1),
        ensures
            r@ == chain_spec(self@, next@),
    {
        Self { vec: self.vec + next.vec.rotate(self.rotation), rotation: self.rotation + next.rotation }
    }

    /// The transform that undoes `self`: `self.chain(self.inverse())` is the identity and
    /// `self.inverse().inverse()` is `self`.
    pub fn inverse(&self) -> (r: Self)
        requires
            negatable_vec(self@.vec),
        ensures
            r@ == inverse_spec(self@),
    {
        Self { vec: self.vec.neg().rotate(self.rotation.neg()), rotation: self.rotation.neg() }
    }

    /// Where a bot at `pos` facing `facing` ends up after this transform.
    pub fn apply<A: PositionAnchor>(&self, pos: Position<A>, facing: Direction) -> (r: (
        Position<A>,
        Direction,
    ))
        requires
            negatable_vec(self@.vec),
            fits_i16(pos@.0 + local_to_global(self@.vec, facing).0),
            fits_i16(pos@.1 + local_to_global(self@.vec, facing).1),
        ensures
            (r.0@, r.1) == apply_spec(self@, pos@, facing),
    {
        (pos + self.vec.global(facing), facing + self.rotation)
    }

    /// The direction a bot facing `facing` faces after this transform.
    pub fn apply_dir(&self, facing: Direction) -> (r: Direction)
        ensures
            r == facing.rotated(self@.rotation),
    {
        facing + self.rotation
    }
}

/// A transform followed by its inverse is the identity.
pub proof fn law_chain_inverse(t: TransformView)
    ensures
        chain_spec(t, inverse_spec(t)) == identity_spec(),
{
    crate::vec2::law_rotate_inverse((-t.vec.0, -t.vec.1), t.rotation.inverse());
    crate::direction::law_rotation_inverse(Direction::East, t.rotation);
    assert(t.rotation.inverse().inverse() == t.rotation);
}

/// The inverse of the inverse is the transform itself.
pub proof fn law_inverse_involution(t: TransformView)
    ensures
        inverse_spec(inverse_spec(t)) == t,
{
    crate::direction::law_rotation_inverse(Direction::East, t.rotation);
}

/// Chaining is associative.
pub proof fn law_chain_assoc(a: TransformView, b: TransformView, c: TransformView)
    ensures
        chain_spec(chain_spec(a, b), c) == chain_spec(a, chain_spec(b, c)),
{
    crate::vec2::law_rotate_compose(c.vec, b.rotation, a.rotation);
    crate::direction::law_rotation_commutative(b.rotation, a.rotation);
    crate::vec2::law_rotate_compose(c.vec, a.rotation, b.rotation);
    assert(a.rotation.compose(b.rotation).compose(c.rotation) == a.rotation.compose(
        b.rotation.compose(c.rotation),
    )) by {
        crate::direction::lemma_rotation_assoc(a.rotation, b.rotation, c.rotation);
    }
}

/// Applying a chain is applying its parts one after the other.
pub proof fn law_apply_chain(a: TransformView, b: TransformView, pos: (int, int), facing: Direction)
    ensures
        apply_spec(chain_spec(a, b), pos, facing) == ({
            let (p1, f1) = apply_spec(a, pos, facing);
            apply_spec(b, p1, f1)
        }),
{
    crate::vec2::law_global_rotated(b.vec, facing, a.rotation);
    crate::direction::law_direction_add_assoc(facing, a.rotation, b.rotation);
}

/// The identity transform changes nothing.
pub proof fn law_apply_identity(pos: (int, int), facing: Direction)
    ensures
        apply_spec(identity_spec(), pos, facing) == (pos, facing),
{
    crate::direction::law_rotation_inverse(facing, Rotation::Id);
}

} // verus!
