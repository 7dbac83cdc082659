//! The symmetries of an equilateral triangle: a group that is not abelian,
//! its normal subgroup of rotations, and the cosets of the rotations.
use vstd::prelude::*;

use crate::coset::CosetNormalForm;
use crate::op::{AlgebraicSet, Associative, BinaryOperator, Identity, Inverse};
use crate::quotient::NormalForm;
use crate::structure::{NormalSubgroup, Subgroup, Submonoid, Subset};

verus! {

/// A rotation of the triangle by a number of thirds of a turn.
#[derive(Clone, Copy, Debug, PartialEq, Eq, Structural)]
pub enum Rotation {
    Zero,
    One,
    Two,
}

/// A symmetry of the triangle: a rotation, followed by a reflection when
/// `reflected`.
#[derive(Clone, Copy, Debug, PartialEq, Eq, Structural)]
pub struct Symmetry {
    pub rotation: Rotation,
    pub reflected: bool,
}

/// The number of thirds of a turn.
pub open spec fn turns(r: Rotation) -> int {
    match r {
        Rotation::Zero => 0,
        Rotation::One => 1,
        Rotation::Two => 2,
    }
}

/// The rotation by `n` thirds of a turn.
pub open spec fn rotation_of(n: int) -> Rotation {
    if n % 3 == 0 {
        Rotation::Zero
    } else if n % 3 == 1 {
        Rotation::One
    } else {
        Rotation::Two
    }
}

/// `a` after `b`: reflecting reverses the direction of `b`'s rotation.
pub open spec fn compose(a: Symmetry, b: Symmetry) -> Symmetry {
    let b_turns = if a.reflected {
        (3 - turns(b.rotation)) % 3
    } else {
        turns(b.rotation)
    };
    Symmetry { rotation: rotation_of(turns(a.rotation) + b_turns), reflected: a.reflected != b.reflected }
}

/// The symmetry that undoes `a`: a reflection undoes itself.
pub open spec fn undo(a: Symmetry) -> Symmetry {
    if a.reflected {
        a
    } else {
        Symmetry { rotation: rotation_of(3 - turns(a.rotation)), reflected: false }
    }
}

impl View for Symmetry {
    type V = Symmetry;

    open spec fn view(&self) -> Symmetry {
        *self
    }
}

fn turns_of(r: Rotation) -> (n: u8)
    ensures
        n == turns(r),
{
    match r {
        Rotation::Zero => 0,
        Rotation::One => 1,
        Rotation::Two => 2,
    }
}

fn rotation_from(n: u8) -> (r: Rotation)
    ensures
        r == rotation_of(n as int),
{
    if n % 3 == 0 {
        Rotation::Zero
    } else if n % 3 == 1 {
        Rotation::One
    } else {
        Rotation::Two
    }
}

impl Symmetry {
    /// The rotation by `rotation` thirds of a turn, then reflected when
    /// `reflected`.
    pub fn new(rotation: u8, reflected: bool) -> (r: Symmetry)
        requires
            rotation < 3,
        ensures
            turns(r.rotation) == rotation,
            r.reflected == reflected,
    {
        Symmetry { rotation: rotation_from(rotation), reflected }
    }

    /// `self` after `rhs`.
    pub fn applied(self, rhs: Symmetry) -> (r: Symmetry)
        ensures
            r == compose(self, rhs),
    {
        let rhs_turns = if self.reflected {
            (3 - turns_of(rhs.rotation)) % 3
        } else {
            turns_of(rhs.rotation)
        };
        Symmetry {
            rotation: rotation_from(turns_of(self.rotation) + rhs_turns),
            reflected: self.reflected != rhs.reflected,
        }
    }

    /// The symmetry that leaves every corner in place.
    pub fn identity() -> (r: Symmetry)
        ensures
            r == (Symmetry { rotation: Rotation::Zero, reflected: false }),
    {
        Symmetry { rotation: Rotation::Zero, reflected: false }
    }

    /// The symmetry that undoes `self`.
    pub fn inversed(self) -> (r: Symmetry)
        ensures
            r == undo(self),
    {
        if self.reflected {
            self
        } else {
            Symmetry { rotation: rotation_from(3 - turns_of(self.rotation)), reflected: false }
        }
    }
}

impl AlgebraicSet for Symmetry {
    fn equals(&self, other: &Self) -> (r: bool) {
        self.rotation == other.rotation && self.reflected == other.reflected
    }

    fn duplicate(&self) -> (r: Self) {
        *self
    }
}

/// Composition of symmetries.
#[derive(Debug)]
pub struct Compose;

impl BinaryOperator for Compose {
    type Domain = Symmetry;

    open spec fn spec_apply(a: Symmetry, b: Symmetry) -> Symmetry {
        compose(a, b)
    }

    open spec fn spec_symbol() -> Seq<char> {
        "*"@
    }

    fn apply(a: Symmetry, b: Symmetry) -> (r: Symmetry) {
        a.applied(b)
    }

    fn symbol() -> (s: &'static str) {
        "*"
    }
}

impl Associative for Compose {
    proof fn lemma_associative(a: Symmetry, b: Symmetry, c: Symmetry) {
    }
}

impl Identity for Compose {
    open spec fn spec_identity() -> Symmetry {
        Symmetry { rotation: Rotation::Zero, reflected: false }
    }

    fn identity() -> (r: Symmetry) {
        Symmetry::identity()
    }

    proof fn lemma_identity(a: Symmetry) {
    }
}

impl Inverse for Compose {
    open spec fn spec_inverse(a: Symmetry) -> Symmetry {
        undo(a)
    }

    open spec fn spec_inverse_symbol() -> Seq<char> {
        "/"@
    }

    fn inverse(a: Symmetry) -> (r: Symmetry) {
        a.inversed()
    }

    fn inverse_symbol() -> (s: &'static str) {
        "/"
    }

    proof fn lemma_inverse(a: Symmetry) {
    }
}

/// The rotations: a normal subgroup of the symmetries, of index two.
#[derive(Debug)]
pub struct Rotations;

impl Subset for Rotations {
    type Superset = Symmetry;

    open spec fn spec_contains(x: Symmetry) -> bool {
        !x.reflected
    }

    fn contains(element: &Symmetry) -> (r: bool) {
        !element.reflected
    }
}

impl Submonoid for Rotations {
    type Parent = Compose;

    proof fn lemma_submonoid(a: Symmetry, b: Symmetry) {
    }
}

impl Subgroup for Rotations {
    proof fn lemma_subgroup(a: Symmetry) {
    }
}

impl NormalSubgroup for Rotations {
    proof fn lemma_normal(g: Symmetry, n: Symmetry) {
    }
}

/// Each coset of the rotations is represented by its unrotated member.
impl NormalForm<Symmetry> for Rotations {
    open spec fn spec_reduce(x: Symmetry) -> Symmetry {
        Symmetry { rotation: Rotation::Zero, reflected: x.reflected }
    }

    fn reduce(element: Symmetry) -> (r: Symmetry) {
        Symmetry { rotation: Rotation::Zero, reflected: element.reflected }
    }

    proof fn lemma_idempotent(x: Symmetry) {
    }
}

/// Two symmetries have the same unrotated member exactly when they lie in
/// the same coset of the rotations.
impl CosetNormalForm for Rotations {
    proof fn lemma_represents() {
    }
}

} // verus!
