use crate::scalar::Scalar;
use vstd::prelude::*;

verus! {

/// What decides whether a primitive can be rendered at all: the radius of a
/// sphere, the normal of a plane.
#[derive(Clone, Copy, Debug)]
pub enum Geometry {
    Sphere { radius: Scalar },
    Plane { normal: (Scalar, Scalar, Scalar) },
}

impl Geometry {
    /// A sphere is degenerate unless its radius is above zero; a plane is
    /// degenerate when its normal has no length, that is when each of its
    /// components is zero.
    pub open spec fn degenerate(self) -> bool {
        match self {
            Geometry::Sphere { radius } => !Scalar::spec_zero().spec_lt(radius),
            Geometry::Plane { normal } => {
                &&& normal.0.spec_eq(Scalar::spec_zero())
                &&& normal.1.spec_eq(Scalar::spec_zero())
                &&& normal.2.spec_eq(Scalar::spec_zero())
            },
        }
    }

    /// Whether the primitive is degenerate.
    pub fn is_degenerate(&self) -> (r: bool)
        ensures
            r == self.degenerate(),
    {
        let zero = Scalar::zero();
        match self {
            Geometry::Sphere { radius } => !radius.gt(&zero),
            Geometry::Plane { normal } => normal.0.eq(&zero) && normal.1.eq(&zero) && normal.2.eq(
                &zero,
            ),
        }
    }
}

/// Whether a ray meets a sphere on its way forward.
///
/// `along` is the centre's offset from the ray's origin, projected on the ray's
/// direction; `offset2` is the squared distance between the centre and the
/// ray's line; `radius2` is the squared radius. The sphere is missed when it
/// lies behind the origin (`along < 0`) or when the line passes outside it
/// (`offset2 > radius2`). A NaN decides neither test, so it rejects nothing.
pub open spec fn sphere_accepts(along: Scalar, offset2: Scalar, radius2: Scalar) -> bool {
    !along.spec_lt(Scalar::spec_zero()) && !radius2.spec_lt(offset2)
}

/// Whether a ray meets the front of a plane on its way forward.
///
/// `facing` is the ray's direction projected on the plane's normal, `distance`
/// the solution of the ray-plane equation. Only a ray that moves against the
/// normal (`facing < 0`) can hit, and only ahead of its origin
/// (`distance >= 0`). A NaN decides neither test, so it rejects nothing.
pub open spec fn plane_accepts(facing: Scalar, distance: Scalar) -> bool {
    !Scalar::spec_zero().spec_le(facing) && !distance.spec_lt(Scalar::spec_zero())
}

/// Whether a ray meets a sphere on its way forward; see `sphere_accepts` for
/// the three quantities.
pub fn sphere_hit(along: Scalar, offset2: Scalar, radius2: Scalar) -> (hit: bool)
    ensures
        hit == sphere_accepts(along, offset2, radius2),
{
    let zero = Scalar::zero();
    if along.lt(&zero) {
        return false;
    }
    if offset2.gt(&radius2) {
        return false;
    }
    true
}

/// Whether a ray meets the front of a plane on its way forward; see
/// `plane_accepts` for the two quantities.
pub fn plane_hit(facing: Scalar, distance: Scalar) -> (hit: bool)
    ensures
        hit == plane_accepts(facing, distance),
{
    let zero = Scalar::zero();
    if facing.ge(&zero) {
        return false;
    }
    if distance.lt(&zero) {
        return false;
    }
    true
}

/// A sphere behind the ray's origin is never hit.
pub proof fn lemma_sphere_behind_is_missed(along: Scalar, offset2: Scalar, radius2: Scalar)
    requires
        along.spec_lt(Scalar::spec_zero()),
    ensures
        !sphere_accepts(along, offset2, radius2),
{
}

/// A ray whose line passes outside the sphere never hits it.
pub proof fn lemma_sphere_outside_is_missed(along: Scalar, offset2: Scalar, radius2: Scalar)
    requires
        radius2.spec_lt(offset2),
    ensures
        !sphere_accepts(along, offset2, radius2),
{
}

/// A ray that touches the sphere, with the sphere not behind it, hits.
pub proof fn lemma_sphere_tangent_is_hit(along: Scalar, offset2: Scalar, radius2: Scalar)
    requires
        Scalar::spec_zero().spec_le(along),
        offset2.spec_eq(radius2),
    ensures
        sphere_accepts(along, offset2, radius2),
{
}

/// A ray parallel to a plane never hits it, whichever zero the projection is.
pub proof fn lemma_plane_parallel_is_missed(facing: Scalar, distance: Scalar)
    requires
        facing.spec_eq(Scalar::spec_zero()),
    ensures
        !plane_accepts(facing, distance),
{
}

/// A ray that moves along the plane's normal, away from its front, never hits it.
pub proof fn lemma_plane_back_is_missed(facing: Scalar, distance: Scalar)
    requires
        Scalar::spec_zero().spec_lt(facing),
    ensures
        !plane_accepts(facing, distance),
{
}

} // verus!
