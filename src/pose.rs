//! The rigid-body transform type and the operations on it that come from bevy.
use vstd::prelude::*;

use bevy::math::{DVec3, Isometry3d};

verus! {

#[verifier::external_type_specification]
#[verifier::external_body]
pub struct ExIsometry3d(bevy::math::Isometry3d);

#[verifier::external_type_specification]
#[verifier::external_body]
pub struct ExDVec3(bevy::math::DVec3);

/// The transform that applies `local` first and then `parent`
/// (`parent * local` in bevy's notation).
pub uninterp spec fn composed(parent: Isometry3d, local: Isometry3d) -> Isometry3d;

/// The transform with translation `t` and intrinsic X-then-Y-then-Z Euler angles `r`.
pub uninterp spec fn pose_of(t: DVec3, r: DVec3) -> Isometry3d;

/// Relies on `<Isometry3d as Mul>::mul`: the composition of two isometries, which
/// depends on its two operands alone.
#[verifier::external_body]
pub(crate) fn compose(parent: &Isometry3d, local: &Isometry3d) -> (r: Isometry3d)
    ensures
        r == composed(*parent, *local),
{
    *parent * *local
}

/// Relies on `Quat::from_euler` with `EulerRot::XYZ` and on `Isometry3d::new`:
/// builds the transform of a translation and Euler angles, narrowed to single
/// precision as bevy's transforms are.
#[verifier::external_body]
pub(crate) fn pose_from_euler(t: &DVec3, r: &DVec3) -> (p: Isometry3d)
    ensures
        p == pose_of(*t, *r),
{
    let a = r.as_vec3();
    let rotation = bevy::math::Quat::from_euler(bevy::math::EulerRot::XYZ, a.x, a.y, a.z);
    Isometry3d::new(t.as_vec3(), rotation)
}

/// The translation of a transform, widened to double precision.
pub uninterp spec fn translation_of(p: Isometry3d) -> DVec3;

/// The rotation of a transform as intrinsic X-then-Y-then-Z Euler angles,
/// widened to double precision.
pub uninterp spec fn euler_of(p: Isometry3d) -> DVec3;

/// Relies on `Vec3A::as_dvec3`: the translation part of the transform,
/// converted component by component.
#[verifier::external_body]
pub(crate) fn translation_of_pose(p: &Isometry3d) -> (t: DVec3)
    ensures
        t == translation_of(*p),
{
    p.translation.as_dvec3()
}

/// Relies on `Quat::to_euler` with `EulerRot::XYZ`: the Euler angles of the
/// rotation part of the transform.
#[verifier::external_body]
pub(crate) fn euler_of_pose(p: &Isometry3d) -> (r: DVec3)
    ensures
        r == euler_of(*p),
{
    let (a, b, c) = p.rotation.to_euler(bevy::math::EulerRot::XYZ);
    DVec3::new(a.into(), b.into(), c.into())
}

} // verus!
