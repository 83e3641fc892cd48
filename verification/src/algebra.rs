use vstd::prelude::*;

verus! {

// glam's double-precision vector and quaternion are declared here so that
// values of them can be carried through the library. They stay opaque:
// nothing in the library depends on what is inside one.

#[verifier::external_type_specification]
#[verifier::external_body]
pub struct ExDVec3(glam::DVec3);

#[verifier::external_type_specification]
#[verifier::external_body]
pub struct ExDQuat(glam::DQuat);

/// A rigid-body transform: a translation and a rotation given as a unit
/// quaternion. The pose of a frame relative to its parent.
#[derive(Clone, Copy)]
pub struct Transform {
    pub translation: glam::DVec3,
    pub rotation: glam::DQuat,
}

/// The componentwise sum of two vectors, as glam's `Add for DVec3` computes it.
pub uninterp spec fn vadd_of(a: glam::DVec3, b: glam::DVec3) -> glam::DVec3;

/// The componentwise negation of a vector, as glam's `Neg for DVec3` computes it.
pub uninterp spec fn vneg_of(v: glam::DVec3) -> glam::DVec3;

/// The vector `v` rotated by the quaternion `q`, as glam's `Mul<DVec3> for
/// DQuat` computes it.
pub uninterp spec fn rotate_of(q: glam::DQuat, v: glam::DVec3) -> glam::DVec3;

/// The Hamilton product of two quaternions, as glam's `Mul for DQuat`
/// computes it.
pub uninterp spec fn qmul_of(a: glam::DQuat, b: glam::DQuat) -> glam::DQuat;

/// The quaternion scaled to unit length, as glam's `DQuat::normalize`
/// computes it.
pub uninterp spec fn qnorm_of(q: glam::DQuat) -> glam::DQuat;

/// The inverse rotation, as glam's `DQuat::inverse` computes it.
pub uninterp spec fn qinv_of(q: glam::DQuat) -> glam::DQuat;

/// Holds of the zero vector `(0, 0, 0)`, the value of glam's `DVec3::ZERO`.
pub uninterp spec fn is_zero_vec(v: glam::DVec3) -> bool;

/// Holds of the identity quaternion `(0, 0, 0, 1)`, the value of glam's
/// `DQuat::IDENTITY`.
pub uninterp spec fn is_identity_quat(q: glam::DQuat) -> bool;

/// Relies on glam's `Add for DVec3`: componentwise vector addition, a
/// function of its two arguments alone. Does not panic.
#[verifier::external_body]
fn vec_add(a: glam::DVec3, b: glam::DVec3) -> (r: glam::DVec3)
    ensures
        r == vadd_of(a, b),
{
    a + b
}

/// Relies on glam's `Neg for DVec3`: componentwise negation, a function of
/// its argument alone. Does not panic.
#[verifier::external_body]
fn vec_neg(v: glam::DVec3) -> (r: glam::DVec3)
    ensures
        r == vneg_of(v),
{
    -v
}

/// Relies on glam's `Mul<DVec3> for DQuat`: rotates the vector by the
/// quaternion, a function of its two arguments alone. Does not panic with
/// glam's default features.
#[verifier::external_body]
fn quat_rotate(q: glam::DQuat, v: glam::DVec3) -> (r: glam::DVec3)
    ensures
        r == rotate_of(q, v),
{
    q * v
}

/// Relies on glam's `Mul for DQuat`: the Hamilton product, a function of its
/// two arguments alone. Does not panic with glam's default features.
#[verifier::external_body]
fn quat_mul(a: glam::DQuat, b: glam::DQuat) -> (r: glam::DQuat)
    ensures
        r == qmul_of(a, b),
{
    a * b
}

/// Relies on glam's `DQuat::normalize`: scales the quaternion to unit length,
/// a function of its argument alone. Does not panic with glam's default
/// features.
#[verifier::external_body]
fn quat_normalize(q: glam::DQuat) -> (r: glam::DQuat)
    ensures
        r == qnorm_of(q),
{
    q.normalize()
}

/// Relies on glam's `DQuat::inverse`: the conjugate, which inverts a unit
/// quaternion's rotation, a function of its argument alone. Does not panic
/// with glam's default features.
#[verifier::external_body]
fn quat_inverse(q: glam::DQuat) -> (r: glam::DQuat)
    ensures
        r == qinv_of(q),
{
    q.inverse()
}

/// Relies on glam's constant `DVec3::ZERO`, the vector `(0, 0, 0)`.
#[verifier::external_body]
fn vec_zero() -> (r: glam::DVec3)
    ensures
        is_zero_vec(r),
{
    glam::DVec3::ZERO
}

/// Relies on glam's constant `DQuat::IDENTITY`, the quaternion `(0, 0, 0, 1)`.
#[verifier::external_body]
fn quat_identity() -> (r: glam::DQuat)
    ensures
        is_identity_quat(r),
{
    glam::DQuat::IDENTITY
}

/// The identity transform: zero translation, identity rotation.
pub open spec fn is_identity(t: Transform) -> bool {
    is_zero_vec(t.translation) && is_identity_quat(t.rotation)
}

/// What `compose` returns: `result.translation = a.translation +
/// a.rotation.rotate(b.translation)`, `result.rotation =
/// normalize(a.rotation * b.rotation)`.
pub open spec fn spec_compose(a: Transform, b: Transform) -> Transform {
    Transform {
        translation: vadd_of(a.translation, rotate_of(a.rotation, b.translation)),
        rotation: qnorm_of(qmul_of(a.rotation, b.rotation)),
    }
}

/// What `invert_transform` returns: the rotation is inverted and the
/// translation is the negated translation carried into the inverted rotation.
pub open spec fn spec_invert(t: Transform) -> Transform {
    Transform {
        translation: rotate_of(qinv_of(t.rotation), vneg_of(t.translation)),
        rotation: qinv_of(t.rotation),
    }
}

/// The identity transform `(translation (0, 0, 0), rotation (0, 0, 0, 1))`.
pub fn identity() -> (r: Transform)
    ensures
        is_identity(r),
{
    Transform { translation: vec_zero(), rotation: quat_identity() }
}

/// Compose two rigid-body transforms: the transform equivalent to applying
/// `a` first and then `b`. The rotation is normalized after every
/// composition, which bounds drift from repeated multiplication.
pub fn compose(a: &Transform, b: &Transform) -> (r: Transform)
    ensures
        r == spec_compose(*a, *b),
{
    let translation = vec_add(a.translation, quat_rotate(a.rotation, b.translation));
    let rotation = quat_normalize(quat_mul(a.rotation, b.rotation));
    Transform { translation, rotation }
}

/// Invert a rigid-body transform, so that `compose(t, invert_transform(t))`
/// is the identity up to floating-point tolerance.
pub fn invert_transform(t: &Transform) -> (r: Transform)
    ensures
        r == spec_invert(*t),
{
    let rotation_inv = quat_inverse(t.rotation);
    let translation_inv = quat_rotate(rotation_inv, vec_neg(t.translation));
    Transform { translation: translation_inv, rotation: rotation_inv }
}

} // verus!
