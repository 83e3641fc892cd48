use tf_tree::Transform;
use tf_tree::compose;
use tf_tree::identity;
use tf_tree::invert_transform;

fn tf(tx: f64, ty: f64, tz: f64, rx: f64, ry: f64, rz: f64, rw: f64) -> Transform {
    Transform {
        translation: glam::DVec3::new(tx, ty, tz),
        rotation: glam::DQuat::from_xyzw(rx, ry, rz, rw),
    }
}

fn approx(a: f64, b: f64) -> bool {
    (a - b).abs() < 1e-9
}

fn tf_approx(a: &Transform, b: &Transform) -> bool {
    approx(a.translation.x, b.translation.x)
        && approx(a.translation.y, b.translation.y)
        && approx(a.translation.z, b.translation.z)
        && approx(a.rotation.x, b.rotation.x)
        && approx(a.rotation.y, b.rotation.y)
        && approx(a.rotation.z, b.rotation.z)
        && approx(a.rotation.w, b.rotation.w)
}

fn is_identity_approx(t: &Transform) -> bool {
    tf_approx(t, &tf(0.0, 0.0, 0.0, 0.0, 0.0, 0.0, 1.0))
}

const SIN45: f64 = std::f64::consts::FRAC_1_SQRT_2;

#[test]
fn identity_has_expected_components() {
    let t = identity();
    assert_eq!(t.translation.x, 0.0);
    assert_eq!(t.translation.y, 0.0);
    assert_eq!(t.translation.z, 0.0);
    assert_eq!(t.rotation.x, 0.0);
    assert_eq!(t.rotation.y, 0.0);
    assert_eq!(t.rotation.z, 0.0);
    assert_eq!(t.rotation.w, 1.0);
}

#[test]
fn compose_rotates_second_translation() {
    // A rotates 90 degrees about z and shifts by (1, 0, 0); B shifts by
    // (1, 0, 0). The rotation carries B's shift onto the y axis.
    let a = tf(1.0, 0.0, 0.0, 0.0, 0.0, SIN45, SIN45);
    let b = tf(1.0, 0.0, 0.0, 0.0, 0.0, 0.0, 1.0);
    let c = compose(&a, &b);
    assert!(approx(c.translation.x, 1.0));
    assert!(approx(c.translation.y, 1.0));
    assert!(approx(c.translation.z, 0.0));
}

#[test]
fn compose_multiplies_rotations() {
    // Two 90 degree rotations about z make a 180 degree rotation.
    let a = tf(0.0, 0.0, 0.0, 0.0, 0.0, SIN45, SIN45);
    let c = compose(&a, &a);
    assert!(approx(c.rotation.x, 0.0));
    assert!(approx(c.rotation.y, 0.0));
    assert!(approx(c.rotation.z, 1.0));
    assert!(approx(c.rotation.w, 0.0));
}

#[test]
fn invert_negates_pure_translation() {
    let t = tf(1.0, 2.0, 3.0, 0.0, 0.0, 0.0, 1.0);
    let inv = invert_transform(&t);
    assert!(approx(inv.translation.x, -1.0));
    assert!(approx(inv.translation.y, -2.0));
    assert!(approx(inv.translation.z, -3.0));
    assert!(approx(inv.rotation.w, 1.0));
}

#[test]
fn compose_with_inverse_is_identity() {
    let t = tf(1.5, -2.0, 0.25, 0.0, 0.0, SIN45, SIN45);
    let round = compose(&t, &invert_transform(&t));
    assert!(is_identity_approx(&round));
}

#[test]
fn compose_with_inverse_is_identity_general_rotation() {
    let q = glam::DQuat::from_euler(glam::EulerRot::XYZ, 0.3, -1.1, 2.0);
    let t = Transform { translation: glam::DVec3::new(-4.0, 7.5, 0.125), rotation: q };
    let round = compose(&t, &invert_transform(&t));
    assert!(is_identity_approx(&round));
}

#[test]
fn compose_is_associative() {
    let a = tf(1.0, 2.0, 3.0, 0.0, 0.0, SIN45, SIN45);
    let b = tf(-1.0, 0.5, 2.0, SIN45, 0.0, 0.0, SIN45);
    let c = tf(0.25, -0.75, 1.0, 0.0, SIN45, 0.0, SIN45);
    let left = compose(&compose(&a, &b), &c);
    let right = compose(&a, &compose(&b, &c));
    assert!(tf_approx(&left, &right));
}
