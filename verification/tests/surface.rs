use trimesh_core::surface::SurfaceKind;

#[test]
fn winding_flags_per_kind() {
    // Cylinder and free-form patches report inverted normals relative to
    // plane and sphere; the driver compensates through this flag.
    assert_eq!(SurfaceKind::Plane.sign(), false);
    assert_eq!(SurfaceKind::Sphere.sign(), false);
    assert_eq!(SurfaceKind::Cylinder.sign(), true);
    assert_eq!(SurfaceKind::BSpline.sign(), true);
}

#[test]
fn kind_equality() {
    assert_eq!(SurfaceKind::Plane, SurfaceKind::Plane);
    assert_ne!(SurfaceKind::Plane, SurfaceKind::Cylinder);
    let k = SurfaceKind::Sphere;
    let copy = k;
    assert_eq!(copy, SurfaceKind::Sphere);
}
