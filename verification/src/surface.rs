//! Classification of the surface kinds a boundary patch can have.
//!
//! Each CAD primitive projects its boundary into a 2D chart before planar
//! triangulation. Whether triangles produced from that chart need their
//! winding inverted to keep 3D normals consistently outward is a fixed
//! per-kind constant, consumed by the triangulation driver. The projection
//! formulas themselves are floating-point and live outside this crate; the
//! kind tag and its winding table are plain values and are verified here.

use vstd::prelude::*;

verus! {

/// The kind of a CAD boundary surface.
///
/// The numeric payload of each kind (reference frame, transform, radius,
/// z-extents, patch control data) is floating point and is owned by the
/// projection engine around this crate; the kind tag alone decides the
/// winding-correction flag.
#[derive(Clone, Copy, Debug, PartialEq, Eq, Structural)]
pub enum SurfaceKind {
    /// A flat plane; its chart is the plane itself.
    Plane,
    /// A cylinder patch, charted as a disk scaled radially by height.
    Cylinder,
    /// A sphere patch, charted by an azimuthal-equidistant projection.
    Sphere,
    /// A free-form spline patch, charted by its own parameter domain.
    BSpline,
}

impl SurfaceKind {
    /// Whether triangles produced from this kind's 2D chart require winding
    /// inversion to keep normals consistently outward in 3D.
    ///
    /// Cylinder and free-form patches report their normals inverted relative
    /// to plane and sphere; the asymmetry is deliberate observed behaviour
    /// and the driver compensates through this flag.
    pub fn sign(&self) -> (r: bool)
        ensures
            r == (*self == SurfaceKind::Cylinder || *self == SurfaceKind::BSpline),
    {
        match self {
            SurfaceKind::Plane => false,
            SurfaceKind::Sphere => false,
            SurfaceKind::Cylinder => true,
            SurfaceKind::BSpline => true,
        }
    }
}

} // verus!
