//! Vector primitives and the per-pixel triangle tests.
//!
//! `Vector2D` is a screen-space point with `i32` components. `Vector3D`
//! holds mesh-space data as fixed-point integers: a component stores the
//! real value scaled by [`FIX_ONE`], so `FIX_ONE` itself stands for `1.0`.
//! All arithmetic on the raw components is exact, which lets every contract
//! state the result componentwise.
use vstd::prelude::*;

verus! {

/// Fixed-point scale of one `Vector3D` unit: a component of `FIX_ONE`
/// stands for the real value `1.0`.
pub const FIX_ONE: i64 = 65536;

/// Largest `Vector3D` component magnitude accepted by `dot` and `cross`:
/// products of two such components, and short sums of those products,
/// still fit the 128-bit intermediates (machine limit only).
pub const COMP_LIMIT: i64 = 0x4000_0000_0000_0000;

/// `v`'s components all lie within `[-bound, bound]`.
pub open spec fn in_range3(v: Vector3D, bound: int) -> bool {
    &&& -bound <= v.x <= bound
    &&& -bound <= v.y <= bound
    &&& -bound <= v.z <= bound
}

/// The product of two integers of magnitude at most `m` has magnitude
/// at most `m * m`.
pub(crate) proof fn lemma_mul_abs_bound(a: int, b: int, m: int)
    by (nonlinear_arith)
    requires
        -m <= a <= m,
        -m <= b <= m,
        0 <= m,
    ensures
        -(m * m) <= a * b <= m * m,
{
}

/// A 2D point or displacement in screen space, in pixels.
#[derive(Clone, Copy, Debug, PartialEq, Eq, Structural)]
pub struct Vector2D {
    pub x: i32,
    pub y: i32,
}

impl Vector2D {
    pub fn new(x: i32, y: i32) -> (r: Vector2D)
        ensures
            r.x == x,
            r.y == y,
    {
        Vector2D { x, y }
    }

    /// Componentwise sum.
    pub fn add(self, other: Vector2D) -> (r: Vector2D)
        requires
            i32::MIN <= self.x + other.x <= i32::MAX,
            i32::MIN <= self.y + other.y <= i32::MAX,
        ensures
            r.x == self.x + other.x,
            r.y == self.y + other.y,
    {
        Vector2D { x: self.x + other.x, y: self.y + other.y }
    }

    /// Componentwise difference.
    pub fn sub(self, other: Vector2D) -> (r: Vector2D)
        requires
            i32::MIN <= self.x - other.x <= i32::MAX,
            i32::MIN <= self.y - other.y <= i32::MAX,
        ensures
            r.x == self.x - other.x,
            r.y == self.y - other.y,
    {
        Vector2D { x: self.x - other.x, y: self.y - other.y }
    }

    /// Dot product, the sum of componentwise products.
    pub fn dot(self, other: Vector2D) -> (r: i32)
        requires
            i32::MIN <= self.x * other.x + self.y * other.y <= i32::MAX,
        ensures
            r == self.x * other.x + self.y * other.y,
    {
        proof {
            lemma_mul_abs_bound(self.x as int, other.x as int, 0x8000_0000);
            lemma_mul_abs_bound(self.y as int, other.y as int, 0x8000_0000);
        }
        let p: i64 = (self.x as i64) * (other.x as i64) + (self.y as i64) * (other.y as i64);
        p as i32
    }

    /// Componentwise product with a scalar.
    pub fn scale(self, k: i32) -> (r: Vector2D)
        requires
            i32::MIN <= self.x * k <= i32::MAX,
            i32::MIN <= self.y * k <= i32::MAX,
        ensures
            r.x == self.x * k,
            r.y == self.y * k,
    {
        let x: i64 = (self.x as i64) * (k as i64);
        let y: i64 = (self.y as i64) * (k as i64);
        Vector2D { x: x as i32, y: y as i32 }
    }
}

/// A 3D vector of fixed-point components (scale [`FIX_ONE`]), used for
/// mesh-space vertices, displacements and unnormalized face normals.
#[derive(Clone, Copy, Debug, PartialEq, Eq, Structural)]
pub struct Vector3D {
    pub x: i64,
    pub y: i64,
    pub z: i64,
}

/// The dot product of `a` and `b` as an unbounded integer.
pub open spec fn dot3(a: Vector3D, b: Vector3D) -> int {
    a.x * b.x + a.y * b.y + a.z * b.z
}

/// The `x` component of the cross product `a` x `b`.
pub open spec fn cross_x(a: Vector3D, b: Vector3D) -> int {
    a.y * b.z - a.z * b.y
}

/// The `y` component of the cross product `a` x `b`.
pub open spec fn cross_y(a: Vector3D, b: Vector3D) -> int {
    a.z * b.x - a.x * b.z
}

/// The `z` component of the cross product `a` x `b`.
pub open spec fn cross_z(a: Vector3D, b: Vector3D) -> int {
    a.x * b.y - a.y * b.x
}

impl Vector3D {
    pub fn new(x: i64, y: i64, z: i64) -> (r: Vector3D)
        ensures
            r.x == x,
            r.y == y,
            r.z == z,
    {
        Vector3D { x, y, z }
    }

    /// Componentwise sum.
    pub fn add(self, other: Vector3D) -> (r: Vector3D)
        requires
            i64::MIN <= self.x + other.x <= i64::MAX,
            i64::MIN <= self.y + other.y <= i64::MAX,
            i64::MIN <= self.z + other.z <= i64::MAX,
        ensures
            r.x == self.x + other.x,
            r.y == self.y + other.y,
            r.z == self.z + other.z,
    {
        Vector3D { x: self.x + other.x, y: self.y + other.y, z: self.z + other.z }
    }

    /// Componentwise difference.
    pub fn sub(self, other: Vector3D) -> (r: Vector3D)
        requires
            i64::MIN <= self.x - other.x <= i64::MAX,
            i64::MIN <= self.y - other.y <= i64::MAX,
            i64::MIN <= self.z - other.z <= i64::MAX,
        ensures
            r.x == self.x - other.x,
            r.y == self.y - other.y,
            r.z == self.z - other.z,
    {
        Vector3D { x: self.x - other.x, y: self.y - other.y, z: self.z - other.z }
    }

    /// Componentwise product with a scalar.
    pub fn scale(self, k: i64) -> (r: Vector3D)
        requires
            i64::MIN <= self.x * k <= i64::MAX,
            i64::MIN <= self.y * k <= i64::MAX,
            i64::MIN <= self.z * k <= i64::MAX,
        ensures
            r.x == self.x * k,
            r.y == self.y * k,
            r.z == self.z * k,
    {
        proof {
            lemma_mul_abs_bound(self.x as int, k as int, 0x8000_0000_0000_0000);
            lemma_mul_abs_bound(self.y as int, k as int, 0x8000_0000_0000_0000);
            lemma_mul_abs_bound(self.z as int, k as int, 0x8000_0000_0000_0000);
        }
        let x: i128 = (self.x as i128) * (k as i128);
        let y: i128 = (self.y as i128) * (k as i128);
        let z: i128 = (self.z as i128) * (k as i128);
        Vector3D { x: x as i64, y: y as i64, z: z as i64 }
    }

    /// Dot product, the sum of componentwise products.
    pub fn dot(self, other: Vector3D) -> (r: i64)
        requires
            in_range3(self, COMP_LIMIT as int),
            in_range3(other, COMP_LIMIT as int),
            i64::MIN <= dot3(self, other) <= i64::MAX,
        ensures
            r == dot3(self, other),
    {
        proof {
            lemma_mul_abs_bound(self.x as int, other.x as int, COMP_LIMIT as int);
            lemma_mul_abs_bound(self.y as int, other.y as int, COMP_LIMIT as int);
            lemma_mul_abs_bound(self.z as int, other.z as int, COMP_LIMIT as int);
        }
        let p: i128 = (self.x as i128) * (other.x as i128)
            + (self.y as i128) * (other.y as i128)
            + (self.z as i128) * (other.z as i128);
        p as i64
    }

    /// Right-hand-rule cross product.
    pub fn cross(self, other: Vector3D) -> (r: Vector3D)
        requires
            in_range3(self, COMP_LIMIT as int),
            in_range3(other, COMP_LIMIT as int),
            i64::MIN <= cross_x(self, other) <= i64::MAX,
            i64::MIN <= cross_y(self, other) <= i64::MAX,
            i64::MIN <= cross_z(self, other) <= i64::MAX,
        ensures
            r.x == cross_x(self, other),
            r.y == cross_y(self, other),
            r.z == cross_z(self, other),
    {
        proof {
            lemma_mul_abs_bound(self.x as int, other.y as int, COMP_LIMIT as int);
            lemma_mul_abs_bound(self.x as int, other.z as int, COMP_LIMIT as int);
            lemma_mul_abs_bound(self.y as int, other.x as int, COMP_LIMIT as int);
            lemma_mul_abs_bound(self.y as int, other.z as int, COMP_LIMIT as int);
            lemma_mul_abs_bound(self.z as int, other.x as int, COMP_LIMIT as int);
            lemma_mul_abs_bound(self.z as int, other.y as int, COMP_LIMIT as int);
        }
        let x: i128 = (self.y as i128) * (other.z as i128) - (self.z as i128) * (other.y as i128);
        let y: i128 = (self.z as i128) * (other.x as i128) - (self.x as i128) * (other.z as i128);
        let z: i128 = (self.x as i128) * (other.y as i128) - (self.y as i128) * (other.x as i128);
        Vector3D { x: x as i64, y: y as i64, z: z as i64 }
    }
}

/// The product of integers bounded by `ma` and `mb` in magnitude is
/// bounded by `ma * mb`.
pub(crate) proof fn lemma_mul_abs_bound2(a: int, b: int, ma: int, mb: int)
    by (nonlinear_arith)
    requires
        -ma <= a <= ma,
        -mb <= b <= mb,
        0 <= ma,
        0 <= mb,
    ensures
        -(ma * mb) <= a * b <= ma * mb,
{
}

/// The smaller of two integers.
pub open spec fn imin(a: int, b: int) -> int {
    if a <= b {
        a
    } else {
        b
    }
}

/// The larger of two integers.
pub open spec fn imax(a: int, b: int) -> int {
    if a >= b {
        a
    } else {
        b
    }
}

/// The absolute value of an integer.
pub open spec fn iabs(a: int) -> int {
    if a >= 0 {
        a
    } else {
        -a
    }
}

/// First component of the barycentric cross product `u` for point
/// `(px, py)` against triangle `(t0, t1, t2)`; `u.x / u.z` is the weight
/// of vertex `t2`.
pub open spec fn bary_ux(t0: Vector2D, t1: Vector2D, t2: Vector2D, px: int, py: int) -> int {
    (t1.x - t0.x) * (t0.y - py) - (t0.x - px) * (t1.y - t0.y)
}

/// Second component of the barycentric cross product `u`; `u.y / u.z` is
/// the weight of vertex `t1`.
pub open spec fn bary_uy(t0: Vector2D, t1: Vector2D, t2: Vector2D, px: int, py: int) -> int {
    (t0.x - px) * (t2.y - t0.y) - (t2.x - t0.x) * (t0.y - py)
}

/// Third component of the barycentric cross product `u`: twice the signed
/// area of the triangle. Zero exactly for degenerate (collinear or
/// repeated) vertices.
pub open spec fn bary_uz(t0: Vector2D, t1: Vector2D, t2: Vector2D) -> int {
    (t2.x - t0.x) * (t1.y - t0.y) - (t1.x - t0.x) * (t2.y - t0.y)
}

/// Whether `(px, py)` lies inside triangle `(t0, t1, t2)` or on its
/// boundary, by the barycentric rule: the weights
/// `(1 - (u.x + u.y) / u.z, u.y / u.z, u.x / u.z)` must all be
/// non-negative, evaluated in exact rational arithmetic (the tie-break
/// rule of this implementation). A degenerate triangle (`u.z == 0`)
/// contains no point at all.
pub open spec fn bary_inside(t0: Vector2D, t1: Vector2D, t2: Vector2D, px: int, py: int) -> bool {
    let ux = bary_ux(t0, t1, t2, px, py);
    let uy = bary_uy(t0, t1, t2, px, py);
    let uz = bary_uz(t0, t1, t2);
    if uz > 0 {
        ux >= 0 && uy >= 0 && ux + uy <= uz
    } else if uz < 0 {
        ux <= 0 && uy <= 0 && ux + uy >= uz
    } else {
        false
    }
}

/// Decides [`bary_inside`] for a concrete pixel: the containment test the
/// triangle rasterizer applies to every bounding-box candidate.
pub fn barycentric_inside(p: Vector2D, pts: &[Vector2D; 3]) -> (r: bool)
    ensures
        r == bary_inside(pts[0], pts[1], pts[2], p.x as int, p.y as int),
{
    let t0 = pts[0];
    let t1 = pts[1];
    let t2 = pts[2];
    proof {
        lemma_mul_abs_bound(t1.x - t0.x, t0.y - p.y, 0x1_0000_0000);
        lemma_mul_abs_bound(t0.x - p.x, t1.y - t0.y, 0x1_0000_0000);
        lemma_mul_abs_bound(t0.x - p.x, t2.y - t0.y, 0x1_0000_0000);
        lemma_mul_abs_bound(t2.x - t0.x, t0.y - p.y, 0x1_0000_0000);
        lemma_mul_abs_bound(t2.x - t0.x, t1.y - t0.y, 0x1_0000_0000);
        lemma_mul_abs_bound(t1.x - t0.x, t2.y - t0.y, 0x1_0000_0000);
    }
    let ux: i128 = (t1.x as i128 - t0.x as i128) * (t0.y as i128 - p.y as i128)
        - (t0.x as i128 - p.x as i128) * (t1.y as i128 - t0.y as i128);
    let uy: i128 = (t0.x as i128 - p.x as i128) * (t2.y as i128 - t0.y as i128)
        - (t2.x as i128 - t0.x as i128) * (t0.y as i128 - p.y as i128);
    let uz: i128 = (t2.x as i128 - t0.x as i128) * (t1.y as i128 - t0.y as i128)
        - (t1.x as i128 - t0.x as i128) * (t2.y as i128 - t0.y as i128);
    if uz > 0 {
        ux >= 0 && uy >= 0 && ux + uy <= uz
    } else if uz < 0 {
        ux <= 0 && uy <= 0 && ux + uy >= uz
    } else {
        false
    }
}

/// Axis-aligned bounding box of a triangle, as the pair
/// `[top_left, bottom_right]` with `top_left = (min x, max y)` and
/// `bottom_right = (max x, min y)`: the y axis counts upward here, as in
/// the rest of the pipeline.
pub fn find_triangle_bounding_box(pts: &[Vector2D; 3]) -> (r: [Vector2D; 2])
    ensures
        r[0].x == imin(pts[0].x as int, imin(pts[1].x as int, pts[2].x as int)),
        r[0].y == imax(pts[0].y as int, imax(pts[1].y as int, pts[2].y as int)),
        r[1].x == imax(pts[0].x as int, imax(pts[1].x as int, pts[2].x as int)),
        r[1].y == imin(pts[0].y as int, imin(pts[1].y as int, pts[2].y as int)),
{
    let t0 = pts[0];
    let t1 = pts[1];
    let t2 = pts[2];

    let min_x = if t0.x <= t1.x && t0.x <= t2.x {
        t0.x
    } else if t1.x <= t2.x {
        t1.x
    } else {
        t2.x
    };
    let max_x = if t0.x >= t1.x && t0.x >= t2.x {
        t0.x
    } else if t1.x >= t2.x {
        t1.x
    } else {
        t2.x
    };
    let min_y = if t0.y <= t1.y && t0.y <= t2.y {
        t0.y
    } else if t1.y <= t2.y {
        t1.y
    } else {
        t2.y
    };
    let max_y = if t0.y >= t1.y && t0.y >= t2.y {
        t0.y
    } else if t1.y >= t2.y {
        t1.y
    } else {
        t2.y
    };

    let top_left = Vector2D { x: min_x, y: max_y };
    let bottom_right = Vector2D { x: max_x, y: min_y };
    [top_left, bottom_right]
}

/// The edge function of the directed segment `a -> b` at `(px, py)`:
/// positive on one side of the line through `a` and `b`, zero on it.
pub open spec fn edge_side(a: Vector2D, b: Vector2D, px: int, py: int) -> int {
    (a.y - b.y) * px + (b.x - a.x) * py + (a.x * b.y - b.x * a.y)
}

/// Whether the three edge functions of the triangle carry one sign at
/// `(px, py)`: the edge-function formulation of triangle containment,
/// inclusive of the boundary (where an edge value is zero) for either
/// vertex orientation.
pub open spec fn edges_inside(t0: Vector2D, t1: Vector2D, t2: Vector2D, px: int, py: int) -> bool {
    let a = edge_side(t0, t1, px, py);
    let b = edge_side(t1, t2, px, py);
    let c = edge_side(t2, t0, px, py);
    (a >= 0 && b >= 0 && c >= 0) || (a <= 0 && b <= 0 && c <= 0)
}

/// Triangle containment by consistent edge-function signs: `p` is inside
/// `pts` when all three [`edge_side`] values are non-negative, or all
/// three non-positive — so edges and vertices count as inside, whichever
/// way the triangle is wound, and the test agrees with the barycentric
/// rule on every non-degenerate triangle
/// ([`lemma_containment_formulations_agree`]).
pub fn is_in_triangle(p: &Vector2D, pts: &[Vector2D; 3]) -> (r: bool)
    ensures
        r == edges_inside(pts[0], pts[1], pts[2], p.x as int, p.y as int),
{
    let t0 = pts[0];
    let t1 = pts[1];
    let t2 = pts[2];
    proof {
        lemma_mul_abs_bound(t0.y - t1.y, p.x as int, 0x1_0000_0000);
        lemma_mul_abs_bound(t1.x - t0.x, p.y as int, 0x1_0000_0000);
        lemma_mul_abs_bound(t0.x as int, t1.y as int, 0x1_0000_0000);
        lemma_mul_abs_bound(t1.x as int, t0.y as int, 0x1_0000_0000);
        lemma_mul_abs_bound(t1.y - t2.y, p.x as int, 0x1_0000_0000);
        lemma_mul_abs_bound(t2.x - t1.x, p.y as int, 0x1_0000_0000);
        lemma_mul_abs_bound(t1.x as int, t2.y as int, 0x1_0000_0000);
        lemma_mul_abs_bound(t2.x as int, t1.y as int, 0x1_0000_0000);
        lemma_mul_abs_bound(t2.y - t0.y, p.x as int, 0x1_0000_0000);
        lemma_mul_abs_bound(t0.x - t2.x, p.y as int, 0x1_0000_0000);
        lemma_mul_abs_bound(t2.x as int, t0.y as int, 0x1_0000_0000);
        lemma_mul_abs_bound(t0.x as int, t2.y as int, 0x1_0000_0000);
    }
    let a_side: i128 = (t0.y as i128 - t1.y as i128) * (p.x as i128)
        + (t1.x as i128 - t0.x as i128) * (p.y as i128)
        + ((t0.x as i128) * (t1.y as i128) - (t1.x as i128) * (t0.y as i128));
    let b_side: i128 = (t1.y as i128 - t2.y as i128) * (p.x as i128)
        + (t2.x as i128 - t1.x as i128) * (p.y as i128)
        + ((t1.x as i128) * (t2.y as i128) - (t2.x as i128) * (t1.y as i128));
    let c_side: i128 = (t2.y as i128 - t0.y as i128) * (p.x as i128)
        + (t0.x as i128 - t2.x as i128) * (p.y as i128)
        + ((t2.x as i128) * (t0.y as i128) - (t0.x as i128) * (t2.y as i128));

    (a_side >= 0 && b_side >= 0 && c_side >= 0) || (a_side <= 0 && b_side <= 0 && c_side <= 0)
}

/// The two containment formulations are built from the same three edge
/// polynomials: each barycentric cross component is the negation of one
/// [`edge_side`] value, and the doubled signed area `u.z` is the negated
/// sum of all three.
#[verifier::rlimit(60)]
proof fn lemma_edge_bary_relation(t0: Vector2D, t1: Vector2D, t2: Vector2D, px: int, py: int)
    ensures
        bary_ux(t0, t1, t2, px, py) == -edge_side(t0, t1, px, py),
        bary_uy(t0, t1, t2, px, py) == -edge_side(t2, t0, px, py),
        bary_uz(t0, t1, t2) == -(edge_side(t0, t1, px, py) + edge_side(t1, t2, px, py)
            + edge_side(t2, t0, px, py)),
{
    let a = edge_side(t0, t1, px, py);
    let b = edge_side(t1, t2, px, py);
    let c = edge_side(t2, t0, px, py);
    let ux = bary_ux(t0, t1, t2, px, py);
    let uy = bary_uy(t0, t1, t2, px, py);
    let uz = bary_uz(t0, t1, t2);
    assert(ux == -a) by (nonlinear_arith)
        requires
            a == (t0.y - t1.y) * px + (t1.x - t0.x) * py + (t0.x * t1.y - t1.x * t0.y),
            ux == (t1.x - t0.x) * (t0.y - py) - (t0.x - px) * (t1.y - t0.y),
    ;
    assert(uy == -c) by (nonlinear_arith)
        requires
            c == (t2.y - t0.y) * px + (t0.x - t2.x) * py + (t2.x * t0.y - t0.x * t2.y),
            uy == (t0.x - px) * (t2.y - t0.y) - (t2.x - t0.x) * (t0.y - py),
    ;
    assert((t0.y - t1.y) * px + (t1.y - t2.y) * px + (t2.y - t0.y) * px == 0) by (nonlinear_arith);
    assert((t1.x - t0.x) * py + (t2.x - t1.x) * py + (t0.x - t2.x) * py == 0) by (nonlinear_arith);
    assert(a + b + c == (t0.x * t1.y - t1.x * t0.y) + (t1.x * t2.y - t2.x * t1.y) + (t2.x * t0.y
        - t0.x * t2.y));
    assert(uz == -((t0.x * t1.y - t1.x * t0.y) + (t1.x * t2.y - t2.x * t1.y) + (t2.x * t0.y - t0.x
        * t2.y))) by (nonlinear_arith)
        requires
            uz == (t2.x - t0.x) * (t1.y - t0.y) - (t1.x - t0.x) * (t2.y - t0.y),
    ;
}

/// On every non-degenerate triangle the edge-function test and the
/// barycentric test agree pixel for pixel, boundary included, whichever
/// way the vertices are wound.
pub proof fn lemma_containment_formulations_agree(
    t0: Vector2D,
    t1: Vector2D,
    t2: Vector2D,
    px: int,
    py: int,
)
    requires
        bary_uz(t0, t1, t2) != 0,
    ensures
        edges_inside(t0, t1, t2, px, py) == bary_inside(t0, t1, t2, px, py),
{
    lemma_edge_bary_relation(t0, t1, t2, px, py);
}

} // verus!
