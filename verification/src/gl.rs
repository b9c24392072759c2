//! The drawing context: bounds-safe pixel writes, line rasterization and
//! triangle fill over a raster surface, and the flat-shaded mesh renderer.
use vstd::prelude::*;
use vstd::pervasive::VecAdditionalExecFns;
use crate::image::{Color, Image, pixel_index};
use crate::image::{lemma_rowmajor_in_range, lemma_rowmajor_join, lemma_rowmajor_split,
    lemma_rowmajor_unique};
use crate::geometry::{Vector2D, Vector3D, bary_inside, iabs, imax, imin,
    find_triangle_bounding_box, barycentric_inside, in_range3, FIX_ONE};
use crate::model::{Model, Face, RenderError, faces_ok, face_ok, coords_bounded,
    MESH_COORD_LIMIT};
use vstd::arithmetic::div_mod::{lemma_fundamental_div_mod, lemma_fundamental_div_mod_converse,
    lemma_mod_pos_bound, lemma_div_pos_is_pos};

verus! {

/// A rendering context that owns the surface being painted.
pub struct GL {
    pub image: Image,
}

/// `(x, y)` is a pixel of a `w * h` surface.
pub open spec fn in_bounds(x: int, y: int, w: int, h: int) -> bool {
    0 <= x < w && 0 <= y < h
}

/// The buffer `s` of a `w * h` surface after a bounds-checked write of
/// `color` at `(x, y)`: the pixel is replaced when it lies on the surface
/// and the buffer is untouched otherwise (the out-of-bounds policy).
pub open spec fn point_set(s: Seq<Color>, w: int, h: int, x: int, y: int, color: Color) -> Seq<
    Color,
> {
    if in_bounds(x, y, w, h) {
        s.update(pixel_index(x, y, w), color)
    } else {
        s
    }
}

/// `(px, py)` is a pixel the triangle fill paints: it lies in the
/// triangle's bounding box and passes the barycentric containment test.
pub open spec fn tri_covers(t0: Vector2D, t1: Vector2D, t2: Vector2D, px: int, py: int) -> bool {
    &&& imin(t0.x as int, imin(t1.x as int, t2.x as int)) <= px <= imax(
        t0.x as int,
        imax(t1.x as int, t2.x as int),
    )
    &&& imin(t0.y as int, imin(t1.y as int, t2.y as int)) <= py <= imax(
        t0.y as int,
        imax(t1.y as int, t2.y as int),
    )
    &&& bary_inside(t0, t1, t2, px, py)
}

/// The buffer `s` of a `w * h` surface after filling triangle
/// `(t0, t1, t2)` with `color`: every covered on-surface pixel takes the
/// color, every other pixel keeps its value.
pub open spec fn triangle_paint(
    s: Seq<Color>,
    w: int,
    h: int,
    t0: Vector2D,
    t1: Vector2D,
    t2: Vector2D,
    color: Color,
) -> Seq<Color> {
    Seq::new(s.len(), |i: int| if tri_covers(t0, t1, t2, i % w, i / w) {
        color
    } else {
        s[i]
    })
}

/// A degenerate triangle (zero signed area: collinear or repeated
/// vertices) covers no pixel, so filling it leaves the whole buffer
/// unchanged.
pub proof fn lemma_degenerate_triangle_paints_nothing(
    s: Seq<Color>,
    w: int,
    h: int,
    t0: Vector2D,
    t1: Vector2D,
    t2: Vector2D,
    color: Color,
)
    requires
        crate::geometry::bary_uz(t0, t1, t2) == 0,
    ensures
        forall|px: int, py: int| !tri_covers(t0, t1, t2, px, py),
        triangle_paint(s, w, h, t0, t1, t2, color) == s,
{
    assert(triangle_paint(s, w, h, t0, t1, t2, color) =~= s);
}

/// Absolute x span of the segment from `p0` to `p1`.
pub open spec fn line_dx(p0: Vector2D, p1: Vector2D) -> int {
    iabs(p1.x - p0.x)
}

/// Absolute y span of the segment from `p0` to `p1`.
pub open spec fn line_dy(p0: Vector2D, p1: Vector2D) -> int {
    iabs(p1.y - p0.y)
}

/// Direction of the x walk: `-1` for a leftward segment, else `1` (a zero
/// span also counts as `1`, matching the rasterizer's sign choice).
pub open spec fn line_sx(p0: Vector2D, p1: Vector2D) -> int {
    if p1.x - p0.x < 0 {
        -1
    } else {
        1
    }
}

/// Direction of the y walk: `-1` for a downward segment, else `1`.
pub open spec fn line_sy(p0: Vector2D, p1: Vector2D) -> int {
    if p1.y - p0.y < 0 {
        -1
    } else {
        1
    }
}

/// Number of steps the rasterizer walks: the span of the major axis.
pub open spec fn line_steps(p0: Vector2D, p1: Vector2D) -> int {
    if line_dx(p0, p1) > line_dy(p0, p1) {
        line_dx(p0, p1)
    } else {
        line_dy(p0, p1)
    }
}

/// The `k`-th pixel the line rasterizer plots, for `k` in
/// `0 ..= line_steps(p0, p1)`: one pixel per major-axis step, with the
/// minor coordinate advanced whenever the accumulated error
/// `2 * k * minor + major` crosses a multiple of `2 * major`.
pub open spec fn line_point(p0: Vector2D, p1: Vector2D, k: int) -> (int, int) {
    let adx = line_dx(p0, p1);
    let ady = line_dy(p0, p1);
    if adx > ady {
        (p0.x + line_sx(p0, p1) * k, p0.y + line_sy(p0, p1) * ((2 * k * ady + adx) / (2 * adx)))
    } else if ady > 0 {
        (p0.x + line_sx(p0, p1) * ((2 * k * adx + ady) / (2 * ady)), p0.y + line_sy(p0, p1) * k)
    } else {
        (p0.x as int, p0.y as int)
    }
}

/// `(px, py)` is among the first `k + 1` pixels of the rasterized line.
pub open spec fn on_line_upto(p0: Vector2D, p1: Vector2D, k: int, px: int, py: int) -> bool {
    exists|j: int| 0 <= j <= k && #[trigger] line_point(p0, p1, j) == (px, py)
}

/// `(px, py)` is a pixel of the rasterized line from `p0` to `p1`.
pub open spec fn on_line(p0: Vector2D, p1: Vector2D, px: int, py: int) -> bool {
    on_line_upto(p0, p1, line_steps(p0, p1), px, py)
}

/// The buffer `s` of a `w * h` surface after rasterizing the line from
/// `p0` to `p1` in `color`: every on-surface line pixel takes the color,
/// every other pixel keeps its value.
pub open spec fn line_paint(
    s: Seq<Color>,
    w: int,
    h: int,
    p0: Vector2D,
    p1: Vector2D,
    color: Color,
) -> Seq<Color> {
    Seq::new(s.len(), |i: int| if on_line(p0, p1, i % w, i / w) {
        color
    } else {
        s[i]
    })
}

/// Both endpoints belong to every rasterized line: pixel `0` is `p0` and
/// pixel `line_steps(p0, p1)` is `p1`.
pub proof fn lemma_line_endpoints(p0: Vector2D, p1: Vector2D)
    ensures
        on_line(p0, p1, p0.x as int, p0.y as int),
        on_line(p0, p1, p1.x as int, p1.y as int),
{
    let adx = line_dx(p0, p1);
    let ady = line_dy(p0, p1);
    let sx = line_sx(p0, p1);
    let sy = line_sy(p0, p1);
    assert(sx * adx == p1.x - p0.x && sy * ady == p1.y - p0.y) by (nonlinear_arith)
        requires
            (sx == -1 && adx == -(p1.x - p0.x)) || (sx == 1 && adx == p1.x - p0.x),
            (sy == -1 && ady == -(p1.y - p0.y)) || (sy == 1 && ady == p1.y - p0.y),
    ;
    if adx > ady {
        lemma_fundamental_div_mod_converse(adx, 2 * adx, 0, adx);
        assert(2 * 0 * ady == 0) by (nonlinear_arith);
        assert(sy * ((2 * 0 * ady + adx) / (2 * adx)) == 0) by (nonlinear_arith)
            requires
                (2 * 0 * ady + adx) / (2 * adx) == 0,
        ;
        assert(line_point(p0, p1, 0) == (p0.x as int, p0.y as int));
        assert(2 * adx * ady + adx == ady * (2 * adx) + adx) by (nonlinear_arith);
        lemma_fundamental_div_mod_converse(2 * adx * ady + adx, 2 * adx, ady, adx);
        assert(line_point(p0, p1, adx) == (p1.x as int, p1.y as int));
        assert(line_steps(p0, p1) == adx);
    } else if ady > 0 {
        lemma_fundamental_div_mod_converse(ady, 2 * ady, 0, ady);
        assert(2 * 0 * adx == 0) by (nonlinear_arith);
        assert(sx * ((2 * 0 * adx + ady) / (2 * ady)) == 0) by (nonlinear_arith)
            requires
                (2 * 0 * adx + ady) / (2 * ady) == 0,
        ;
        assert(line_point(p0, p1, 0) == (p0.x as int, p0.y as int));
        assert(2 * ady * adx + ady == adx * (2 * ady) + ady) by (nonlinear_arith);
        lemma_fundamental_div_mod_converse(2 * ady * adx + ady, 2 * ady, adx, ady);
        assert(line_point(p0, p1, ady) == (p1.x as int, p1.y as int));
        assert(line_steps(p0, p1) == ady);
    } else {
        assert(line_point(p0, p1, 0) == (p0.x as int, p0.y as int));
        assert(p1.x == p0.x && p1.y == p0.y);
    }
}

/// Both endpoints of a line that starts and ends on the surface are set
/// to the line's color after rasterization.
pub proof fn lemma_line_endpoints_plotted(
    s: Seq<Color>,
    w: int,
    h: int,
    p0: Vector2D,
    p1: Vector2D,
    color: Color,
)
    requires
        0 < w,
        0 < h,
        s.len() == w * h,
        in_bounds(p0.x as int, p0.y as int, w, h),
        in_bounds(p1.x as int, p1.y as int, w, h),
    ensures
        line_paint(s, w, h, p0, p1, color)[pixel_index(p0.x as int, p0.y as int, w)] == color,
        line_paint(s, w, h, p0, p1, color)[pixel_index(p1.x as int, p1.y as int, w)] == color,
{
    lemma_line_endpoints(p0, p1);
    lemma_rowmajor_in_range(p0.y as int, p0.x as int, w, h);
    lemma_rowmajor_join(p0.y as int, p0.x as int, w);
    lemma_rowmajor_in_range(p1.y as int, p1.x as int, w, h);
    lemma_rowmajor_join(p1.y as int, p1.x as int, w);
}

/// One plotting step of the line rasterizer: writing pixel `(x, y)`, the
/// `k_new`-th point of the line, extends a buffer that held the first
/// `k_old + 1` line pixels to one that holds the first `k_new + 1`.
proof fn lemma_line_paint_step(
    prev: Seq<Color>,
    cur: Seq<Color>,
    orig: Seq<Color>,
    w: int,
    h: int,
    p0: Vector2D,
    p1: Vector2D,
    color: Color,
    k_old: int,
    k_new: int,
    x: int,
    y: int,
)
    requires
        0 < w,
        0 < h,
        prev.len() == orig.len() == w * h,
        cur == point_set(prev, w, h, x, y, color),
        line_point(p0, p1, k_new) == (x, y),
        k_new == k_old + 1,
        0 <= k_new,
        forall|px: int, py: int|
            0 <= px < w && 0 <= py < h ==> #[trigger] prev[px + py * w] == if on_line_upto(
                p0,
                p1,
                k_old,
                px,
                py,
            ) {
                color
            } else {
                orig[px + py * w]
            },
    ensures
        forall|px: int, py: int|
            0 <= px < w && 0 <= py < h ==> #[trigger] cur[px + py * w] == if on_line_upto(
                p0,
                p1,
                k_new,
                px,
                py,
            ) {
                color
            } else {
                orig[px + py * w]
            },
{
    assert forall|px: int, py: int| 0 <= px < w && 0 <= py < h implies #[trigger] cur[px + py * w]
        == if on_line_upto(p0, p1, k_new, px, py) {
        color
    } else {
        orig[px + py * w]
    } by {
        lemma_rowmajor_in_range(py, px, w, h);
        if px == x && py == y {
            assert(in_bounds(x, y, w, h));
            assert(cur == prev.update(pixel_index(x, y, w), color));
            assert(pixel_index(x, y, w) == px + py * w);
            assert(cur[px + py * w] == color);
            assert(on_line_upto(p0, p1, k_new, px, py));
        } else {
            if in_bounds(x, y, w, h) {
                lemma_rowmajor_in_range(y, x, w, h);
                assert(px + py * w != pixel_index(x, y, w)) by {
                    if px + py * w == x + y * w {
                        lemma_rowmajor_unique(py, px, y, x, w);
                    }
                };
                assert(cur[px + py * w] == prev[px + py * w]);
            } else {
                assert(cur == prev);
            }
            assert(on_line_upto(p0, p1, k_new, px, py) == on_line_upto(p0, p1, k_old, px, py)) by {
                if on_line_upto(p0, p1, k_new, px, py) {
                    let j = choose|j: int|
                        0 <= j <= k_new && #[trigger] line_point(p0, p1, j) == (px, py);
                    assert(j != k_new);
                    assert(on_line_upto(p0, p1, k_old, px, py));
                }
            };
        }
    }
}

/// After the final step the walked pixel set is the whole line, so the
/// buffer equals [`line_paint`] of the starting buffer.
proof fn lemma_line_paint_finish(
    cur: Seq<Color>,
    orig: Seq<Color>,
    w: int,
    h: int,
    p0: Vector2D,
    p1: Vector2D,
    color: Color,
)
    requires
        0 < w,
        0 < h,
        cur.len() == orig.len() == w * h,
        forall|px: int, py: int|
            0 <= px < w && 0 <= py < h ==> #[trigger] cur[px + py * w] == if on_line(
                p0,
                p1,
                px,
                py,
            ) {
                color
            } else {
                orig[px + py * w]
            },
    ensures
        cur == line_paint(orig, w, h, p0, p1, color),
{
    let fin = line_paint(orig, w, h, p0, p1, color);
    assert forall|i: int| 0 <= i < cur.len() implies cur[i] == fin[i] by {
        lemma_rowmajor_split(i, w);
        let py = i / w;
        let px = i % w;
        assert(py < h) by (nonlinear_arith)
            requires
                0 < w,
                0 <= px < w,
                py * w + px == i,
                i < w * h,
                0 <= py,
        ;
        assert(cur[px + py * w] == if on_line(p0, p1, px, py) {
            color
        } else {
            orig[px + py * w]
        });
    }
    assert(cur =~= fin);
}

impl GL {
    /// Wraps a surface in a drawing context.
    pub fn new(image: Image) -> (r: GL)
        ensures
            r.image == image,
    {
        GL { image }
    }

    /// Writes `color` at `(x, y)`; a coordinate off the surface makes the
    /// call a silent no-op, never an error.
    pub fn set_point(&mut self, x: i32, y: i32, color: Color)
        requires
            old(self).image.wf(),
        ensures
            final(self).image.wf(),
            final(self).image.width == old(self).image.width,
            final(self).image.height == old(self).image.height,
            final(self).image.data@ == point_set(
                old(self).image.data@,
                old(self).image.width as int,
                old(self).image.height as int,
                x as int,
                y as int,
                color,
            ),
    {
        if x < 0 || y < 0 {
            return ;
        }
        if x >= self.image.width || y >= self.image.height {
            return ;
        }
        let n = self.image.data.len();
        proof {
            lemma_rowmajor_in_range(
                y as int,
                x as int,
                self.image.width as int,
                self.image.height as int,
            );
            assert(n == self.image.width * self.image.height);
        }
        let idx: usize = (x as usize) + (y as usize) * (self.image.width as usize);
        self.image.data.set(idx, color);
    }

    /// Rasterizes the segment from `p0` to `p1` in `color` with
    /// integer-only error accumulation: one pixel per major-axis step,
    /// both endpoints plotted, clipping silently at the surface edge.
    pub fn draw_line(&mut self, p0: &Vector2D, p1: &Vector2D, color: Color)
        requires
            old(self).image.wf(),
        ensures
            final(self).image.wf(),
            final(self).image.width == old(self).image.width,
            final(self).image.height == old(self).image.height,
            final(self).image.data@ == line_paint(
                old(self).image.data@,
                old(self).image.width as int,
                old(self).image.height as int,
                *p0,
                *p1,
                color,
            ),
    {
        let w = self.image.width;
        let h = self.image.height;
        let ghost orig = self.image.data@;
        let x0: i64 = p0.x as i64;
        let y0: i64 = p0.y as i64;
        let x1: i64 = p1.x as i64;
        let y1: i64 = p1.y as i64;

        let mut dx: i64 = x1 - x0;
        let mut dy: i64 = y1 - y0;
        let step_x: i64;
        let step_y: i64;

        if dx < 0 {
            dx = -dx;
            step_x = -1;
        } else {
            step_x = 1;
        }
        if dy < 0 {
            dy = -dy;
            step_y = -1;
        } else {
            step_y = 1;
        }
        assert(dx == line_dx(*p0, *p1) && dy == line_dy(*p0, *p1));
        assert(step_x == line_sx(*p0, *p1) && step_y == line_sy(*p0, *p1));
        assert(x1 == x0 + step_x * dx && y1 == y0 + step_y * dy);

        let mut x: i64 = x0;
        let mut y: i64 = y0;

        self.set_point(p0.x, p0.y, color);

        let ghost mut k: int = 0;
        let ghost mut m: int = 0;
        let ghost mut r: int = 0;

        if dx > dy {
            let mut pe: i64 = 2 * dy - dx;
            proof {
                r = dx as int;
                lemma_fundamental_div_mod_converse(dx as int, 2 * (dx as int), 0, dx as int);
                assert(2 * 0 * (dy as int) == 0) by (nonlinear_arith);
                let q0 = (2 * 0 * (dy as int) + dx) / (2 * (dx as int));
                assert(q0 == 0);
                assert(line_sy(*p0, *p1) * q0 == 0) by (nonlinear_arith)
                    requires
                        q0 == 0,
                ;
                assert(line_point(*p0, *p1, 0) == (x0 as int, y0 as int));
                assert(r == 2 * k * (dy as int) + dx - 2 * m * (dx as int)) by (nonlinear_arith)
                    requires
                        k == 0,
                        m == 0,
                        r == dx as int,
                ;
                lemma_line_paint_step(
                    orig,
                    self.image.data@,
                    orig,
                    w as int,
                    h as int,
                    *p0,
                    *p1,
                    color,
                    -1,
                    0,
                    x0 as int,
                    y0 as int,
                );
            }
            while x != x1
                invariant
                    0 < w,
                    0 < h,
                    self.image.width == w,
                    self.image.height == h,
                    self.image.data@.len() == orig.len() == w * h,
                    x0 == p0.x && y0 == p0.y && x1 == p1.x && y1 == p1.y,
                    dx == line_dx(*p0, *p1) && dy == line_dy(*p0, *p1),
                    step_x == line_sx(*p0, *p1) && step_y == line_sy(*p0, *p1),
                    x1 == x0 + step_x * dx && y1 == y0 + step_y * dy,
                    dy < dx,
                    0 <= k <= dx,
                    0 <= m <= dy,
                    x == x0 + step_x * k,
                    y == y0 + step_y * m,
                    r == 2 * k * dy + dx - 2 * m * dx,
                    0 <= r < 2 * dx,
                    pe == r + 2 * dy - 2 * dx,
                    imin(x0 as int, x1 as int) <= x <= imax(x0 as int, x1 as int),
                    imin(y0 as int, y1 as int) <= y <= imax(y0 as int, y1 as int),
                    forall|px: int, py: int|
                        0 <= px < w && 0 <= py < h ==> #[trigger] self.image.data@[px + py * w]
                            == if on_line_upto(*p0, *p1, k, px, py) {
                            color
                        } else {
                            orig[px + py * w]
                        },
                decreases dx - k,
            {
                proof {
                    assert(k < dx) by (nonlinear_arith)
                        requires
                            x == x0 + step_x * k,
                            x1 == x0 + step_x * dx,
                            x != x1,
                            k <= dx,
                            step_x == 1 || step_x == -1,
                    ;
                }
                let ghost k0 = k;
                let ghost m0 = m;
                let ghost r0 = r;
                let ghost prev = self.image.data@;
                let ghost pe0 = pe as int;

                x += step_x;
                if pe >= 0 {
                    y += step_y;
                    pe -= 2 * dx;
                }
                pe += 2 * dy;

                proof {
                    k = k0 + 1;
                    if pe0 >= 0 {
                        m = m0 + 1;
                        r = r0 + 2 * (dy as int) - 2 * (dx as int);
                    } else {
                        r = r0 + 2 * (dy as int);
                    }
                    assert(2 * k * dy == 2 * k0 * dy + 2 * dy) by (nonlinear_arith)
                        requires
                            k == k0 + 1,
                    ;
                    assert(2 * m * dx == 2 * m0 * dx + 2 * dx || m == m0) by (nonlinear_arith)
                        requires
                            m == m0 + 1 || m == m0,
                    ;
                    assert(r == 2 * k * dy + dx - 2 * m * dx);
                    assert(0 <= r < 2 * (dx as int));
                    assert(m <= dy) by (nonlinear_arith)
                        requires
                            0 <= r,
                            r == 2 * k * dy + dx - 2 * m * dx,
                            k <= dx,
                            0 < dx,
                            0 <= dy,
                    ;
                    assert(x == x0 + step_x * k && (pe0 >= 0 ==> y == y0 + step_y * m) && (pe0 < 0
                        ==> y == y0 + step_y * m)) by (nonlinear_arith)
                        requires
                            k == k0 + 1,
                            m == if pe0 >= 0 {
                                m0 + 1
                            } else {
                                m0
                            },
                            x == x0 + step_x * k0 + step_x,
                            pe0 >= 0 ==> y == y0 + step_y * m0 + step_y,
                            pe0 < 0 ==> y == y0 + step_y * m0,
                    ;
                    assert(imin(x0 as int, x1 as int) <= x <= imax(x0 as int, x1 as int))
                        by (nonlinear_arith)
                        requires
                            x == x0 + step_x * k,
                            x1 == x0 + step_x * dx,
                            0 <= k <= dx,
                            step_x == 1 || step_x == -1,
                    ;
                    assert(imin(y0 as int, y1 as int) <= y <= imax(y0 as int, y1 as int))
                        by (nonlinear_arith)
                        requires
                            y == y0 + step_y * m,
                            y1 == y0 + step_y * dy,
                            0 <= m <= dy,
                            step_y == 1 || step_y == -1,
                    ;
                    assert(2 * m * dx == m * (2 * (dx as int))) by (nonlinear_arith);
                    lemma_fundamental_div_mod_converse(
                        2 * k * (dy as int) + dx,
                        2 * (dx as int),
                        m,
                        r,
                    );
                    assert(line_point(*p0, *p1, k) == (x as int, y as int));
                }
                let px32: i32 = x as i32;
                let py32: i32 = y as i32;
                assert(px32 as int == x as int && py32 as int == y as int);
                self.set_point(px32, py32, color);
                proof {
                    lemma_line_paint_step(
                        prev,
                        self.image.data@,
                        orig,
                        w as int,
                        h as int,
                        *p0,
                        *p1,
                        color,
                        k0,
                        k,
                        x as int,
                        y as int,
                    );
                }
            }
            proof {
                assert(k == dx) by (nonlinear_arith)
                    requires
                        x == x0 + step_x * k,
                        x1 == x0 + step_x * dx,
                        x == x1,
                        step_x == 1 || step_x == -1,
                ;
                assert(line_steps(*p0, *p1) == dx);
                lemma_line_paint_finish(
                    self.image.data@,
                    orig,
                    w as int,
                    h as int,
                    *p0,
                    *p1,
                    color,
                );
            }
        } else {
            let mut pe: i64 = 2 * dx - dy;
            proof {
                if dy > 0 {
                    r = dy as int;
                    lemma_fundamental_div_mod_converse(dy as int, 2 * (dy as int), 0, dy as int);
                    assert(2 * 0 * (dx as int) == 0) by (nonlinear_arith);
                    let q0 = (2 * 0 * (dx as int) + dy) / (2 * (dy as int));
                    assert(q0 == 0);
                    assert(line_sx(*p0, *p1) * q0 == 0) by (nonlinear_arith)
                        requires
                            q0 == 0,
                    ;
                    assert(r == 2 * k * (dx as int) + dy - 2 * m * (dy as int)) by (nonlinear_arith)
                        requires
                            k == 0,
                            m == 0,
                            r == dy as int,
                    ;
                }
                assert(line_point(*p0, *p1, 0) == (x0 as int, y0 as int));
                lemma_line_paint_step(
                    orig,
                    self.image.data@,
                    orig,
                    w as int,
                    h as int,
                    *p0,
                    *p1,
                    color,
                    -1,
                    0,
                    x0 as int,
                    y0 as int,
                );
            }
            while y != y1
                invariant
                    0 < w,
                    0 < h,
                    self.image.width == w,
                    self.image.height == h,
                    self.image.data@.len() == orig.len() == w * h,
                    x0 == p0.x && y0 == p0.y && x1 == p1.x && y1 == p1.y,
                    dx == line_dx(*p0, *p1) && dy == line_dy(*p0, *p1),
                    step_x == line_sx(*p0, *p1) && step_y == line_sy(*p0, *p1),
                    x1 == x0 + step_x * dx && y1 == y0 + step_y * dy,
                    dx <= dy,
                    0 <= k <= dy,
                    0 <= m <= dx,
                    y == y0 + step_y * k,
                    x == x0 + step_x * m,
                    0 < dy ==> r == 2 * k * dx + dy - 2 * m * dy,
                    0 < dy ==> 0 <= r < 2 * dy,
                    0 < dy ==> pe == r + 2 * dx - 2 * dy,
                    imin(x0 as int, x1 as int) <= x <= imax(x0 as int, x1 as int),
                    imin(y0 as int, y1 as int) <= y <= imax(y0 as int, y1 as int),
                    forall|px: int, py: int|
                        0 <= px < w && 0 <= py < h ==> #[trigger] self.image.data@[px + py * w]
                            == if on_line_upto(*p0, *p1, k, px, py) {
                            color
                        } else {
                            orig[px + py * w]
                        },
                decreases dy - k,
            {
                proof {
                    assert(0 < dy && k < dy) by (nonlinear_arith)
                        requires
                            y == y0 + step_y * k,
                            y1 == y0 + step_y * dy,
                            y != y1,
                            0 <= k <= dy,
                            step_y == 1 || step_y == -1,
                    ;
                }
                let ghost k0 = k;
                let ghost m0 = m;
                let ghost r0 = r;
                let ghost prev = self.image.data@;
                let ghost pe0 = pe as int;

                y += step_y;
                if pe >= 0 {
                    x += step_x;
                    pe -= 2 * dy;
                }
                pe += 2 * dx;

                proof {
                    k = k0 + 1;
                    if pe0 >= 0 {
                        m = m0 + 1;
                        r = r0 + 2 * (dx as int) - 2 * (dy as int);
                    } else {
                        r = r0 + 2 * (dx as int);
                    }
                    assert(2 * k * dx == 2 * k0 * dx + 2 * dx) by (nonlinear_arith)
                        requires
                            k == k0 + 1,
                    ;
                    assert(2 * m * dy == 2 * m0 * dy + 2 * dy || m == m0) by (nonlinear_arith)
                        requires
                            m == m0 + 1 || m == m0,
                    ;
                    assert(r == 2 * k * dx + dy - 2 * m * dy);
                    assert(0 <= r < 2 * (dy as int));
                    assert(m <= dx) by (nonlinear_arith)
                        requires
                            0 <= r,
                            r == 2 * k * dx + dy - 2 * m * dy,
                            k <= dy,
                            0 < dy,
                            0 <= dx,
                    ;
                    assert(y == y0 + step_y * k && (pe0 >= 0 ==> x == x0 + step_x * m) && (pe0 < 0
                        ==> x == x0 + step_x * m)) by (nonlinear_arith)
                        requires
                            k == k0 + 1,
                            m == if pe0 >= 0 {
                                m0 + 1
                            } else {
                                m0
                            },
                            y == y0 + step_y * k0 + step_y,
                            pe0 >= 0 ==> x == x0 + step_x * m0 + step_x,
                            pe0 < 0 ==> x == x0 + step_x * m0,
                    ;
                    assert(imin(y0 as int, y1 as int) <= y <= imax(y0 as int, y1 as int))
                        by (nonlinear_arith)
                        requires
                            y == y0 + step_y * k,
                            y1 == y0 + step_y * dy,
                            0 <= k <= dy,
                            step_y == 1 || step_y == -1,
                    ;
                    assert(imin(x0 as int, x1 as int) <= x <= imax(x0 as int, x1 as int))
                        by (nonlinear_arith)
                        requires
                            x == x0 + step_x * m,
                            x1 == x0 + step_x * dx,
                            0 <= m <= dx,
                            step_x == 1 || step_x == -1,
                    ;
                    assert(2 * m * dy == m * (2 * (dy as int))) by (nonlinear_arith);
                    lemma_fundamental_div_mod_converse(
                        2 * k * (dx as int) + dy,
                        2 * (dy as int),
                        m,
                        r,
                    );
                    assert(line_point(*p0, *p1, k) == (x as int, y as int));
                }
                let px32: i32 = x as i32;
                let py32: i32 = y as i32;
                assert(px32 as int == x as int && py32 as int == y as int);
                self.set_point(px32, py32, color);
                proof {
                    lemma_line_paint_step(
                        prev,
                        self.image.data@,
                        orig,
                        w as int,
                        h as int,
                        *p0,
                        *p1,
                        color,
                        k0,
                        k,
                        x as int,
                        y as int,
                    );
                }
            }
            proof {
                assert(k == dy) by (nonlinear_arith)
                    requires
                        y == y0 + step_y * k,
                        y1 == y0 + step_y * dy,
                        y == y1,
                        step_y == 1 || step_y == -1,
                ;
                assert(line_steps(*p0, *p1) == dy);
                lemma_line_paint_finish(
                    self.image.data@,
                    orig,
                    w as int,
                    h as int,
                    *p0,
                    *p1,
                    color,
                );
            }
        }
    }

    /// Fills the triangle `pts` with `color`: scans the bounding box and
    /// paints exactly the pixels that pass the barycentric containment
    /// test, clipping silently at the surface edge.
    pub fn draw_triangle(&mut self, pts: [Vector2D; 3], color: Color)
        requires
            old(self).image.wf(),
        ensures
            final(self).image.wf(),
            final(self).image.width == old(self).image.width,
            final(self).image.height == old(self).image.height,
            final(self).image.data@ == triangle_paint(
                old(self).image.data@,
                old(self).image.width as int,
                old(self).image.height as int,
                pts[0],
                pts[1],
                pts[2],
                color,
            ),
    {
        let t0 = pts[0];
        let t1 = pts[1];
        let t2 = pts[2];
        let w = self.image.width;
        let h = self.image.height;
        let ghost orig = self.image.data@;
        let bbox = find_triangle_bounding_box(&pts);
        let top_left = bbox[0];
        let bottom_right = bbox[1];

        let mut x: i64 = top_left.x as i64;
        let mut y: i64 = bottom_right.y as i64;

        while x <= bottom_right.x as i64
            invariant
                0 < w,
                0 < h,
                self.image.width == w,
                self.image.height == h,
                self.image.data@.len() == orig.len() == w * h,
                t0 == pts[0] && t1 == pts[1] && t2 == pts[2],
                top_left.x <= x <= bottom_right.x as i64 + 1,
                y == bottom_right.y as i64,
                top_left.x == imin(t0.x as int, imin(t1.x as int, t2.x as int)),
                top_left.y == imax(t0.y as int, imax(t1.y as int, t2.y as int)),
                bottom_right.x == imax(t0.x as int, imax(t1.x as int, t2.x as int)),
                bottom_right.y == imin(t0.y as int, imin(t1.y as int, t2.y as int)),
                forall|px: int, py: int|
                    0 <= px < w && 0 <= py < h ==> #[trigger] self.image.data@[px + py * w]
                        == if tri_covers(t0, t1, t2, px, py) && px < x {
                        color
                    } else {
                        orig[px + py * w]
                    },
            decreases bottom_right.x as i64 + 1 - x,
        {
            while y <= top_left.y as i64
                invariant
                    0 < w,
                    0 < h,
                    self.image.width == w,
                    self.image.height == h,
                    self.image.data@.len() == orig.len() == w * h,
                    t0 == pts[0] && t1 == pts[1] && t2 == pts[2],
                    top_left.x <= x <= bottom_right.x as i64,
                    bottom_right.y as i64 <= y <= top_left.y as i64 + 1,
                    top_left.x == imin(t0.x as int, imin(t1.x as int, t2.x as int)),
                    top_left.y == imax(t0.y as int, imax(t1.y as int, t2.y as int)),
                    bottom_right.x == imax(t0.x as int, imax(t1.x as int, t2.x as int)),
                    bottom_right.y == imin(t0.y as int, imin(t1.y as int, t2.y as int)),
                    forall|px: int, py: int|
                        0 <= px < w && 0 <= py < h ==> #[trigger] self.image.data@[px + py * w]
                            == if tri_covers(t0, t1, t2, px, py) && (px < x || (px == x && py < y)) {
                            color
                        } else {
                            orig[px + py * w]
                        },
                decreases top_left.y as i64 + 1 - y,
            {
                let px32: i32 = x as i32;
                let py32: i32 = y as i32;
                assert(px32 as int == x as int && py32 as int == y as int);
                let p = Vector2D { x: px32, y: py32 };
                let ghost prev = self.image.data@;
                if barycentric_inside(p, &pts) {
                    self.set_point(px32, py32, color);
                }
                proof {
                    let xi = x as int;
                    let yi = y as int;
                    let ghost cur = self.image.data@;
                    assert forall|px: int, py: int| 0 <= px < w && 0 <= py < h implies #[trigger] cur[px
                        + py * w] == if tri_covers(t0, t1, t2, px, py) && (px < xi || (px == xi && py
                        < yi + 1)) {
                        color
                    } else {
                        orig[px + py * w]
                    } by {
                        lemma_rowmajor_in_range(py, px, w as int, h as int);
                        assert(prev[px + py * w] == if tri_covers(t0, t1, t2, px, py) && (px < xi
                            || (px == xi && py < yi)) {
                            color
                        } else {
                            orig[px + py * w]
                        });
                        if px == xi && py == yi {
                            if bary_inside(t0, t1, t2, xi, yi) {
                                assert(in_bounds(xi, yi, w as int, h as int));
                                assert(cur == prev.update(pixel_index(xi, yi, w as int), color));
                                assert(pixel_index(xi, yi, w as int) == px + py * w);
                                assert(cur[px + py * w] == color);
                                assert(tri_covers(t0, t1, t2, px, py));
                            } else {
                                assert(cur == prev);
                                assert(!tri_covers(t0, t1, t2, px, py));
                            }
                        } else {
                            if in_bounds(xi, yi, w as int, h as int) && bary_inside(
                                t0,
                                t1,
                                t2,
                                xi,
                                yi,
                            ) {
                                lemma_rowmajor_in_range(yi, xi, w as int, h as int);
                                assert(px + py * w != pixel_index(xi, yi, w as int)) by {
                                    if px + py * w == xi + yi * w {
                                        lemma_rowmajor_unique(py, px, yi, xi, w as int);
                                    }
                                };
                                assert(cur[px + py * w] == prev[px + py * w]);
                            } else {
                                assert(cur == prev);
                            }
                        }
                    }
                }
                y = y + 1;
            }
            y = bottom_right.y as i64;
            x = x + 1;
        }
        proof {
            let fin = triangle_paint(orig, w as int, h as int, t0, t1, t2, color);
            assert forall|i: int| 0 <= i < self.image.data@.len() implies self.image.data@[i]
                == fin[i] by {
                lemma_rowmajor_split(i, w as int);
                let py = i / w as int;
                let px = i % w as int;
                assert(py < h) by (nonlinear_arith)
                    requires
                        0 < w,
                        0 <= px < w,
                        py * w + px == i,
                        i < w * h,
                        0 <= py,
                ;
                assert(self.image.data@[px + py * w] == if tri_covers(t0, t1, t2, px, py) && px < x {
                    color
                } else {
                    orig[px + py * w]
                });
            }
            assert(self.image.data@ =~= fin);
        }
    }
}

/// Floor of the square root: the greatest `r` with `r * r <= n`.
pub open spec fn isqrt(n: nat) -> nat
    decreases n,
{
    if n == 0 {
        0
    } else {
        let r = isqrt((n - 1) as nat);
        if (r + 1) * (r + 1) <= n {
            r + 1
        } else {
            r
        }
    }
}

/// [`isqrt`] is the floor of the square root: it squares to at most `n`
/// and its successor squares above `n`.
pub proof fn lemma_isqrt_bounds(n: nat)
    ensures
        isqrt(n) * isqrt(n) <= n,
        n < (isqrt(n) + 1) * (isqrt(n) + 1),
    decreases n,
{
    if n == 0 {
        assert(isqrt(n) == 0);
        assert(n < (isqrt(n) + 1) * (isqrt(n) + 1)) by (nonlinear_arith)
            requires
                n == 0,
                isqrt(n) == 0,
        ;
    } else {
        lemma_isqrt_bounds((n - 1) as nat);
        let r = isqrt((n - 1) as nat);
        if (r + 1) * (r + 1) <= n {
            assert(isqrt(n) == r + 1);
            assert(n - 1 < (r + 1) * (r + 1));
            assert(n < (isqrt(n) + 1) * (isqrt(n) + 1)) by (nonlinear_arith)
                requires
                    n <= (r + 1) * (r + 1),
                    isqrt(n) == r + 1,
                    0 <= r,
            ;
        } else {
            assert(isqrt(n) == r);
            assert(r * r <= n - 1 <= n);
        }
    }
}

/// The floor square root is the unique `r` with
/// `r * r <= n < (r + 1) * (r + 1)`.
pub proof fn lemma_isqrt_unique(n: nat, r: nat)
    requires
        r * r <= n,
        n < (r + 1) * (r + 1),
    ensures
        r == isqrt(n),
{
    lemma_isqrt_bounds(n);
    let q = isqrt(n);
    if r < q {
        assert((r + 1) * (r + 1) <= q * q) by (nonlinear_arith)
            requires
                r + 1 <= q,
                0 <= r,
        ;
    }
    if q < r {
        assert((q + 1) * (q + 1) <= r * r) by (nonlinear_arith)
            requires
                q + 1 <= r,
                0 <= q,
        ;
    }
}

/// The x component of the unnormalized face normal
/// `(v2 - v1) x (v1 - v0)` — that operand order fixes the outward sign
/// convention.
pub open spec fn normal_x(v0: Vector3D, v1: Vector3D, v2: Vector3D) -> int {
    (v2.y - v1.y) * (v1.z - v0.z) - (v2.z - v1.z) * (v1.y - v0.y)
}

/// The y component of the unnormalized face normal.
pub open spec fn normal_y(v0: Vector3D, v1: Vector3D, v2: Vector3D) -> int {
    (v2.z - v1.z) * (v1.x - v0.x) - (v2.x - v1.x) * (v1.z - v0.z)
}

/// The z component of the unnormalized face normal.
pub open spec fn normal_z(v0: Vector3D, v1: Vector3D, v2: Vector3D) -> int {
    (v2.x - v1.x) * (v1.y - v0.y) - (v2.y - v1.y) * (v1.x - v0.x)
}

/// The face is rendered: with the light pointing along `(0, 0, -1)`, the
/// shading intensity `dot(normal / |normal|, light) = -nz / |normal|` is
/// strictly positive exactly when `nz < 0`. A degenerate face (zero
/// normal) has `nz == 0` and is skipped, never normalized.
pub open spec fn face_visible(v0: Vector3D, v1: Vector3D, v2: Vector3D) -> bool {
    normal_z(v0, v1, v2) < 0
}

/// The flat-shading gray level for a normal `(nx, ny, nz)`:
/// `floor(255 * (-nz) / |normal|)`, computed exactly as the floor square
/// root of `(255 * (-nz))^2 / (nx^2 + ny^2 + nz^2)`. Zero for a zero
/// normal.
pub open spec fn shade_of(nx: int, ny: int, nz: int) -> int {
    let s = nx * nx + ny * ny + nz * nz;
    if s > 0 {
        isqrt((((255 * (-nz)) * (255 * (-nz))) / s) as nat) as int
    } else {
        0
    }
}

/// The gray level of a face, from its unnormalized normal.
pub open spec fn shade_level(v0: Vector3D, v1: Vector3D, v2: Vector3D) -> int {
    shade_of(normal_x(v0, v1, v2), normal_y(v0, v1, v2), normal_z(v0, v1, v2))
}

/// The solid color a visible face is filled with: its gray level on the
/// three color channels, fully opaque.
pub open spec fn face_color(v0: Vector3D, v1: Vector3D, v2: Vector3D) -> Color {
    Color(
        shade_level(v0, v1, v2) as u8,
        shade_level(v0, v1, v2) as u8,
        shade_level(v0, v1, v2) as u8,
        255,
    )
}

/// Integer division rounding toward zero (for a positive divisor).
pub open spec fn trunc_div(a: int, b: int) -> int {
    if a >= 0 {
        a / b
    } else {
        -((-a) / b)
    }
}

/// `a` clamped to the `i32` range, as a value cast to `i32` saturates.
pub open spec fn clamp_to_i32(a: int) -> int {
    if a < i32::MIN {
        i32::MIN as int
    } else if a > i32::MAX {
        i32::MAX as int
    } else {
        a
    }
}

/// Screen x of a mesh-space vertex: `trunc((v.x + 1) * width / 2)` in
/// exact fixed-point arithmetic, saturated to the `i32` range. Mesh
/// coordinates are assumed pre-normalized to `[-1, 1]`; nothing clips
/// here — an off-screen result is dropped later by the surface's bounds
/// check.
pub open spec fn project_x(v: Vector3D, w: int) -> int {
    clamp_to_i32(trunc_div((v.x + FIX_ONE) * w, 2 * FIX_ONE))
}

/// Screen y of a mesh-space vertex: `trunc((v.y + 1) * height / 2)`.
pub open spec fn project_y(v: Vector3D, h: int) -> int {
    clamp_to_i32(trunc_div((v.y + FIX_ONE) * h, 2 * FIX_ONE))
}

/// The screen-space point of a mesh-space vertex on a `w * h` surface.
pub open spec fn projected(v: Vector3D, w: int, h: int) -> Vector2D {
    Vector2D { x: project_x(v, w) as i32, y: project_y(v, h) as i32 }
}

/// The buffer `s` after rendering one face: a visible face fills its
/// projected triangle with its shaded color, an invisible one leaves the
/// buffer untouched.
pub open spec fn paint_face(s: Seq<Color>, vs: Seq<Vector3D>, f: Face, w: int, h: int) -> Seq<
    Color,
> {
    let v0 = vs[f[0] as int];
    let v1 = vs[f[1] as int];
    let v2 = vs[f[2] as int];
    if face_visible(v0, v1, v2) {
        triangle_paint(
            s,
            w,
            h,
            projected(v0, w, h),
            projected(v1, w, h),
            projected(v2, w, h),
            face_color(v0, v1, v2),
        )
    } else {
        s
    }
}

/// The buffer `s` after rendering the first `n` faces, in face order:
/// later faces overwrite earlier ones where they overlap.
pub open spec fn render_upto(
    s: Seq<Color>,
    vs: Seq<Vector3D>,
    fs: Seq<Face>,
    w: int,
    h: int,
    n: int,
) -> Seq<Color>
    decreases n,
{
    if n <= 0 {
        s
    } else {
        paint_face(render_upto(s, vs, fs, w, h, n - 1), vs, fs[n - 1], w, h)
    }
}

/// Back-face culling: a face whose normal has `nz >= 0` — so its dot
/// with the light `(0, 0, -1)` is zero or negative, or the face is
/// degenerate — contributes no pixel to the surface.
pub proof fn lemma_backface_contributes_nothing(
    s: Seq<Color>,
    vs: Seq<Vector3D>,
    f: Face,
    w: int,
    h: int,
)
    requires
        normal_z(vs[f[0] as int], vs[f[1] as int], vs[f[2] as int]) >= 0,
    ensures
        paint_face(s, vs, f, w, h) == s,
{
}

/// Largest normal component magnitude [`shade_alpha`] accepts (machine
/// limit: keeps its squares inside 128-bit arithmetic).
pub const NORMAL_COMP_LIMIT: i64 = 0x10_0000_0000_0000;

/// Integer division truncating toward zero, for a positive divisor.
fn trunc_div_i128(a: i128, b: i128) -> (q: i128)
    requires
        0 < b,
        i128::MIN < a,
    ensures
        q == trunc_div(a as int, b as int),
{
    if a >= 0 {
        let m: u128 = (a as u128) / (b as u128);
        m as i128
    } else {
        let m: u128 = ((-a) as u128) / (b as u128);
        proof {
            assert((-a) as u128 / (b as u128) <= (-a) as u128);
        }
        -(m as i128)
    }
}

/// Saturating narrowing to `i32`, as a float-to-`i32` cast saturates.
fn clamp_i32(a: i128) -> (r: i32)
    ensures
        r as int == clamp_to_i32(a as int),
{
    if a < i32::MIN as i128 {
        i32::MIN
    } else if a > i32::MAX as i128 {
        i32::MAX
    } else {
        a as i32
    }
}

/// Projects a mesh-space vertex to integer screen coordinates on a
/// `w * h` surface.
pub fn project_vertex(v: &Vector3D, w: i32, h: i32) -> (r: Vector2D)
    requires
        0 < w,
        0 < h,
    ensures
        r == projected(*v, w as int, h as int),
{
    proof {
        crate::geometry::lemma_mul_abs_bound2(
            v.x + FIX_ONE,
            w as int,
            0x8001_0000_0000_0000,
            0x8000_0000,
        );
        crate::geometry::lemma_mul_abs_bound2(
            v.y + FIX_ONE,
            h as int,
            0x8001_0000_0000_0000,
            0x8000_0000,
        );
    }
    let num_x: i128 = (v.x as i128 + FIX_ONE as i128) * (w as i128);
    let num_y: i128 = (v.y as i128 + FIX_ONE as i128) * (h as i128);
    let d: i128 = 2 * (FIX_ONE as i128);
    let qx = trunc_div_i128(num_x, d);
    let qy = trunc_div_i128(num_y, d);
    let rx = clamp_i32(qx);
    let ry = clamp_i32(qy);
    Vector2D { x: rx, y: ry }
}

/// The flat-shading gray level of a face with unnormalized normal
/// `(nx, ny, nz)`: exactly `floor(255 * (-nz) / |normal|)`, and `0` for a
/// zero normal.
fn shade_alpha(nx: i64, ny: i64, nz: i64) -> (r: u8)
    requires
        -NORMAL_COMP_LIMIT <= nx <= NORMAL_COMP_LIMIT,
        -NORMAL_COMP_LIMIT <= ny <= NORMAL_COMP_LIMIT,
        -NORMAL_COMP_LIMIT <= nz <= NORMAL_COMP_LIMIT,
    ensures
        r as int == shade_of(nx as int, ny as int, nz as int),
{
    proof {
        crate::geometry::lemma_mul_abs_bound(nx as int, nx as int, NORMAL_COMP_LIMIT as int);
        crate::geometry::lemma_mul_abs_bound(ny as int, ny as int, NORMAL_COMP_LIMIT as int);
        crate::geometry::lemma_mul_abs_bound(nz as int, nz as int, NORMAL_COMP_LIMIT as int);
        assert(nx * nx >= 0 && ny * ny >= 0 && nz * nz >= 0) by (nonlinear_arith);
    }
    let x128: i128 = nx as i128;
    let y128: i128 = ny as i128;
    let z128: i128 = nz as i128;
    let s: i128 = x128 * x128 + y128 * y128 + z128 * z128;
    if s == 0 {
        return 0;
    }
    let t: i128 = 255 * (-z128);
    proof {
        crate::geometry::lemma_mul_abs_bound(t as int, t as int, 0x1000_0000_0000_0000);
        assert(t * t >= 0) by (nonlinear_arith);
    }
    let num: i128 = t * t;
    let q: u128 = (num as u128) / (s as u128);
    proof {
        assert(t * t == 65025 * (nz * nz)) by (nonlinear_arith)
            requires
                t == 255 * (-(nz as int)),
        ;
        assert(num <= 65025 * s);
        vstd::arithmetic::div_mod::lemma_div_is_ordered(num as int, 65025 * s, s as int);
        lemma_fundamental_div_mod_converse(65025 * (s as int), s as int, 65025, 0);
        assert(q <= 65025);
    }
    let mut a: u128 = 0;
    while (a + 1) * (a + 1) <= q
        invariant
            q <= 65025,
            0 <= a <= 255,
            a * a <= q,
            (a + 1) * (a + 1) <= 0x1_0000,
        decreases 256 - a,
    {
        proof {
            assert(a + 1 <= 255) by (nonlinear_arith)
                requires
                    (a + 1) * (a + 1) <= 65025,
                    0 <= a,
            ;
        }
        a = a + 1;
        proof {
            assert((a + 1) * (a + 1) <= 0x1_0000) by (nonlinear_arith)
                requires
                    a <= 255,
            ;
        }
    }
    proof {
        lemma_isqrt_unique(q as nat, a as nat);
    }
    a as u8
}

impl GL {
    /// Renders a mesh: per face, looks the vertices up (an out-of-range
    /// index aborts the whole render with `IndexOutOfRange` before any
    /// pixel is painted), projects them to screen space, and fills the
    /// triangle of every visible face with its flat-shaded gray, in face
    /// order.
    pub fn render(&mut self, model: &Model) -> (r: Result<(), RenderError>)
        requires
            old(self).image.wf(),
            coords_bounded(model.vertices@),
        ensures
            final(self).image.wf(),
            final(self).image.width == old(self).image.width,
            final(self).image.height == old(self).image.height,
            r is Ok <==> faces_ok(model.faces@, model.vertices@.len() as int),
            r is Ok ==> final(self).image.data@ == render_upto(
                old(self).image.data@,
                model.vertices@,
                model.faces@,
                old(self).image.width as int,
                old(self).image.height as int,
                model.faces@.len() as int,
            ),
            r is Err ==> final(self).image.data@ == old(self).image.data@ && r == Err::<
                (),
                RenderError,
            >(RenderError::IndexOutOfRange),
    {
        let w = self.image.width;
        let h = self.image.height;
        let ghost orig = self.image.data@;
        let nv = model.vertices.len();

        let mut i: usize = 0;
        while i < model.faces.len()
            invariant
                old(self).image.wf(),
                self.image == old(self).image,
                nv == model.vertices@.len(),
                0 <= i <= model.faces@.len(),
                forall|j: int| 0 <= j < i ==> face_ok(#[trigger] model.faces@[j], nv as int),
            decreases model.faces@.len() - i,
        {
            let f = model.faces[i];
            if f[0] < 0 || f[0] as usize >= nv || f[1] < 0 || f[1] as usize >= nv || f[2] < 0
                || f[2] as usize >= nv {
                return Err(RenderError::IndexOutOfRange);
            }
            i = i + 1;
        }

        let n_faces = model.faces.len();
        let mut fi: usize = 0;
        while fi < n_faces
            invariant
                0 < w,
                0 < h,
                self.image.width == w,
                self.image.height == h,
                self.image.wf(),
                nv == model.vertices@.len(),
                n_faces == model.faces@.len(),
                0 <= fi <= n_faces,
                faces_ok(model.faces@, nv as int),
                coords_bounded(model.vertices@),
                orig.len() == w * h,
                self.image.data@ == render_upto(
                    orig,
                    model.vertices@,
                    model.faces@,
                    w as int,
                    h as int,
                    fi as int,
                ),
            decreases n_faces - fi,
        {
            let f = model.faces[fi];
            proof {
                assert(face_ok(model.faces@[fi as int], nv as int));
            }
            let v0 = model.vertices[f[0] as usize];
            let v1 = model.vertices[f[1] as usize];
            let v2 = model.vertices[f[2] as usize];
            proof {
                assert(in_range3(v0, MESH_COORD_LIMIT as int));
                assert(in_range3(v1, MESH_COORD_LIMIT as int));
                assert(in_range3(v2, MESH_COORD_LIMIT as int));
                crate::geometry::lemma_mul_abs_bound(v2.y - v1.y, v1.z - v0.z, 0x200_0000);
                crate::geometry::lemma_mul_abs_bound(v2.z - v1.z, v1.y - v0.y, 0x200_0000);
                crate::geometry::lemma_mul_abs_bound(v2.z - v1.z, v1.x - v0.x, 0x200_0000);
                crate::geometry::lemma_mul_abs_bound(v2.x - v1.x, v1.z - v0.z, 0x200_0000);
                crate::geometry::lemma_mul_abs_bound(v2.x - v1.x, v1.y - v0.y, 0x200_0000);
                crate::geometry::lemma_mul_abs_bound(v2.y - v1.y, v1.x - v0.x, 0x200_0000);
            }
            let a = v2.sub(v1);
            let b = v1.sub(v0);
            let n = a.cross(b);
            let ghost prev = self.image.data@;
            if n.z < 0 {
                let alpha = shade_alpha(n.x, n.y, n.z);
                let color = Color(alpha, alpha, alpha, 255);
                let pts = [
                    project_vertex(&v0, w, h),
                    project_vertex(&v1, w, h),
                    project_vertex(&v2, w, h),
                ];
                self.draw_triangle(pts, color);
                proof {
                    assert(n.x == normal_x(v0, v1, v2) && n.y == normal_y(v0, v1, v2) && n.z
                        == normal_z(v0, v1, v2));
                    assert(alpha as int == shade_level(v0, v1, v2));
                    assert(color == face_color(v0, v1, v2));
                    assert(self.image.data@ == paint_face(
                        prev,
                        model.vertices@,
                        model.faces@[fi as int],
                        w as int,
                        h as int,
                    ));
                }
            } else {
                proof {
                    assert(!face_visible(v0, v1, v2));
                    assert(self.image.data@ == paint_face(
                        prev,
                        model.vertices@,
                        model.faces@[fi as int],
                        w as int,
                        h as int,
                    ));
                }
            }
            fi = fi + 1;
            proof {
                assert(self.image.data@ == render_upto(
                    orig,
                    model.vertices@,
                    model.faces@,
                    w as int,
                    h as int,
                    fi as int,
                ));
            }
        }
        Ok(())
    }
}


/// No walk step of the line from `p0` to `p1` lands exactly halfway
/// between two minor-axis pixel rows: the accumulated error
/// `2 * k * minor + major` never hits an exact multiple of `2 * major`.
/// On such ties the two walk directions round to different pixels, so
/// this is the exact domain on which line rasterization is symmetric.
pub open spec fn no_halfway_tie(p0: Vector2D, p1: Vector2D) -> bool {
    let adx = line_dx(p0, p1);
    let ady = line_dy(p0, p1);
    if adx > ady {
        forall|k: int| 0 <= k <= adx ==> #[trigger] ((2 * k * ady + adx) % (2 * adx)) != 0
    } else if ady > 0 {
        forall|k: int| 0 <= k <= ady ==> #[trigger] ((2 * k * adx + ady) % (2 * ady)) != 0
    } else {
        true
    }
}

/// For a tie-free step `k` of a walk with major span `a` and minor span
/// `b`, the minor offsets of step `k` and of the opposite walk's step
/// `a - k` sum to exactly `b`, and the opposite step is tie-free too.
proof fn lemma_error_pair(a: int, b: int, k: int)
    requires
        0 < a,
        0 <= b,
        0 <= k <= a,
        (2 * k * b + a) % (2 * a) != 0,
    ensures
        (2 * k * b + a) / (2 * a) + (2 * (a - k) * b + a) / (2 * a) == b,
        (2 * (a - k) * b + a) % (2 * a) != 0,
{
    let d = 2 * a;
    let u = 2 * k * b + a;
    let v = 2 * (a - k) * b + a;
    assert(u + v == d * (b + 1) && u >= a && v >= a) by (nonlinear_arith)
        requires
            d == 2 * a,
            u == 2 * k * b + a,
            v == 2 * (a - k) * b + a,
            0 <= k <= a,
            0 <= b,
            0 < a,
    ;
    lemma_fundamental_div_mod(u, d);
    lemma_fundamental_div_mod(v, d);
    lemma_mod_pos_bound(u, d);
    lemma_mod_pos_bound(v, d);
    lemma_div_pos_is_pos(u, d);
    lemma_div_pos_is_pos(v, d);
    let qu = u / d;
    let ru = u % d;
    let qv = v / d;
    let rv = v % d;
    let e = b + 1 - qu - qv;
    assert(ru + rv == d * e) by (nonlinear_arith)
        requires
            u == d * qu + ru,
            v == d * qv + rv,
            u + v == d * (b + 1),
            e == b + 1 - qu - qv,
    ;
    assert(e == 1) by (nonlinear_arith)
        requires
            d * e == ru + rv,
            0 < ru < d,
            0 <= rv < d,
            0 < d,
    ;
    assert(rv == d - ru);
}

/// One step of the reversed walk: pixel `steps - k` of the line from
/// `p1` back to `p0` is pixel `k` of the line from `p0` to `p1`, as long
/// as step `k` is tie-free.
proof fn lemma_line_point_reverse(p0: Vector2D, p1: Vector2D, k: int)
    requires
        0 <= k <= line_steps(p0, p1),
        no_halfway_tie(p0, p1),
    ensures
        line_point(p1, p0, line_steps(p0, p1) - k) == line_point(p0, p1, k),
{
    let adx = line_dx(p0, p1);
    let ady = line_dy(p0, p1);
    let sx = line_sx(p0, p1);
    let sy = line_sy(p0, p1);
    let rsx = line_sx(p1, p0);
    let rsy = line_sy(p1, p0);
    assert(line_dx(p1, p0) == adx && line_dy(p1, p0) == ady);
    if adx > ady {
        let j = adx - k;
        lemma_error_pair(adx, ady, k);
        let fk = (2 * k * ady + adx) / (2 * adx);
        let fj = (2 * j * ady + adx) / (2 * adx);
        assert(fj == ady - fk) by {
            assert(2 * (adx - k) * ady == 2 * j * ady) by (nonlinear_arith)
                requires
                    j == adx - k,
            ;
        };
        assert(p1.x != p0.x && rsx == -sx);
        assert(p1.x + rsx * j == p0.x + sx * k) by (nonlinear_arith)
            requires
                rsx == -sx,
                j == adx - k,
                (sx == -1 && adx == -(p1.x - p0.x)) || (sx == 1 && adx == p1.x - p0.x),
        ;
        if p1.y != p0.y {
            assert(rsy == -sy);
            assert(p1.y + rsy * fj == p0.y + sy * fk) by (nonlinear_arith)
                requires
                    rsy == -sy,
                    fj == ady - fk,
                    (sy == -1 && ady == -(p1.y - p0.y)) || (sy == 1 && ady == p1.y - p0.y),
            ;
        } else {
            assert(ady == 0);
            assert(2 * k * 0 == 0 && 2 * j * 0 == 0) by (nonlinear_arith);
            lemma_fundamental_div_mod_converse(adx, 2 * adx, 0, adx);
            assert(fk == 0 && fj == 0);
            assert(sy * fk == 0 && rsy * fj == 0) by (nonlinear_arith)
                requires
                    fk == 0,
                    fj == 0,
            ;
        }
        assert(line_steps(p0, p1) == adx);
        assert(line_point(p1, p0, j) == line_point(p0, p1, k));
    } else if ady > 0 {
        let j = ady - k;
        lemma_error_pair(ady, adx, k);
        let fk = (2 * k * adx + ady) / (2 * ady);
        let fj = (2 * j * adx + ady) / (2 * ady);
        assert(fj == adx - fk) by {
            assert(2 * (ady - k) * adx == 2 * j * adx) by (nonlinear_arith)
                requires
                    j == ady - k,
            ;
        };
        assert(p1.y != p0.y && rsy == -sy);
        assert(p1.y + rsy * j == p0.y + sy * k) by (nonlinear_arith)
            requires
                rsy == -sy,
                j == ady - k,
                (sy == -1 && ady == -(p1.y - p0.y)) || (sy == 1 && ady == p1.y - p0.y),
        ;
        if p1.x != p0.x {
            assert(rsx == -sx);
            assert(p1.x + rsx * fj == p0.x + sx * fk) by (nonlinear_arith)
                requires
                    rsx == -sx,
                    fj == adx - fk,
                    (sx == -1 && adx == -(p1.x - p0.x)) || (sx == 1 && adx == p1.x - p0.x),
            ;
        } else {
            assert(adx == 0);
            assert(2 * k * 0 == 0 && 2 * j * 0 == 0) by (nonlinear_arith);
            lemma_fundamental_div_mod_converse(ady, 2 * ady, 0, ady);
            assert(fk == 0 && fj == 0);
            assert(sx * fk == 0 && rsx * fj == 0) by (nonlinear_arith)
                requires
                    fk == 0,
                    fj == 0,
            ;
        }
        assert(line_steps(p0, p1) == ady);
        assert(line_point(p1, p0, j) == line_point(p0, p1, k));
    } else {
        assert(p1.x == p0.x && p1.y == p0.y);
        assert(line_steps(p0, p1) == 0 && k == 0);
    }
}

/// Line rasterization is symmetric on tie-free segments: the walks from
/// `p0` to `p1` and from `p1` back to `p0` plot exactly the same pixel
/// set. (On a segment with a halfway tie — for instance `(0, 0)` to
/// `(2, 1)` — the two directions resolve the tie to different rows, so
/// the tie-free premise is exactly where the symmetry holds.)
pub proof fn lemma_line_symmetric(p0: Vector2D, p1: Vector2D)
    requires
        no_halfway_tie(p0, p1),
    ensures
        forall|px: int, py: int| on_line(p0, p1, px, py) == on_line(p1, p0, px, py),
{
    assert(line_dx(p1, p0) == line_dx(p0, p1) && line_dy(p1, p0) == line_dy(p0, p1));
    let steps = line_steps(p0, p1);
    assert(line_steps(p1, p0) == steps);
    assert forall|px: int, py: int| on_line(p0, p1, px, py) == on_line(p1, p0, px, py) by {
        if on_line(p0, p1, px, py) {
            let j = choose|j: int| 0 <= j <= steps && #[trigger] line_point(p0, p1, j) == (px, py);
            lemma_line_point_reverse(p0, p1, j);
            assert(line_point(p1, p0, steps - j) == (px, py));
            assert(on_line(p1, p0, px, py));
        }
        if on_line(p1, p0, px, py) {
            let j = choose|j: int| 0 <= j <= steps && #[trigger] line_point(p1, p0, j) == (px, py);
            lemma_line_point_reverse(p0, p1, steps - j);
            assert(line_point(p1, p0, j) == line_point(p0, p1, steps - j));
            assert(on_line(p0, p1, px, py));
        }
    }
}

} // verus!
