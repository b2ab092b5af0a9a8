//! Fixed-point plane geometry: numbers, points, rectangles and affine maps.
//!
//! A number is an `i64` holding a real value times `ONE` (24 fractional bits).
//! Finite values lie in `[-LIMIT, LIMIT]`; every operation saturates a result
//! outside that range to `-INF` or `INF`, which mark a diverged value.
use vstd::prelude::*;

verus! {

/// The fixed-point representation of 1.0.
pub const ONE: i64 = 16777216;

/// The largest finite magnitude.
pub const LIMIT: i64 = 1099511627776;

/// The saturated value that stands for an unbounded coordinate.
pub const INF: i64 = 1099511627777;

pub const HALF: i128 = 8388608;

const SHIFT: i128 = 1152921504606846976;

/// Clamps an exact result into the representable range.
pub open spec fn sat(v: int) -> int {
    if v > LIMIT {
        INF as int
    } else if v < -LIMIT {
        -INF
    } else {
        v
    }
}

/// A value that operations accept: finite, or one of the two infinities.
pub open spec fn in_range(v: int) -> bool {
    -INF <= v <= INF
}

/// Product of two fixed-point numbers, rounded to the nearest, halves to even.
pub open spec fn mul_spec(a: int, b: int) -> int {
    let p = a * b;
    let q = p / (ONE as int);
    let r = p % (ONE as int);
    if r > HALF || (r == HALF && q % 2 == 1) {
        q + 1
    } else {
        q
    }
}

/// `v` clamped into the representable range.
pub fn saturate(v: i128) -> (r: i64)
    ensures
        r == sat(v as int),
{
    if v > LIMIT as i128 {
        INF
    } else if v < -(LIMIT as i128) {
        -INF
    } else {
        v as i64
    }
}

proof fn lemma_mul_bounds(a: int, b: int)
    requires
        in_range(a),
        in_range(b),
    ensures
        -INF * INF <= a * b <= INF * INF,
{
    assert(-INF * INF <= a * b <= INF * INF) by (nonlinear_arith)
        requires
            -INF <= a <= INF,
            -INF <= b <= INF,
    ;
}

/// The rounded product of two numbers in range, before saturation.
pub(crate) fn mul_round(a: i64, b: i64) -> (r: i128)
    requires
        in_range(a as int),
        in_range(b as int),
    ensures
        r == mul_spec(a as int, b as int),
        -INF * INF <= r <= INF * INF,
{
    proof {
        lemma_mul_bounds(a as int, b as int);
    }
    let p: i128 = (a as i128) * (b as i128);
    let shifted: i128 = p + SHIFT * (ONE as i128);
    assert(shifted >= 0);
    let q0: i128 = shifted / (ONE as i128);
    let rem: i128 = shifted % (ONE as i128);
    proof {
        let one = ONE as int;
        let pi = p as int;
        assert((pi + SHIFT * one) / one == pi / one + SHIFT && (pi + SHIFT * one) % one == pi % one)
            by (nonlinear_arith)
            requires
                one > 0,
        ;
        assert(-INF * INF <= pi / one <= INF * INF) by (nonlinear_arith)
            requires
                one == ONE,
                -INF * INF <= pi <= INF * INF,
        ;
    }
    let q = q0 - SHIFT;
    if rem > HALF || (rem == HALF && q0 % 2 == 1) {
        q + 1
    } else {
        q
    }
}

/// A point of the plane in fixed-point coordinates.
#[derive(Clone, Copy, Debug, PartialEq, Eq, Structural, Hash)]
pub struct Point {
    pub x: i64,
    pub y: i64,
}

impl Point {
    pub open spec fn ok(self) -> bool {
        in_range(self.x as int) && in_range(self.y as int)
    }

    pub fn new(x: i64, y: i64) -> (r: Point)
        ensures
            r == (Point { x, y }),
    {
        Point { x, y }
    }
}

/// An axis-aligned rectangle. Equality compares the corners exactly.
#[derive(Clone, Copy, Debug, PartialEq, Eq, Structural, Hash)]
pub struct Rect {
    pub min: Point,
    pub max: Point,
}

/// The smallest rectangle holding both arguments.
pub open spec fn union_spec(a: Rect, b: Rect) -> Rect {
    Rect {
        min: Point { x: min_i64(a.min.x, b.min.x), y: min_i64(a.min.y, b.min.y) },
        max: Point { x: max_i64(a.max.x, b.max.x), y: max_i64(a.max.y, b.max.y) },
    }
}

pub open spec fn min_i64(a: i64, b: i64) -> i64 {
    if a <= b {
        a
    } else {
        b
    }
}

pub open spec fn max_i64(a: i64, b: i64) -> i64 {
    if a >= b {
        a
    } else {
        b
    }
}

/// `a` holds all of `b`.
pub open spec fn contains_spec(a: Rect, b: Rect) -> bool {
    a.min.x <= b.min.x && a.min.y <= b.min.y && b.max.x <= a.max.x && b.max.y <= a.max.y
}

/// `r` extended on each side by `ppm` millionths of half its extent, rounded up.
pub open spec fn grow_spec(r: Rect, ppm: int) -> Rect {
    let dx = ((r.max.x - r.min.x) * ppm + 1999999) / 2000000;
    let dy = ((r.max.y - r.min.y) * ppm + 1999999) / 2000000;
    Rect {
        min: Point { x: sat(r.min.x - dx) as i64, y: sat(r.min.y - dy) as i64 },
        max: Point { x: sat(r.max.x + dx) as i64, y: sat(r.max.y + dy) as i64 },
    }
}

pub open spec fn point_rect(p: Point) -> Rect {
    Rect { min: p, max: p }
}

/// Some coordinate has reached an infinity.
pub open spec fn infinite_spec(r: Rect) -> bool {
    r.min.x == -INF || r.min.y == -INF || r.max.x == INF || r.max.y == INF || r.min.x == INF
        || r.min.y == INF || r.max.x == -INF || r.max.y == -INF
}

impl Rect {
    /// Coordinates in range and corners in order.
    pub open spec fn wf(self) -> bool {
        self.min.ok() && self.max.ok() && self.min.x <= self.max.x && self.min.y <= self.max.y
    }

    /// The corners, counter-clockwise from `min`.
    pub open spec fn corners_spec(self) -> Seq<Point> {
        seq![
            self.min,
            Point { x: self.min.x, y: self.max.y },
            self.max,
            Point { x: self.max.x, y: self.min.y },
        ]
    }

    pub fn corners(&self) -> (r: [Point; 4])
        ensures
            r@ == self.corners_spec(),
    {
        let r = [
            self.min,
            Point { x: self.min.x, y: self.max.y },
            self.max,
            Point { x: self.max.x, y: self.min.y },
        ];
        assert(r@ =~= self.corners_spec());
        r
    }

    pub fn point(p: Point) -> (r: Rect)
        ensures
            r == point_rect(p),
    {
        Rect { min: p, max: p }
    }

    pub fn origin() -> (r: Rect)
        ensures
            r == point_rect(Point { x: 0, y: 0 }),
            r.wf(),
    {
        Rect::point(Point { x: 0, y: 0 })
    }

    pub fn union(a: &Rect, b: &Rect) -> (r: Rect)
        ensures
            r == union_spec(*a, *b),
    {
        Rect {
            min: Point {
                x: if a.min.x <= b.min.x { a.min.x } else { b.min.x },
                y: if a.min.y <= b.min.y { a.min.y } else { b.min.y },
            },
            max: Point {
                x: if a.max.x >= b.max.x { a.max.x } else { b.max.x },
                y: if a.max.y >= b.max.y { a.max.y } else { b.max.y },
            },
        }
    }

    /// Whether `self` holds all of `other`; the same as `union(self, other) == self`.
    pub fn contains(&self, other: &Rect) -> (r: bool)
        ensures
            r == contains_spec(*self, *other),
            r == (union_spec(*self, *other) == *self),
    {
        self.min.x <= other.min.x && self.min.y <= other.min.y && other.max.x <= self.max.x
            && other.max.y <= self.max.y
    }

    pub fn contains_point(&self, p: Point) -> (r: bool)
        ensures
            r == contains_spec(*self, point_rect(p)),
    {
        self.contains(&Rect::point(p))
    }

    /// The horizontal extent.
    pub fn width(&self) -> (r: i64)
        requires
            self.wf(),
        ensures
            r == self.max.x - self.min.x,
    {
        self.max.x - self.min.x
    }

    /// The vertical extent.
    pub fn height(&self) -> (r: i64)
        requires
            self.wf(),
        ensures
            r == self.max.y - self.min.y,
    {
        self.max.y - self.min.y
    }

    /// Extends each side by `ppm` millionths of half the extent (rounded up),
    /// so that the size grows by that portion.
    pub fn grow(&self, ppm: i64) -> (r: Rect)
        requires
            self.wf(),
            0 <= ppm,
        ensures
            r == grow_spec(*self, ppm as int),
            r.wf(),
            contains_spec(r, *self),
    {
        let w = (self.max.x as i128) - (self.min.x as i128);
        let h = (self.max.y as i128) - (self.min.y as i128);
        assert(0 <= w * ppm <= 2 * INF * i64::MAX) by (nonlinear_arith)
            requires
                0 <= w <= 2 * INF,
                0 <= ppm <= i64::MAX,
        ;
        assert(0 <= h * ppm <= 2 * INF * i64::MAX) by (nonlinear_arith)
            requires
                0 <= h <= 2 * INF,
                0 <= ppm <= i64::MAX,
        ;
        let dx = (w * (ppm as i128) + 1999999) / 2000000;
        let dy = (h * (ppm as i128) + 1999999) / 2000000;
        Rect {
            min: Point {
                x: saturate(self.min.x as i128 - dx),
                y: saturate(self.min.y as i128 - dy),
            },
            max: Point {
                x: saturate(self.max.x as i128 + dx),
                y: saturate(self.max.y as i128 + dy),
            },
        }
    }

    /// Whether some coordinate has reached an infinity.
    pub fn is_infinite(&self) -> (r: bool)
        ensures
            r == infinite_spec(*self),
    {
        self.min.x == -INF || self.min.y == -INF || self.max.x == INF || self.max.y == INF
            || self.min.x == INF || self.min.y == INF || self.max.x == -INF || self.max.y == -INF
    }
}

/// The affine map `(x, y) -> (a x + b y + tx, c x + d y + ty)`.
#[derive(Clone, Copy, Debug, PartialEq, Eq, Structural, Hash)]
pub struct Affine {
    pub a: i64,
    pub b: i64,
    pub c: i64,
    pub d: i64,
    pub tx: i64,
    pub ty: i64,
}

/// `a x + b y + t`, each product rounded, the sum saturated.
pub open spec fn lin_spec(a: int, x: int, b: int, y: int, t: int) -> i64 {
    sat(mul_spec(a, x) + mul_spec(b, y) + t) as i64
}

/// `t` applied to `p`.
pub open spec fn apply_spec(t: Affine, p: Point) -> Point {
    Point {
        x: lin_spec(t.a as int, p.x as int, t.b as int, p.y as int, t.tx as int),
        y: lin_spec(t.c as int, p.x as int, t.d as int, p.y as int, t.ty as int),
    }
}

/// The map that applies `n` first and then `m`.
pub open spec fn compose_spec(m: Affine, n: Affine) -> Affine {
    Affine {
        a: lin_spec(m.a as int, n.a as int, m.b as int, n.c as int, 0),
        b: lin_spec(m.a as int, n.b as int, m.b as int, n.d as int, 0),
        c: lin_spec(m.c as int, n.a as int, m.d as int, n.c as int, 0),
        d: lin_spec(m.c as int, n.b as int, m.d as int, n.d as int, 0),
        tx: lin_spec(m.a as int, n.tx as int, m.b as int, n.ty as int, m.tx as int),
        ty: lin_spec(m.c as int, n.tx as int, m.d as int, n.ty as int, m.ty as int),
    }
}

/// The bounding rectangle of the images of `r`'s corners under `t`.
pub open spec fn transform_rect_spec(t: Affine, r: Rect) -> Rect {
    let c = r.corners_spec();
    union_spec(
        union_spec(
            union_spec(point_rect(apply_spec(t, c[0])), point_rect(apply_spec(t, c[1]))),
            point_rect(apply_spec(t, c[2])),
        ),
        point_rect(apply_spec(t, c[3])),
    )
}

/// The identity map.
pub open spec fn identity_spec() -> Affine {
    Affine { a: ONE, b: 0, c: 0, d: ONE, tx: 0, ty: 0 }
}

/// `a x + b y + t` in fixed point, saturated.
fn lin(a: i64, x: i64, b: i64, y: i64, t: i64) -> (r: i64)
    requires
        in_range(a as int),
        in_range(x as int),
        in_range(b as int),
        in_range(y as int),
        in_range(t as int),
    ensures
        r == lin_spec(a as int, x as int, b as int, y as int, t as int),
        in_range(r as int),
{
    let p = mul_round(a, x);
    let q = mul_round(b, y);
    saturate(p + q + t as i128)
}

impl Affine {
    /// All coefficients in range.
    pub open spec fn wf(self) -> bool {
        in_range(self.a as int) && in_range(self.b as int) && in_range(self.c as int) && in_range(
            self.d as int,
        ) && in_range(self.tx as int) && in_range(self.ty as int)
    }

    /// Whether all coefficients are in range.
    pub fn is_wf(&self) -> (r: bool)
        ensures
            r == self.wf(),
    {
        let lo = -INF;
        lo <= self.a && self.a <= INF && lo <= self.b && self.b <= INF && lo <= self.c && self.c
            <= INF && lo <= self.d && self.d <= INF && lo <= self.tx && self.tx <= INF && lo
            <= self.ty && self.ty <= INF
    }

    pub fn identity() -> (r: Affine)
        ensures
            r == identity_spec(),
            r.wf(),
    {
        Affine { a: ONE, b: 0, c: 0, d: ONE, tx: 0, ty: 0 }
    }

    pub fn transform_point(&self, p: Point) -> (r: Point)
        requires
            self.wf(),
            p.ok(),
        ensures
            r == apply_spec(*self, p),
            r.ok(),
    {
        Point {
            x: lin(self.a, p.x, self.b, p.y, self.tx),
            y: lin(self.c, p.x, self.d, p.y, self.ty),
        }
    }

    /// `self` after `n`: the map that applies `n` first.
    pub fn compose(&self, n: &Affine) -> (r: Affine)
        requires
            self.wf(),
            n.wf(),
        ensures
            r == compose_spec(*self, *n),
            r.wf(),
    {
        Affine {
            a: lin(self.a, n.a, self.b, n.c, 0),
            b: lin(self.a, n.b, self.b, n.d, 0),
            c: lin(self.c, n.a, self.d, n.c, 0),
            d: lin(self.c, n.b, self.d, n.d, 0),
            tx: lin(self.a, n.tx, self.b, n.ty, self.tx),
            ty: lin(self.c, n.tx, self.d, n.ty, self.ty),
        }
    }

    /// The bounding rectangle of the images of `r`'s corners.
    pub fn transform_bounds(&self, r: &Rect) -> (out: Rect)
        requires
            self.wf(),
            r.wf(),
        ensures
            out == transform_rect_spec(*self, *r),
            out.wf(),
    {
        let c = r.corners();
        let first = Rect::point(self.transform_point(c[0]));
        let second = Rect::point(self.transform_point(c[1]));
        let third = Rect::point(self.transform_point(c[2]));
        let fourth = Rect::point(self.transform_point(c[3]));
        let u = Rect::union(&first, &second);
        let u = Rect::union(&u, &third);
        Rect::union(&u, &fourth)
    }
}

/// The identity map leaves every rectangle as it is.
pub proof fn lemma_identity_image(r: Rect)
    requires
        r.wf(),
    ensures
        transform_rect_spec(identity_spec(), r) == r,
{
    assert forall|x: int| in_range(x) implies #[trigger] mul_spec(ONE as int, x) == x && mul_spec(0, x)
        == 0 by {
        let one = ONE as int;
        assert((one * x) / one == x && (one * x) % one == 0) by (nonlinear_arith)
            requires
                one > 0,
        ;
    }
    let c = r.corners_spec();
    assert forall|i: int| 0 <= i < 4 implies #[trigger] apply_spec(identity_spec(), c[i]) == c[i] by {
        assert(mul_spec(ONE as int, c[i].x as int) == c[i].x);
        assert(mul_spec(ONE as int, c[i].y as int) == c[i].y);
        assert(mul_spec(0, c[i].x as int) == 0);
        assert(mul_spec(0, c[i].y as int) == 0);
    }
    assert(apply_spec(identity_spec(), c[0]) == c[0]);
    assert(apply_spec(identity_spec(), c[1]) == c[1]);
    assert(apply_spec(identity_spec(), c[2]) == c[2]);
    assert(apply_spec(identity_spec(), c[3]) == c[3]);
}

} // verus!
