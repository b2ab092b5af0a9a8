//! The pass planner: splits one deep accumulation into a cascade of passes,
//! each drawn at a size of its own and fed by the next smaller one.
use vstd::prelude::*;
use vstd::arithmetic::power::{pow, lemma_pow_increases};
use crate::geometry::{Affine, INF, ONE, Rect, in_range, mul_spec, sat, saturate};
use crate::flame::{Root, all_wf};

verus! {

/// The largest instance count a pass may draw per mesh.
pub const BUFFER_LIMIT: u64 = 512;

/// Whether `n ^ e` exceeds `limit`.
pub fn pow_exceeds(n: u64, e: u32, limit: u64) -> (r: bool)
    ensures
        r == (pow(n as int, e as nat) > limit),
{
    let mut acc: u128 = 1;
    let mut i: u32 = 0;
    proof {
        reveal(pow);
    }
    while i < e
        invariant
            i <= e,
            acc == pow(n as int, i as nat),
            i == 0 || acc <= limit,
            acc <= u64::MAX,
        decreases e - i,
    {
        proof {
            reveal(pow);
            assert(acc * n <= u64::MAX as int * u64::MAX as int) by (nonlinear_arith)
                requires
                    acc <= u64::MAX,
                    n <= u64::MAX,
            ;
            assert(pow(n as int, (i + 1) as nat) == n * pow(n as int, i as nat));
        }
        acc = acc * (n as u128);
        i = i + 1;
        if acc > limit as u128 {
            proof {
                if n == 0 {
                    assert(acc == 0) by (nonlinear_arith)
                        requires
                            acc == n * pow(n as int, (i - 1) as nat),
                            n == 0,
                    ;
                }
                lemma_pow_increases(n as nat, i as nat, e as nat);
            }
            return true;
        }
    }
    acc > limit as u128
}

/// `r` is the integer square root of `v`.
pub open spec fn is_isqrt(r: int, v: int) -> bool {
    r * r <= v < (r + 1) * (r + 1)
}

/// The integer square root: the largest `r` with `r * r <= v`.
pub fn isqrt(v: u128) -> (r: u128)
    requires
        v < 8589934592 * 8589934592,
    ensures
        is_isqrt(r as int, v as int),
        r <= 8589934592,
{
    let mut lo: u128 = 0;
    let mut hi: u128 = 8589934592;
    while hi - lo > 1
        invariant
            lo < hi <= 8589934592,
            lo * lo <= v,
            v < hi * hi,
        decreases hi - lo,
    {
        let mid = lo + (hi - lo) / 2;
        assert(mid * mid <= 8589934592 * 8589934592) by (nonlinear_arith)
            requires
                mid <= 8589934592,
        ;
        if mid * mid <= v {
            lo = mid;
        } else {
            hi = mid;
        }
    }
    lo
}

/// `x` raised to the `k`-th power in fixed point, each product rounded and saturated.
pub open spec fn fpow_spec(x: int, k: nat) -> int
    decreases k,
{
    if k == 0 {
        ONE as int
    } else {
        sat(mul_spec(fpow_spec(x, (k - 1) as nat), x))
    }
}

proof fn lemma_mul_nonneg(a: int, b: int)
    requires
        a >= 0,
        b >= 0,
    ensures
        mul_spec(a, b) >= 0,
{
    assert(a * b >= 0) by (nonlinear_arith)
        requires
            a >= 0,
            b >= 0,
    ;
}

/// `x` raised to the `k`-th power in fixed point.
pub fn fpow(x: i64, k: u32) -> (r: i64)
    requires
        0 <= x <= INF,
    ensures
        r == fpow_spec(x as int, k as nat),
        0 <= r <= INF,
{
    let mut r: i64 = ONE;
    let mut i: u32 = 0;
    while i < k
        invariant
            i <= k,
            0 <= x <= INF,
            r == fpow_spec(x as int, i as nat),
            0 <= r <= INF,
        decreases k - i,
    {
        proof {
            lemma_mul_nonneg(r as int, x as int);
        }
        r = saturate(crate::geometry::mul_round(r, x));
        i = i + 1;
    }
    r
}

/// The largest multiple of 8 a texture side is rounded down to.
pub const MAX_SIDE_EIGHTHS: u128 = 536870911;

/// A texture side for a length of `px` pixels: rounded down to a multiple of
/// 8, at least 1, and at most what a `u32` holds.
pub open spec fn texture_size_spec(px: int) -> int {
    let q = px / 8;
    let q2 = if q > MAX_SIDE_EIGHTHS {
        MAX_SIDE_EIGHTHS as int
    } else {
        q
    };
    if q2 <= 0 {
        1
    } else {
        q2 * 8
    }
}

pub fn texture_size(px: u128) -> (r: u32)
    ensures
        r == texture_size_spec(px as int),
        r >= 1,
{
    let q = px / 8;
    let q2 = if q > MAX_SIDE_EIGHTHS {
        MAX_SIDE_EIGHTHS
    } else {
        q
    };
    if q2 == 0 {
        1
    } else {
        (q2 * 8) as u32
    }
}

/// The size, in fixed-point pixels, that content of extent `bw` by `bh`
/// takes when scaled to fit a `w` by `h` frame with its aspect kept.
pub open spec fn fill_size_spec(w: int, h: int, bw: int, bh: int) -> (int, int) {
    if bw == 0 && bh == 0 {
        (0, 0)
    } else if bw > 0 && bw * h >= bh * w {
        (w * ONE, bh * w * ONE / bw)
    } else {
        (bw * h * ONE / bh, h * ONE)
    }
}

/// Letterboxing: the fitted size of `bw` by `bh` content in a `w` by `h` frame.
pub fn fill_size(w: u32, h: u32, bw: u64, bh: u64) -> (r: (u128, u128))
    requires
        bw <= 2 * INF,
        bh <= 2 * INF,
    ensures
        r.0 == fill_size_spec(w as int, h as int, bw as int, bh as int).0,
        r.1 == fill_size_spec(w as int, h as int, bw as int, bh as int).1,
        r.0 <= w * ONE,
        r.1 <= h * ONE,
{
    let one = ONE as u128;
    assert(bw * h <= 2 * INF * u32::MAX) by (nonlinear_arith)
        requires
            bw <= 2 * INF,
            h <= u32::MAX,
    ;
    assert(bh * w <= 2 * INF * u32::MAX) by (nonlinear_arith)
        requires
            bh <= 2 * INF,
            w <= u32::MAX,
    ;
    let bwh = (bw as u128) * (h as u128);
    let bhw = (bh as u128) * (w as u128);
    assert(bwh * ONE <= 2 * INF * u32::MAX * ONE) by (nonlinear_arith)
        requires
            bwh <= 2 * INF * u32::MAX,
    ;
    assert(bhw * ONE <= 2 * INF * u32::MAX * ONE) by (nonlinear_arith)
        requires
            bhw <= 2 * INF * u32::MAX,
    ;
    if bw == 0 && bh == 0 {
        (0, 0)
    } else if bw > 0 && bwh >= bhw {
        let hf = bhw * one / (bw as u128);
        assert((bhw * ONE) / (bw as int) <= h * ONE) by (nonlinear_arith)
            requires
                bw > 0,
                bhw <= bw * h,
                h >= 0,
        ;
        ((w as u128) * one, hf)
    } else {
        let wf = bwh * one / (bh as u128);
        assert((bwh * ONE) / (bh as int) <= w * ONE) by (nonlinear_arith)
            requires
                bh > 0,
                bwh <= bh * w,
                w >= 0,
        ;
        (wf, (h as u128) * one)
    }
}

/// Bound on the magnitude of the summed area factors.
pub const FILL_CAP: i128 = 4611686018427387904;

/// Filled area, in pixels, above which a pass gets the fewest levels.
pub const LARGE_FILL: i128 = 1048576;

/// Filled area, in pixels, above which a pass gets a middling number of levels.
pub const MEDIUM_FILL: i128 = 65536;

/// A feeder pass is only worth drawing when one of its sides exceeds this.
pub const MIN_FEEDER_SIDE: u32 = 16;

/// What identifies a pass: its target size, and whether its output is read
/// back with nearest-texel sampling.
#[derive(Clone, Copy, Debug, PartialEq, Eq, Structural, Hash)]
pub struct PassKey {
    pub width: u32,
    pub height: u32,
    pub filter: bool,
}

/// The area scale factor of `t`: the determinant of its linear part.
pub open spec fn det_spec(t: Affine) -> int {
    sat(mul_spec(t.a as int, t.d as int) - mul_spec(t.b as int, t.c as int))
}

pub open spec fn min_det_spec(gens: Seq<Affine>) -> int
    decreases gens.len(),
{
    if gens.len() <= 1 {
        det_spec(gens[0])
    } else {
        let m = min_det_spec(gens.drop_last());
        let d = det_spec(gens.last());
        if m <= d {
            m
        } else {
            d
        }
    }
}

pub open spec fn clamp_fill(v: int) -> int {
    if v > FILL_CAP {
        FILL_CAP as int
    } else if v < -FILL_CAP {
        -FILL_CAP
    } else {
        v
    }
}

/// The sum of the area factors, kept within `FILL_CAP`.
pub open spec fn fill_ratio_spec(gens: Seq<Affine>) -> int
    decreases gens.len(),
{
    if gens.len() == 0 {
        0
    } else {
        clamp_fill(fill_ratio_spec(gens.drop_last()) + det_spec(gens.last()))
    }
}

fn area_sf(t: &Affine) -> (r: i64)
    requires
        t.wf(),
    ensures
        r == det_spec(*t),
        in_range(r as int),
{
    let ad = crate::geometry::mul_round(t.a, t.d);
    let bc = crate::geometry::mul_round(t.b, t.c);
    saturate(ad - bc)
}

/// The statistics of a generator set and its bounds that the planner reads.
#[derive(Clone, Copy, Debug, PartialEq, Eq, Structural)]
pub struct Planner {
    /// Linear scale factor of the most contracting generator (fixed point).
    pub sf_min: i64,
    /// Sum of the generators' area factors (fixed point).
    pub fill_ratio: i128,
    /// Number of generators.
    pub count: u64,
    /// Extent of the bounds.
    pub bw: u64,
    pub bh: u64,
}

/// The number of levels before the instance buffer limit is applied.
pub open spec fn base_passes(fill: int, area: int) -> u32 {
    if fill * area > LARGE_FILL * ONE {
        2
    } else if fill * area > MEDIUM_FILL * ONE {
        6
    } else {
        8
    }
}

/// `p` lowered until `n ^ (p / 2) <= BUFFER_LIMIT`.
pub open spec fn clamp_passes(n: int, p: u32) -> u32
    decreases p,
{
    if p > 0 && pow(n, (p / 2) as nat) > BUFFER_LIMIT {
        clamp_passes(n, (p - 1) as u32)
    } else {
        p
    }
}

proof fn lemma_clamp_passes(n: int, p: u32)
    requires
        n >= 0,
        1 <= p,
    ensures
        1 <= clamp_passes(n, p) <= p,
        pow(n, (clamp_passes(n, p) / 2) as nat) <= BUFFER_LIMIT,
    decreases p,
{
    reveal(pow);
    if p > 1 && pow(n, (p / 2) as nat) > BUFFER_LIMIT {
        lemma_clamp_passes(n, (p - 1) as u32);
    } else if p == 1 {
        assert(pow(n, 0) == 1);
    }
}

impl Planner {
    pub open spec fn wf(self) -> bool {
        0 <= self.sf_min <= INF && -FILL_CAP <= self.fill_ratio <= FILL_CAP && self.bw <= 2 * INF
            && self.bh <= 2 * INF
    }

    /// The fitted size of the bounds in a `w` by `h` target.
    pub open spec fn fill_spec(self, w: int, h: int) -> (int, int) {
        fill_size_spec(w, h, self.bw as int, self.bh as int)
    }

    /// The recursion levels of a pass drawn at `w` by `h`.
    pub open spec fn levels_spec(self, w: int, h: int) -> u32 {
        let (wf, hf) = self.fill_spec(w, h);
        clamp_passes(self.count as int, base_passes(self.fill_ratio as int, (wf / (ONE as int)) * (hf / (ONE as int))))
    }

    /// The feeder of a pass drawn at `w` by `h`: the target shrunk by the
    /// smallest scale factor once per level, if that is still worth a pass
    /// and strictly smaller.
    pub open spec fn feeder_spec(self, w: int, h: int) -> Option<PassKey> {
        let (wf, hf) = self.fill_spec(w, h);
        let sf = fpow_spec(self.sf_min as int, self.levels_spec(w, h) as nat);
        let nw = texture_size_spec(wf * sf / (ONE as int) / (ONE as int));
        let nh = texture_size_spec(hf * sf / (ONE as int) / (ONE as int));
        if (nw > MIN_FEEDER_SIDE || nh > MIN_FEEDER_SIDE) && nw <= w && nh <= h && nw + nh < w + h {
            Some(PassKey { width: nw as u32, height: nh as u32, filter: true })
        } else {
            None
        }
    }

    /// The statistics of `root` (over one level of generators) and `bounds`.
    pub fn new(root: &Root, bounds: &Rect) -> (r: Planner)
        requires
            root.wf(),
            root.generators().len() > 0,
            bounds.wf(),
        ensures
            r.wf(),
            min_det_spec(root.generators()) <= 0 ==> r.sf_min == 0,
            min_det_spec(root.generators()) > 0 ==> is_isqrt(
                r.sf_min as int,
                min_det_spec(root.generators()) * ONE,
            ),
            r.fill_ratio == fill_ratio_spec(root.generators()),
            r.count == root.generators().len(),
            r.bw == bounds.max.x - bounds.min.x,
            r.bh == bounds.max.y - bounds.min.y,
    {
        let gens = root.generators_ref();
        let mut min_det: i64 = area_sf(&gens[0]);
        let mut fill: i128 = 0;
        let mut i: usize = 0;
        assert(gens@.take(1).drop_last() =~= Seq::<Affine>::empty());
        while i < gens.len()
            invariant
                gens@ == root.generators(),
                all_wf(gens@),
                gens@.len() > 0,
                i <= gens@.len(),
                in_range(min_det as int),
                min_det == min_det_spec(gens@.take(if i == 0 { 1int } else { i as int })),
                fill == fill_ratio_spec(gens@.take(i as int)),
                -FILL_CAP <= fill <= FILL_CAP,
            decreases gens@.len() - i,
        {
            let d = area_sf(&gens[i]);
            assert(gens@.take(i + 1).drop_last() =~= gens@.take(i as int));
            if i > 0 && d < min_det {
                min_det = d;
            }
            let f = fill + d as i128;
            fill = if f > FILL_CAP {
                FILL_CAP
            } else if f < -FILL_CAP {
                -FILL_CAP
            } else {
                f
            };
            i = i + 1;
        }
        assert(gens@.take(i as int) =~= gens@);
        let sf_min: i64 = if min_det <= 0 {
            0
        } else {
            assert(min_det * ONE < 8589934592 * 8589934592) by (nonlinear_arith)
                requires
                    min_det <= INF,
            ;
            let r = isqrt((min_det as u128) * (ONE as u128));
            r as i64
        };
        Planner {
            sf_min,
            fill_ratio: fill,
            count: gens.len() as u64,
            bw: (bounds.max.x - bounds.min.x) as u64,
            bh: (bounds.max.y - bounds.min.y) as u64,
        }
    }
}

/// One pass of a cascade: what it draws and what it reads.
#[derive(Clone, Debug)]
pub struct Accumulate {
    /// Target size and sampling of the pass's output.
    pub key: PassKey,
    /// Total recursion levels drawn by the pass.
    pub levels: u32,
    /// The smaller pass this one samples from, if any.
    pub smaller: Option<PassKey>,
    /// A label for the pass's resources.
    pub name: String,
}

impl Accumulate {
    /// Levels drawn as instances of the mesh.
    pub fn instance_levels(&self) -> (r: u32)
        ensures
            r == self.levels / 2,
    {
        self.levels / 2
    }

    /// Levels baked into the mesh.
    pub fn mesh_levels(&self) -> (r: u32)
        ensures
            r == self.levels - self.levels / 2,
            r + self.instance_levels_spec() == self.levels,
    {
        self.levels - self.levels / 2
    }

    pub open spec fn instance_levels_spec(&self) -> u32 {
        self.levels / 2
    }
}

/// A cascade of passes, smallest first; the last one draws the full target.
#[derive(Clone, Debug)]
pub struct Plan {
    pub passes: Vec<Accumulate>,
}

impl Planner {
    /// The pass `key` stands for.
    pub open spec fn pass_matches(self, key: PassKey, a: Accumulate) -> bool {
        &&& a.key == key
        &&& a.levels == self.levels_spec(key.width as int, key.height as int)
        &&& a.smaller == self.feeder_spec(key.width as int, key.height as int)
    }

    /// Plans the pass drawn for `key`: its levels and its feeder.
    pub fn pass(&self, key: PassKey) -> (r: Accumulate)
        requires
            self.wf(),
        ensures
            self.pass_matches(key, r),
            1 <= r.levels <= 8,
            pow(self.count as int, (r.levels / 2) as nat)
                <= BUFFER_LIMIT,
    {
        let (wf, hf) = fill_size(key.width, key.height, self.bw, self.bh);
        let one = ONE as u128;
        assert((wf as int / (ONE as int)) * (hf as int / (ONE as int)) <= u32::MAX * u32::MAX) by (nonlinear_arith)
            requires
                wf <= key.width * ONE,
                hf <= key.height * ONE,
                wf >= 0,
                hf >= 0,
                key.width <= u32::MAX,
                key.height <= u32::MAX,
        ;
        let area = (wf / one) * (hf / one);
        assert(-FILL_CAP * (u32::MAX * u32::MAX) <= self.fill_ratio * area <= FILL_CAP * (u32::MAX
            * u32::MAX)) by (nonlinear_arith)
            requires
                -FILL_CAP <= self.fill_ratio <= FILL_CAP,
                0 <= area <= u32::MAX * u32::MAX,
        ;
        let fill_area: i128 = self.fill_ratio * (area as i128);
        let mut passes: u32 = if fill_area > LARGE_FILL * (ONE as i128) {
            2
        } else if fill_area > MEDIUM_FILL * (ONE as i128) {
            6
        } else {
            8
        };
        let ghost start = passes;
        proof {
            lemma_clamp_passes(self.count as int, passes);
        }
        while passes > 0 && pow_exceeds(self.count, passes / 2, BUFFER_LIMIT)
            invariant
                1 <= passes <= start,
                clamp_passes(self.count as int, passes) == clamp_passes(self.count as int, start),
            decreases passes,
        {
            proof {
                reveal(pow);
                assert(pow(self.count as int, 0) == 1);
            }
            passes = passes - 1;
        }
        let sf = fpow(self.sf_min, passes);
        assert(wf * sf <= u32::MAX * ONE * INF) by (nonlinear_arith)
            requires
                wf <= key.width * ONE,
                key.width <= u32::MAX,
                0 <= sf <= INF,
        ;
        assert(hf * sf <= u32::MAX * ONE * INF) by (nonlinear_arith)
            requires
                hf <= key.height * ONE,
                key.height <= u32::MAX,
                0 <= sf <= INF,
        ;
        let width = texture_size(wf * (sf as u128) / one / one);
        let height = texture_size(hf * (sf as u128) / one / one);
        let smaller = if (width > MIN_FEEDER_SIDE || height > MIN_FEEDER_SIDE) && width <= key.width
            && height <= key.height && (width as u64) + (height as u64) < (key.width as u64) + (
        key.height as u64) {
            Some(PassKey { width, height, filter: true })
        } else {
            None
        };
        Accumulate { key, levels: passes, smaller, name: String::from_str("AutoSized") }
    }
}

/// `a` is strictly smaller than `b`: no side larger, the two not equal.
pub open spec fn smaller_than(a: PassKey, b: PassKey) -> bool {
    a.width <= b.width && a.height <= b.height && a.width + a.height < b.width + b.height
}

proof fn lemma_texture_size_range(px: int)
    ensures
        1 <= texture_size_spec(px) <= MAX_SIDE_EIGHTHS * 8,
{
}

proof fn lemma_feeder_smaller(pl: Planner, key: PassKey)
    ensures
        pl.feeder_spec(key.width as int, key.height as int) matches Some(k) ==> smaller_than(k, key),
{
    let (wf, hf) = pl.fill_spec(key.width as int, key.height as int);
    let sf = fpow_spec(pl.sf_min as int, pl.levels_spec(key.width as int, key.height as int) as nat);
    lemma_texture_size_range(wf * sf / (ONE as int) / (ONE as int));
    lemma_texture_size_range(hf * sf / (ONE as int) / (ONE as int));
}

impl Plan {
    /// Each pass is the one its key stands for; each is fed by the one before
    /// it, which is strictly smaller; the first has no feeder; the last draws
    /// `width` by `height`.
    pub open spec fn cascade_of(self, pl: Planner, width: u32, height: u32) -> bool {
        let ps = self.passes@;
        &&& ps.len() >= 1
        &&& ps.last().key == (PassKey { width, height, filter: false })
        &&& ps[0].smaller is None
        &&& forall|i: int| 0 <= i < ps.len() ==> pl.pass_matches(#[trigger] ps[i].key, ps[i])
        &&& forall|i: int|
            0 <= i < ps.len() - 1 ==> #[trigger] ps[i + 1].smaller == Some(ps[i].key)
                && smaller_than(ps[i].key, ps[i + 1].key)
    }
}

impl Planner {
    /// The cascade for a `width` by `height` target, smallest pass first.
    pub fn plan_cascade(&self, width: u32, height: u32) -> (r: Plan)
        requires
            self.wf(),
        ensures
            r.cascade_of(*self, width, height),
            forall|i: int|
                0 <= i < r.passes@.len() ==> 1 <= (#[trigger] r.passes@[i]).levels <= 8 && (
                pow(self.count as int, (r.passes@[i].levels / 2) as nat)
                    <= BUFFER_LIMIT),
    {
        let top = self.pass(PassKey { width, height, filter: false });
        let mut cur = top.smaller;
        let mut passes: Vec<Accumulate> = Vec::new();
        passes.push(top);
        while cur.is_some()
            invariant
                self.wf(),
                passes@.len() >= 1,
                passes@.last().key == (PassKey { width, height, filter: false }),
                cur == passes@[0].smaller,
                forall|i: int| 0 <= i < passes@.len() ==> self.pass_matches(#[trigger] passes@[i].key, passes@[i]),
                forall|i: int|
                    0 <= i < passes@.len() ==> 1 <= (#[trigger] passes@[i]).levels <= 8 && (
                    pow(self.count as int, (passes@[i].levels / 2) as nat)
                        <= BUFFER_LIMIT),
                forall|i: int|
                    0 <= i < passes@.len() - 1 ==> #[trigger] passes@[i + 1].smaller == Some(passes@[i].key)
                        && smaller_than(passes@[i].key, passes@[i + 1].key),
            decreases (match cur {
                Some(k) => k.width + k.height + 1,
                None => 0,
            }),
        {
            let k = cur.unwrap();
            let p = self.pass(k);
            proof {
                lemma_feeder_smaller(*self, k);
                lemma_feeder_smaller(*self, passes@[0].key);
            }
            let ghost old_passes = passes@;
            cur = p.smaller;
            passes.insert(0, p);
            assert forall|i: int| 0 <= i < passes@.len() - 1 implies #[trigger] passes@[i + 1].smaller
                == Some(passes@[i].key) && smaller_than(passes@[i].key, passes@[i + 1].key) by {
                assert(passes@[i + 1] == old_passes[i]);
                if i > 0 {
                    assert(passes@[i] == old_passes[i - 1]);
                    let j = i - 1;
                    assert(old_passes[j + 1].smaller == Some(old_passes[j].key));
                } else {
                    assert(self.pass_matches(old_passes[0].key, old_passes[0]));
                    assert(old_passes[0].smaller == Some(k));
                    assert(passes@[0].key == k);
                }
            }
            assert forall|i: int| 0 <= i < passes@.len() implies self.pass_matches(#[trigger] passes@[i].key, passes@[i])
                && 1 <= passes@[i].levels <= 8 && (
                pow(self.count as int, (passes@[i].levels / 2) as nat)
                    <= BUFFER_LIMIT) by {
                if i > 0 {
                    assert(passes@[i] == old_passes[i - 1]);
                }
            }
        }
        Plan { passes }
    }
}

/// The cascade for a `width` by `height` view of `root`'s attractor, whose
/// bounds are `bounds`.
pub fn plan_cascade(width: u32, height: u32, root: &Root, bounds: &Rect) -> (r: Plan)
    requires
        root.wf(),
        root.generators().len() > 0,
        bounds.wf(),
    ensures
        r.passes@.len() >= 1,
        r.passes@.last().key == (PassKey { width, height, filter: false }),
        forall|i: int|
            0 <= i < r.passes@.len() - 1 ==> smaller_than(
                #[trigger] r.passes@[i].key,
                r.passes@[i + 1].key,
            ),
        forall|i: int|
            0 <= i < r.passes@.len() ==> 1 <= (#[trigger] r.passes@[i]).levels <= 8 && pow(
                root.generators().len() as int,
                (r.passes@[i].levels / 2) as nat,
            ) <= BUFFER_LIMIT,
        exists|pl: Planner| pl.wf() && r.cascade_of(pl, width, height) && pl.fill_ratio
            == fill_ratio_spec(root.generators()) && pl.count == root.generators().len() && pl.bw
            == bounds.max.x - bounds.min.x && pl.bh == bounds.max.y - bounds.min.y && (min_det_spec(
            root.generators(),
        ) <= 0 ==> pl.sf_min == 0) && (min_det_spec(root.generators()) > 0 ==> is_isqrt(
            pl.sf_min as int,
            min_det_spec(root.generators()) * ONE,
        )),
{
    let pl = Planner::new(root, bounds);
    let r = pl.plan_cascade(width, height);
    assert(r.cascade_of(pl, width, height));
    assert forall|i: int| 0 <= i < r.passes@.len() - 1 implies smaller_than(
        #[trigger] r.passes@[i].key,
        r.passes@[i + 1].key,
    ) by {
        assert(r.passes@[i + 1].smaller == Some(r.passes@[i].key));
    }
    r
}

} // verus!
