use rusty_flame::bounds::{solve_bounds, MAX_LEVEL};
use rusty_flame::flame::Root;
use rusty_flame::geometry::{Affine, Point, Rect, ONE};
use rusty_flame::plan::{
    fill_size, fpow, isqrt, plan_cascade, pow_exceeds, texture_size, PassKey, Planner,
    BUFFER_LIMIT,
};

fn polygon(n: usize, scale: f64, rotation: f64) -> Root {
    let gens = (0..n)
        .map(|i| {
            let t = std::f64::consts::PI * 2.0 * i as f64 / n as f64;
            let (s, c) = rotation.sin_cos();
            let f = |v: f64| (v * ONE as f64).round() as i64;
            Affine {
                a: f(scale * c),
                b: f(-scale * s),
                c: f(scale * s),
                d: f(scale * c),
                tx: f(scale * t.cos()),
                ty: f(scale * t.sin()),
            }
        })
        .collect();
    Root::new(gens)
}

fn check_cascade(width: u32, height: u32, root: &Root) {
    let bounds = solve_bounds(root, MAX_LEVEL).unwrap();
    check_plan(width, height, root, &bounds);
}

fn check_plan(width: u32, height: u32, root: &Root, bounds: &Rect) {
    let plan = plan_cascade(width, height, root, bounds);
    let ps = &plan.passes;
    assert!(!ps.is_empty());
    let last = ps.last().unwrap();
    assert_eq!(last.key, PassKey { width, height, filter: false });
    assert!(ps[0].smaller.is_none());
    for w in ps.windows(2) {
        assert!(w[0].key.width <= w[1].key.width && w[0].key.height <= w[1].key.height);
        assert!(w[0].key.width + w[0].key.height < w[1].key.width + w[1].key.height);
        assert_eq!(w[1].smaller, Some(w[0].key));
        assert!(w[0].key.filter);
    }
    let n = root.len() as u128;
    for p in ps {
        assert!(1 <= p.levels && p.levels <= 8);
        assert!(n.pow(p.levels / 2) <= BUFFER_LIMIT as u128);
        assert_eq!(p.mesh_levels() + p.instance_levels(), p.levels);
    }
}

#[test]
fn cascade_ends_at_target_and_shrinks() {
    check_cascade(3000, 2000, &polygon(5, 0.5, 0.1));
    check_cascade(1920, 1080, &polygon(3, 0.5, 0.0));
    check_cascade(800, 600, &polygon(12, 0.3, 0.4));
    check_cascade(1, 1, &polygon(4, 0.5, 0.2));
    check_cascade(0, 0, &polygon(4, 0.5, 0.2));
}

#[test]
fn high_contraction_gives_a_single_pass() {
    let root = polygon(3, 0.05, 0.0);
    let bounds = solve_bounds(&root, MAX_LEVEL).unwrap();
    let plan = plan_cascade(64, 64, &root, &bounds);
    assert_eq!(plan.passes.len(), 1);
    assert_eq!(plan.passes[0].smaller, None);
}

#[test]
fn buffer_limit_lowers_levels() {
    // nine generators: 9^4 and 9^3 exceed 512, 9^2 does not, so at most 5 levels
    let root = polygon(9, 0.3, 0.0);
    let bounds = solve_bounds(&root, MAX_LEVEL).unwrap();
    let plan = plan_cascade(64, 48, &root, &bounds);
    for p in &plan.passes {
        assert!(p.levels <= 5);
    }
}

#[test]
fn many_generators_keep_the_buffer_limit() {
    // 600 generators: even one instance level would exceed 512, so every pass
    // draws a single level, all of it in the mesh
    let root = polygon(600, 0.1, 0.0);
    let bounds = solve_bounds(&root, 1).unwrap();
    let plan = plan_cascade(256, 256, &root, &bounds);
    for p in &plan.passes {
        assert_eq!(p.levels, 1);
        assert_eq!(p.instance_levels(), 0);
        assert_eq!(p.mesh_levels(), 1);
    }
    check_plan(256, 256, &root, &bounds);
    check_plan(4000, 3000, &root, &bounds);
}

#[test]
fn planner_statistics() {
    // two generators: scale 1/2 and scale 1/4, areas 1/4 and 1/16
    let root = Root::new(vec![
        Affine { a: ONE / 2, b: 0, c: 0, d: ONE / 2, tx: 0, ty: 0 },
        Affine { a: ONE / 4, b: 0, c: 0, d: ONE / 4, tx: ONE, ty: 0 },
    ]);
    let bounds = Rect { min: Point::new(0, 0), max: Point::new(2 * ONE, ONE) };
    let pl = Planner::new(&root, &bounds);
    assert_eq!(pl.sf_min, ONE / 4);
    assert_eq!(pl.fill_ratio, (ONE / 4 + ONE / 16) as i128);
    assert_eq!(pl.count, 2);
    assert_eq!(pl.bw, 2 * ONE as u64);
    assert_eq!(pl.bh, ONE as u64);
    // 1000 x 1000 frame: content fills 1000 x 500; 500000 * 5/16 lies between 256^2 and
    // 1024^2, so 6 levels (2^3 <= 512 keeps them); the feeder, 1000 * (1/4)^6 < 1 pixel, is none
    let p = pl.pass(PassKey { width: 1000, height: 1000, filter: false });
    assert_eq!(p.levels, 6);
    assert_eq!(p.smaller, None);
    assert_eq!(p.name, "AutoSized");
}

#[test]
fn texture_size_rounds_down_to_eight() {
    assert_eq!(texture_size(100), 96);
    assert_eq!(texture_size(8), 8);
    assert_eq!(texture_size(7), 1);
    assert_eq!(texture_size(0), 1);
    assert_eq!(texture_size(u128::MAX), 4294967288);
}

#[test]
fn integer_square_root() {
    assert_eq!(isqrt(0), 0);
    assert_eq!(isqrt(17), 4);
    assert_eq!(isqrt(16), 4);
    assert_eq!(isqrt(1u128 << 64), 1u128 << 32);
}

#[test]
fn fixed_point_power() {
    assert_eq!(fpow(ONE / 2, 3), ONE / 8);
    assert_eq!(fpow(ONE / 2, 0), ONE);
    assert_eq!(fpow(3 * ONE, 2), 9 * ONE);
}

#[test]
fn power_against_limit() {
    assert!(pow_exceeds(5, 4, 512));
    assert!(!pow_exceeds(5, 3, 512));
    assert!(!pow_exceeds(8, 3, 512));
    assert!(pow_exceeds(u64::MAX, 3, 512));
    assert!(!pow_exceeds(0, 5, 0));
    assert!(pow_exceeds(0, 0, 0));
}

#[test]
fn letterbox_fill_size() {
    let one = ONE as u128;
    // square content in a wide frame: limited by the height
    assert_eq!(fill_size(300, 200, ONE as u64, ONE as u64), (200 * one, 200 * one));
    // wide content in a square frame: limited by the width
    assert_eq!(fill_size(100, 100, 2 * ONE as u64, ONE as u64), (100 * one, 50 * one));
    // a point fills nothing
    assert_eq!(fill_size(100, 100, 0, 0), (0, 0));
    // a vertical segment fills the height only
    assert_eq!(fill_size(100, 80, 0, ONE as u64), (0, 80 * one));
}
