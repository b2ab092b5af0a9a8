use nalgebra as na;
use na::{Affine2, Point2, Rotation2, Similarity2, Translation2};
use rusty_flame::bounds::{solve_bounds, BoundsError, MAX_LEVEL};
use rusty_flame::fixed_point::iterate;
use rusty_flame::flame::{composed_maps, process_levels, AffineState, Root, State};
use rusty_flame::geometry::{Affine, Point, Rect, LIMIT, ONE};

fn fx(v: f64) -> i64 {
    let r = (v * ONE as f64).round();
    r.max(-(LIMIT as f64)).min(LIMIT as f64) as i64
}

fn to_f64(v: i64) -> f64 {
    v as f64 / ONE as f64
}

fn affine(m: &Affine2<f64>) -> Affine {
    let m = m.matrix();
    Affine {
        a: fx(m[(0, 0)]),
        b: fx(m[(0, 1)]),
        c: fx(m[(1, 0)]),
        d: fx(m[(1, 1)]),
        tx: fx(m[(0, 2)]),
        ty: fx(m[(1, 2)]),
    }
}

fn pt(x: f64, y: f64) -> Point {
    Point::new(fx(x), fx(y))
}

fn checked_bounds(s: &AffineState) -> Rect {
    let b = s.get_bounds(3).unwrap();
    let corners = b.corners();
    for m in composed_maps(*s, 3) {
        for p in corners.iter() {
            assert!(b.contains_point(m.transform_point(*p)));
        }
    }
    assert!(b.corners().iter().all(|p| b.contains_point(*p)));
    b
}

#[test]
fn empty_bounds() {
    let v = [affine(&na::convert(Similarity2::from_scaling(0.5)))];
    let state = AffineState::new(affine(&na::convert(Similarity2::from_scaling(1.0))), &v);

    assert_eq!(checked_bounds(&state), Rect::origin());
}

#[test]
fn shifted_bounds() {
    let v = Root::new(vec![affine(&na::convert(
        Similarity2::from_scaling(0.5) * Translation2::new(5.0, 6.0),
    ))]);

    assert_eq!(
        iterate(pt(0.0, 0.0), |p: &Point| v.generators_ref()[0].transform_point(*p), 1000),
        Some(pt(5.0, 6.0))
    );

    assert_eq!(checked_bounds(&v.get_state()), Rect::point(pt(5.0, 6.0)));
}

#[test]
fn line_bounds() {
    let v = [
        affine(&na::convert(Similarity2::from_scaling(0.5))),
        affine(&na::convert(
            Similarity2::from_scaling(0.5) * Translation2::new(0.0, 1.0),
        )),
    ];
    let state = AffineState::new(affine(&na::convert(Similarity2::from_scaling(1.0))), &v);

    assert_eq!(
        iterate(pt(5.0, 5.0), |p: &Point| v[0].transform_point(*p), 1000),
        Some(pt(0.0, 0.0))
    );
    assert_eq!(
        iterate(pt(5.0, 5.0), |p: &Point| v[1].transform_point(*p), 1000),
        Some(pt(0.0, 1.0))
    );

    assert_eq!(v[1].transform_point(pt(0.0, 0.0)), pt(0.0, 0.5));

    // The segment from (0, 0) to (0, 1), up to the acceptance margin.
    let b = checked_bounds(&state);
    let eps = 0.001;
    assert_eq!(b.min.x, 0);
    assert_eq!(b.max.x, 0);
    assert!(to_f64(b.min.y).abs() <= eps);
    assert!((to_f64(b.max.y) - 1.0).abs() <= eps);
    assert!(b.min.y <= 0 && b.max.y >= ONE);
    // the exact value the fixed-point iteration settles on
    assert_eq!(b.min.y, -1101);
    assert_eq!(b.max.y, ONE + 589);
}

#[test]
fn poly_bounds() {
    for n in 3..10 {
        let shift = 0.5;
        let scale = 0.5;
        let sm = Similarity2::from_scaling(scale);

        let storage = (0..n)
            .map(|i| {
                let offset = Rotation2::new(std::f64::consts::PI * 2.0 * f64::from(i) / f64::from(n))
                    * Point2::new(shift, 0.0);
                affine(
                    &(na::convert::<_, Affine2<f64>>(sm * Translation2::new(offset.x, offset.y))
                        * Rotation2::new(0.3)),
                )
            })
            .collect::<Vec<Affine>>();

        let bounds = checked_bounds(&AffineState::new(Affine::identity(), &storage));
        assert!(bounds.contains(&Rect { min: pt(-0.3, -0.3), max: pt(0.3, 0.3) }));
        assert!(Rect { min: pt(-0.7, -0.7), max: pt(0.7, 0.7) }.contains(&bounds));
    }
}

#[test]
fn walk_visits_n_to_the_depth_states() {
    let gens = vec![
        affine(&na::convert(Similarity2::from_scaling(0.5))),
        affine(&na::convert(Similarity2::from_scaling(0.5) * Translation2::new(1.0, 0.0))),
        affine(&na::convert(Similarity2::from_scaling(0.5) * Translation2::new(0.0, 1.0))),
    ];
    let root = Root::new(gens.clone());
    for level in 0..5u32 {
        let mut out = vec![];
        process_levels(root.get_state(), level, &mut out);
        assert_eq!(out.len(), 3usize.pow(level));
        assert_eq!(composed_maps(root.get_state(), level).len(), 3usize.pow(level));
    }
    // depth zero is the identity alone
    assert_eq!(composed_maps(root.get_state(), 0), vec![Affine::identity()]);
    // depth first, in generator order: g0 then g0, g0 then g1, g0 then g2, g1 then g0, ...
    let two = composed_maps(root.get_state(), 2);
    assert_eq!(two[0], gens[0].compose(&gens[0]));
    assert_eq!(two[1], gens[1].compose(&gens[0]));
    assert_eq!(two[3], gens[0].compose(&gens[1]));
    let children = root.get_state().visit_level();
    assert_eq!(children.len(), 3);
    assert_eq!(children[2].mat, gens[2]);
}

#[test]
fn solved_bounds_hold_deep_samples() {
    // contracting generators: the solved rectangle holds its own image at the solved depth
    let storage: Vec<Affine> = (0..4)
        .map(|i| {
            let offset = Rotation2::new(std::f64::consts::PI * 0.5 * f64::from(i)) * Point2::new(1.0, 0.0);
            affine(
                &(na::convert::<_, Affine2<f64>>(
                    Similarity2::from_scaling(0.45) * Translation2::new(offset.x, offset.y),
                ) * Rotation2::new(0.2)),
            )
        })
        .collect();
    let root = Root::new(storage);
    let b = solve_bounds(&root, MAX_LEVEL).unwrap();
    assert!(!b.is_infinite());
    let corners = b.corners();
    for m in composed_maps(root.get_state(), MAX_LEVEL).iter().step_by(37) {
        for p in corners.iter() {
            assert!(b.contains_point(m.transform_point(*p)));
        }
    }
}

#[test]
fn empty_generator_set_at_depth_zero() {
    let root = Root::new(vec![]);
    assert_eq!(solve_bounds(&root, 0), Ok(Rect::origin()));
}

#[test]
fn expanding_generator_diverges() {
    let root = Root::new(vec![Affine { a: 2 * ONE, b: 0, c: 0, d: 2 * ONE, tx: ONE, ty: ONE }]);
    assert_eq!(solve_bounds(&root, 1), Err(BoundsError::Divergent));
}

#[test]
fn oscillating_generator_does_not_converge() {
    // x -> 1 - x: the candidate alternates between two points forever
    let root = Root::new(vec![Affine { a: -ONE, b: 0, c: 0, d: -ONE, tx: ONE, ty: ONE }]);
    assert_eq!(solve_bounds(&root, 1), Err(BoundsError::NotConverged));
}
