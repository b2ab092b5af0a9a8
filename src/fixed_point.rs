//! Iteration to a fixed point.
use vstd::prelude::*;
use vstd::std_specs::cmp::PartialEqSpec;

verus! {

/// `f` gives at most one result for each argument.
pub open spec fn deterministic<V, F: Fn(&V) -> V>(f: F) -> bool {
    forall|a: V, b1: V, b2: V| f.ensures((&a,), b1) && f.ensures((&a,), b2) ==> b1 == b2
}

/// The result of `f` on `x`.
pub open spec fn next<V, F: Fn(&V) -> V>(f: F, x: V) -> V {
    choose|y: V| f.ensures((&x,), y)
}

/// `x` after `k` applications of `f`.
pub open spec fn nth_iterate<V, F: Fn(&V) -> V>(f: F, x: V, k: nat) -> V
    decreases k,
{
    if k == 0 {
        x
    } else {
        next(f, nth_iterate(f, x, (k - 1) as nat))
    }
}

/// The `k`-th value of the orbit of `x` is followed by one equal to it.
pub open spec fn settles_at<V: PartialEq, F: Fn(&V) -> V>(f: F, x: V, k: nat) -> bool {
    nth_iterate(f, x, k + 1).eq_spec(&nth_iterate(f, x, k))
}

proof fn lemma_next<V, F: Fn(&V) -> V>(f: F, x: V, y: V)
    requires
        deterministic(f),
        f.ensures((&x,), y),
    ensures
        next(f, x) == y,
{
    assert(f.ensures((&x,), next(f, x)));
}

/// Applies `f` repeatedly from `initial` until a value maps to one equal to
/// itself, and returns that image; `None` if that does not happen within
/// `max_steps` applications.
pub fn iterate<V: PartialEq, F: Fn(&V) -> V>(initial: V, f: F, max_steps: usize) -> (r: Option<V>)
    requires
        forall|v: &V| f.requires((v,)),
    ensures
        deterministic(f) && V::obeys_eq_spec() ==> match r {
            Some(v) => exists|k: nat|
                k < max_steps && #[trigger] settles_at(f, initial, k) && v == nth_iterate(
                    f,
                    initial,
                    k + 1,
                ) && forall|j: nat| j < k ==> !#[trigger] settles_at(f, initial, j),
            None => forall|k: nat| k < max_steps ==> !#[trigger] settles_at(f, initial, k),
        },
{
    let mut v = initial;
    let mut steps: usize = 0;
    while steps < max_steps
        invariant
            forall|v: &V| f.requires((v,)),
            steps <= max_steps,
            deterministic(f) && V::obeys_eq_spec() ==> v == nth_iterate(f, initial, steps as nat),
            deterministic(f) && V::obeys_eq_spec() ==> forall|j: nat|
                j < steps ==> !#[trigger] settles_at(f, initial, j),
        decreases max_steps - steps,
    {
        let v_new = f(&v);
        let ghost k = steps as nat;
        proof {
            if deterministic(f) && V::obeys_eq_spec() {
                lemma_next(f, v, v_new);
                assert(nth_iterate(f, initial, k + 1) == next(f, nth_iterate(f, initial, k)));
            }
        }
        if v_new.eq(&v) {
            proof {
                if deterministic(f) && V::obeys_eq_spec() {
                    assert(settles_at(f, initial, k));
                }
            }
            return Some(v_new);
        }
        v = v_new;
        steps = steps + 1;
    }
    None
}

/// `(w, stop)`: what `cmp` gives for the value `s` and its image under `f`.
pub open spec fn cmp_step<V, Cmp: Fn(V, V) -> (V, bool), F: Fn(&V) -> V>(cmp: Cmp, f: F, s: V) -> (
    V,
    bool,
) {
    choose|o: (V, bool)| cmp.ensures((s, next(f, s)), o)
}

/// The value `iterate_cmp` goes on with after `k` rounds.
pub open spec fn cmp_state<V, Cmp: Fn(V, V) -> (V, bool), F: Fn(&V) -> V>(
    cmp: Cmp,
    f: F,
    x: V,
    k: nat,
) -> V
    decreases k,
{
    if k == 0 {
        x
    } else {
        cmp_step(cmp, f, cmp_state(cmp, f, x, (k - 1) as nat)).0
    }
}

/// `cmp` stops in round `k`.
pub open spec fn stops_at<V, Cmp: Fn(V, V) -> (V, bool), F: Fn(&V) -> V>(
    cmp: Cmp,
    f: F,
    x: V,
    k: nat,
) -> bool {
    cmp_step(cmp, f, cmp_state(cmp, f, x, k)).1
}

/// `cmp` gives at most one result for each pair of arguments.
pub open spec fn deterministic2<V, Cmp: Fn(V, V) -> (V, bool)>(cmp: Cmp) -> bool {
    forall|a: V, b: V, o1: (V, bool), o2: (V, bool)|
        cmp.ensures((a, b), o1) && cmp.ensures((a, b), o2) ==> o1 == o2
}

/// Runs `f` from `initial`, handing each value and its image to `cmp`,
/// which returns the value to go on with and whether to stop there.
/// Returns the value `cmp` stopped with, or `None` once `max_steps` rounds
/// have passed without a stop.
pub fn iterate_cmp<V, Cmp: Fn(V, V) -> (V, bool), F: Fn(&V) -> V>(
    initial: V,
    cmp: Cmp,
    f: F,
    max_steps: usize,
) -> (r: Option<V>)
    requires
        forall|v: &V| f.requires((v,)),
        forall|a: V, b: V| cmp.requires((a, b)),
    ensures
        deterministic(f) && deterministic2(cmp) ==> match r {
            Some(v) => exists|k: nat|
                k < max_steps && #[trigger] stops_at(cmp, f, initial, k) && v == cmp_state(
                    cmp,
                    f,
                    initial,
                    k + 1,
                ) && forall|j: nat| j < k ==> !#[trigger] stops_at(cmp, f, initial, j),
            None => forall|k: nat| k < max_steps ==> !#[trigger] stops_at(cmp, f, initial, k),
        },
{
    let mut v = initial;
    let mut steps: usize = 0;
    while steps < max_steps
        invariant
            forall|v: &V| f.requires((v,)),
            forall|a: V, b: V| cmp.requires((a, b)),
            steps <= max_steps,
            deterministic(f) && deterministic2(cmp) ==> v == cmp_state(cmp, f, initial, steps as nat),
            deterministic(f) && deterministic2(cmp) ==> forall|j: nat|
                j < steps ==> !#[trigger] stops_at(cmp, f, initial, j),
        decreases max_steps - steps,
    {
        let v_new = f(&v);
        let ghost k = steps as nat;
        let ghost u = v;
        let ghost n = v_new;
        let (v_adjusted, stop) = cmp(v, v_new);
        proof {
            if deterministic(f) && deterministic2(cmp) {
                lemma_next(f, u, n);
                let o = (v_adjusted, stop);
                assert(cmp.ensures((u, next(f, u)), cmp_step(cmp, f, u)));
                assert(cmp_step(cmp, f, u) == o);
                assert(cmp_state(cmp, f, initial, k + 1) == cmp_step(
                    cmp,
                    f,
                    cmp_state(cmp, f, initial, k),
                ).0);
            }
        }
        if stop {
            proof {
                if deterministic(f) && deterministic2(cmp) {
                    assert(stops_at(cmp, f, initial, k));
                }
            }
            return Some(v_adjusted);
        }
        v = v_adjusted;
        steps = steps + 1;
    }
    None
}

} // verus!
