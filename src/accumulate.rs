//! Resolving a planned cascade into cached passes, and the order in which
//! they are drawn.
use vstd::prelude::*;
use crate::cache::{Cache, CacheKey, PtrRc, built};
use crate::plan::{Accumulate, Plan, PassKey};

verus! {

/// A resolved pass: its plan and the device resources built for it.
#[derive(Debug)]
pub struct Pass<G> {
    pub spec: Accumulate,
    pub resources: G,
}

/// How a pass's pipeline is set up.
#[derive(Clone, Copy, Debug, PartialEq, Eq, Structural)]
pub struct PipelineChoice {
    /// The pass samples its feeder's output: its pipeline binds that texture
    /// and uses the textured fragment stage. Otherwise it only self-seeds.
    pub textured: bool,
    /// The pass's own output is read back with nearest-texel sampling rather
    /// than linear filtering.
    pub nearest_output: bool,
}

/// The pipeline setup for the pass `a`.
pub fn pipeline_choice(a: &Accumulate) -> (r: PipelineChoice)
    ensures
        r.textured == a.smaller is Some,
        r.nearest_output == a.key.filter,
{
    PipelineChoice { textured: a.smaller.is_some(), nearest_output: a.key.filter }
}

/// Failures of cascade resolution.
#[derive(Clone, Copy, Debug, PartialEq, Eq, Structural)]
pub enum CascadeError {
    /// The plan holds no pass.
    EmptyCascade,
    /// Following feeders from a pass reaches one missing from the cache, or
    /// comes back to a pass already visited.
    BrokenChain,
}

/// Every key of `ps` has an entry in `c`.
pub open spec fn all_cached<G>(c: Cache<PassKey, Pass<G>>, ps: Seq<Accumulate>) -> bool {
    forall|i: int| 0 <= i < ps.len() ==> c.has(#[trigger] ps[i].key)
}

/// Every entry of `before` is unchanged in `after`.
pub open spec fn keeps_entries<K: CacheKey, V>(before: Cache<K, V>, after: Cache<K, V>) -> bool {
    &&& before.keys().len() <= after.keys().len()
    &&& forall|i: int| 0 <= i < before.keys().len() ==> #[trigger] after.keys()[i] == before.keys()[i]
    &&& forall|i: int|
        0 <= i < before.keys().len() ==> #[trigger] after.values()[i] == before.values()[i]
}

/// Looks up or builds each pass of `plan`, smallest first, building a
/// missing one with `build`; returns the handle of the last, full-size pass.
/// A cached pass is found by its key alone, so the cache must be cleared
/// when the generator set or its bounds change.
pub fn resolve<G, B: Fn(&Accumulate) -> G>(cache: &mut Cache<PassKey, Pass<G>>, plan: Plan, build: B) -> (r:
    Result<PtrRc<Pass<G>>, CascadeError>)
    requires
        old(cache).wf(),
        forall|a: &Accumulate| build.requires((a,)),
    ensures
        final(cache).wf(),
        keeps_entries(*old(cache), *final(cache)),
        r is Err <==> plan.passes@.len() == 0,
        r is Err ==> r == Err::<PtrRc<Pass<G>>, CascadeError>(CascadeError::EmptyCascade),
        r matches Ok(h) ==> h.index < final(cache).keys().len() && final(cache).keys()[h.index as int]
            == plan.passes@.last().key,
        all_cached(*final(cache), plan.passes@),
        forall|i: int|
            old(cache).keys().len() <= i < final(cache).keys().len() ==> exists|j: int|
                0 <= j < plan.passes@.len() && (#[trigger] final(cache).values()[i]).spec
                    == plan.passes@[j] && final(cache).keys()[i] == plan.passes@[j].key,
{
    let ghost all = plan.passes@;
    let ghost c_start = *cache;
    if plan.passes.len() == 0 {
        return Err(CascadeError::EmptyCascade);
    }
    let mut rest = plan.passes;
    let mut last: Option<PtrRc<Pass<G>>> = None;
    let ghost done: int = 0;
    while rest.len() > 0
        invariant
            cache.wf(),
            c_start.wf(),
            forall|a: &Accumulate| build.requires((a,)),
            keeps_entries(c_start, *cache),
            0 <= done <= all.len(),
            rest@ == all.subrange(done, all.len() as int),
            done == 0 <==> last is None,
            last matches Some(h) ==> h.index < cache.keys().len() && cache.keys()[h.index as int]
                == all[done - 1].key,
            forall|i: int| 0 <= i < done ==> cache.has(#[trigger] all[i].key),
            forall|i: int|
                c_start.keys().len() <= i < cache.keys().len() ==> exists|j: int|
                    0 <= j < all.len() && (#[trigger] cache.values()[i]).spec == all[j]
                        && cache.keys()[i] == all[j].key,
        decreases rest.len(),
    {
        let p = rest.remove(0);
        let key = p.key;
        let ghost c0 = *cache;
        let ghost pv = p;
        let ctor = |_k: &PassKey| -> (v: Pass<G>)
            requires
                build.requires((&p,)),
            ensures
                v.spec == pv,
        {
            let resources = build(&p);
            Pass { spec: p, resources }
        };
        let h = cache.get_or_build(key, ctor);
        let ghost c1 = *cache;
        proof {
            lemma_built_keeps(c_start, c0, key, h, c1);
            assert forall|i: int|
                c_start.keys().len() <= i < c1.keys().len() implies exists|j: int|
                    0 <= j < all.len() && (#[trigger] c1.values()[i]).spec == all[j]
                        && c1.keys()[i] == all[j].key by {
                if i < c0.keys().len() {
                    assert(c1.values()[i] == c0.values()[i]);
                } else {
                    assert(c1.values()[i] == c1.values().last());
                    assert(c1.values()[i].spec == all[done]);
                }
            }
            assert forall|i: int| 0 <= i < done + 1 implies c1.has(#[trigger] all[i].key) by {
                if i < done {
                    assert(c0.has(all[i].key));
                    let w = choose|w: int| 0 <= w < c0.keys().len() && #[trigger] c0.keys()[w] == all[i].key;
                    assert(c1.keys()[w] == all[i].key);
                }
            }
            done = done + 1;
            assert(rest@ =~= all.subrange(done, all.len() as int));
        }
        last = Some(h);
    }
    assert(done == all.len());
    Ok(last.unwrap())
}

/// The passes to draw for `top`, in drawing order: `top`'s chain of feeders,
/// smallest first, ending with `top`. Each pass is drawn after the one it
/// samples from.
pub fn render_order<G>(cache: &Cache<PassKey, Pass<G>>, top: &PtrRc<Pass<G>>) -> (r: Result<
    Vec<PtrRc<Pass<G>>>,
    CascadeError,
>)
    requires
        cache.wf(),
        top.index < cache.keys().len(),
    ensures
        r is Err ==> r == Err::<Vec<PtrRc<Pass<G>>>, CascadeError>(CascadeError::BrokenChain),
        r matches Ok(hs) ==> feeder_chain(*cache, hs@, *top),
        has_chain(*cache, *top) ==> r is Ok,
{
    let ghost chained = has_chain(*cache, *top);
    let ghost hs = choose|hs: Seq<PtrRc<Pass<G>>>|
        feeder_chain(*cache, hs, *top) && hs.len() <= cache.keys().len();
    let ghost len = hs.len() as int;
    let mut order: Vec<PtrRc<Pass<G>>> = Vec::new();
    order.push(top.clone());
    let mut steps: usize = 0;
    let n = cache.len();
    while steps < n
        invariant
            cache.wf(),
            n == cache.keys().len(),
            linked(*cache, order@, *top),
            order@.len() == steps + 1,
            len == hs.len(),
            chained == has_chain(*cache, *top),
            chained ==> feeder_chain(*cache, hs, *top) && len <= n && order@.len() <= len && forall|i: int|
                0 <= i < order@.len() ==> (#[trigger] order@[i]).index == hs[len - order@.len()
                    + i].index,
        decreases n - steps,
    {
        let cur = order[0].clone();
        match cache.get(&cur).spec.smaller {
            None => {
                return Ok(order);
            },
            Some(k) => match cache.find(&k) {
                None => {
                    proof {
                        if chained {
                            let m = order@.len() as int;
                            assert(order@[0].index == hs[len - m].index);
                            assert(len - m >= 1);
                            let j = len - m - 1;
                            lemma_linked_step(*cache, hs, *top, j);
                            assert(cache.has(cache.keys()[hs[j].index as int]));
                        }
                    }
                    return Err(CascadeError::BrokenChain);
                },
                Some(h) => {
                    let ghost before = order@;
                    proof {
                        if chained {
                            let m = order@.len() as int;
                            assert(order@[0].index == hs[len - m].index);
                            assert(len - m >= 1);
                            let j = len - m - 1;
                            lemma_linked_step(*cache, hs, *top, j);
                            assert(hs[j].index < cache.keys().len());
                            assert(h.index == hs[j].index);
                        }
                    }
                    order.insert(0, h);
                    proof {
                        if chained {
                            assert forall|i: int| 0 <= i < order@.len() implies (#[trigger] order@[
                                i]).index == hs[len - order@.len() + i].index by {
                                if i > 0 {
                                    assert(order@[i] == before[i - 1]);
                                }
                            }
                        }
                    }
                    assert forall|i: int| 0 <= i < order@.len() - 1 implies #[trigger] cache.values()[
                        order@[i + 1].index as int].spec.smaller == Some(
                        cache.keys()[order@[i].index as int],
                    ) by {
                        if i > 0 {
                            let j = i - 1;
                            assert(order@[i] == before[j]);
                            assert(order@[i + 1] == before[j + 1]);
                        }
                    }
                    assert forall|i: int| 0 <= i < order@.len() implies (#[trigger] order@[i]).index
                        < cache.keys().len() by {
                        if i > 0 {
                            assert(order@[i] == before[i - 1]);
                        }
                    }
                },
            },
        }
        steps = steps + 1;
    }
    Err(CascadeError::BrokenChain)
}

proof fn lemma_linked_step<G>(c: Cache<PassKey, Pass<G>>, hs: Seq<PtrRc<Pass<G>>>, top: PtrRc<Pass<G>>, j: int)
    requires
        linked(c, hs, top),
        0 <= j < hs.len() - 1,
    ensures
        c.values()[hs[j + 1].index as int].spec.smaller == Some(c.keys()[hs[j].index as int]),
        hs[j].index < c.keys().len(),
{
}

/// `top` has a whole chain of feeders in `c`, no longer than `c` has entries.
pub open spec fn has_chain<G>(c: Cache<PassKey, Pass<G>>, top: PtrRc<Pass<G>>) -> bool {
    exists|hs: Seq<PtrRc<Pass<G>>>| feeder_chain(c, hs, top) && hs.len() <= c.keys().len()
}

/// `hs` runs from some pass to `top`, each one fed by the one before it.
pub open spec fn linked<G>(c: Cache<PassKey, Pass<G>>, hs: Seq<PtrRc<Pass<G>>>, top: PtrRc<Pass<G>>) -> bool {
    &&& hs.len() >= 1
    &&& hs.last().index == top.index
    &&& forall|i: int| 0 <= i < hs.len() ==> (#[trigger] hs[i]).index < c.keys().len()
    &&& forall|i: int|
        0 <= i < hs.len() - 1 ==> #[trigger] c.values()[hs[i + 1].index as int].spec.smaller == Some(
            c.keys()[hs[i].index as int],
        )
}

/// `hs` is `top`'s whole chain of feeders: linked, starting with a pass that
/// samples from nothing.
pub open spec fn feeder_chain<G>(c: Cache<PassKey, Pass<G>>, hs: Seq<PtrRc<Pass<G>>>, top: PtrRc<Pass<G>>) -> bool {
    &&& linked(c, hs, top)
    &&& c.values()[hs[0].index as int].spec.smaller is None
}

proof fn lemma_built_keeps<K: CacheKey, V>(a: Cache<K, V>, b: Cache<K, V>, key: K, h: PtrRc<V>, c: Cache<K, V>)
    requires
        a.wf(),
        b.wf(),
        keeps_entries(a, b),
        built(b, key, h, c),
    ensures
        keeps_entries(a, c),
        keeps_entries(b, c),
{
    if !b.has(key) {
        assert forall|i: int| 0 <= i < b.keys().len() implies #[trigger] c.values()[i] == b.values()[i] by {
            assert(c.values().drop_last()[i] == c.values()[i]);
        }
        assert forall|i: int| 0 <= i < b.keys().len() implies #[trigger] c.keys()[i] == b.keys()[i] by {
            assert(c.keys() == b.keys().push(key));
        }
    }
    assert forall|i: int| 0 <= i < a.keys().len() implies #[trigger] c.values()[i] == a.values()[i] by {
        assert(b.values()[i] == a.values()[i]);
        assert(c.values()[i] == b.values()[i]);
    }
    assert forall|i: int| 0 <= i < a.keys().len() implies #[trigger] c.keys()[i] == a.keys()[i] by {
        assert(b.keys()[i] == a.keys()[i]);
        assert(c.keys()[i] == b.keys()[i]);
    }
}

} // verus!
