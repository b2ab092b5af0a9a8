use rusty_flame::accumulate::{pipeline_choice, render_order, resolve, CascadeError, Pass, PipelineChoice};
use rusty_flame::bounds::{solve_bounds, MAX_LEVEL};
use rusty_flame::cache::{Cache, PtrRc};
use rusty_flame::flame::Root;
use rusty_flame::geometry::{Affine, ONE};
use rusty_flame::plan::{plan_cascade, Accumulate, PassKey, Plan};
use rusty_flame::util_types::DebugIt;

fn key(width: u32, height: u32) -> PassKey {
    PassKey { width, height, filter: false }
}

fn spec(k: PassKey, smaller: Option<PassKey>) -> Accumulate {
    Accumulate { key: k, levels: 4, smaller, name: "AutoSized".to_string() }
}

#[test]
fn equal_keys_give_the_same_instance() {
    let mut cache: Cache<PassKey, String> = Cache::new();
    let a = cache.get_or_build(key(100, 100), |k: &PassKey| format!("{}x{}", k.width, k.height));
    let b = cache.get_or_build(key(50, 40), |k: &PassKey| format!("{}x{}", k.width, k.height));
    let a2 = cache.get_or_build(key(100, 100), |_k: &PassKey| "rebuilt".to_string());
    assert!(a == a2);
    assert_eq!(cache.get(&a2), "100x100");
    assert_eq!(cache.len(), 2);
    // a key differing only in size gives another instance; the others stay as they were
    let c = cache.get_or_build(key(100, 90), |_k: &PassKey| "other".to_string());
    assert!(c != a && c != b);
    assert_eq!(cache.get(&a), "100x100");
    assert_eq!(cache.get(&b), "50x40");
    assert!(cache.find(&key(50, 40)) == Some(b.clone()));
    assert!(cache.find(&key(1, 1)).is_none());
    cache.clear();
    assert_eq!(cache.len(), 0);
}

#[test]
fn handles_compare_by_identity() {
    let h: PtrRc<u8> = PtrRc::new(3);
    assert!(h.clone() == h);
    assert!(PtrRc::<u8>::new(4) != h);
}

#[test]
fn empty_plan_is_an_error() {
    let mut cache: Cache<PassKey, Pass<u32>> = Cache::new();
    let r = resolve(&mut cache, Plan { passes: vec![] }, |a: &Accumulate| a.key.width);
    assert_eq!(r.err(), Some(CascadeError::EmptyCascade));
    assert_eq!(cache.len(), 0);
}

#[test]
fn resolve_builds_each_pass_once() {
    let root = Root::new(vec![
        Affine { a: ONE / 2, b: 0, c: 0, d: ONE / 2, tx: 0, ty: 0 },
        Affine { a: ONE / 2, b: 0, c: 0, d: ONE / 2, tx: ONE / 2, ty: 0 },
        Affine { a: ONE / 2, b: 0, c: 0, d: ONE / 2, tx: 0, ty: ONE / 2 },
    ]);
    let bounds = solve_bounds(&root, MAX_LEVEL).unwrap();
    let plan = plan_cascade(2000, 1500, &root, &bounds);
    let n = plan.passes.len();
    let mut cache: Cache<PassKey, Pass<DebugIt<u32>>> = Cache::new();
    let top = resolve(&mut cache, plan.clone(), |a: &Accumulate| DebugIt(a.key.width)).unwrap();
    assert_eq!(cache.len(), n);
    assert_eq!(cache.get(&top).spec.key, key(2000, 1500));
    assert_eq!(*cache.get(&top).resources.inner(), 2000);
    // resolving again builds nothing and gives the same instance
    let top2 = resolve(&mut cache, plan.clone(), |_a: &Accumulate| DebugIt(0)).unwrap();
    assert!(top == top2);
    assert_eq!(cache.len(), n);
    // drawing order: smallest first, each fed by the one before, ending at the top
    let order = render_order(&cache, &top).unwrap();
    assert_eq!(order.len(), n);
    assert!(*order.last().unwrap() == top);
    assert!(cache.get(&order[0]).spec.smaller.is_none());
    for w in order.windows(2) {
        assert_eq!(cache.get(&w[1]).spec.smaller, Some(cache.get(&w[0]).spec.key));
    }
    // a resize resolves a new top pass and leaves the old entries in place
    let plan2 = plan_cascade(1000, 1500, &root, &bounds);
    let top3 = resolve(&mut cache, plan2, |a: &Accumulate| DebugIt(a.key.width)).unwrap();
    assert!(top3 != top);
    assert_eq!(cache.get(&top).spec.key, key(2000, 1500));
}

#[test]
fn missing_feeder_breaks_the_chain() {
    let mut cache: Cache<PassKey, Pass<u32>> = Cache::new();
    let plan = Plan { passes: vec![spec(key(64, 64), Some(key(8, 8)))] };
    let top = resolve(&mut cache, plan, |_a: &Accumulate| 0).unwrap();
    assert_eq!(render_order(&cache, &top).err(), Some(CascadeError::BrokenChain));
}

#[test]
fn looping_feeders_break_the_chain() {
    let mut cache: Cache<PassKey, Pass<u32>> = Cache::new();
    let plan = Plan {
        passes: vec![spec(key(32, 32), Some(key(64, 64))), spec(key(64, 64), Some(key(32, 32)))],
    };
    let top = resolve(&mut cache, plan, |_a: &Accumulate| 0).unwrap();
    assert_eq!(render_order(&cache, &top).err(), Some(CascadeError::BrokenChain));
}

#[test]
fn retain_drops_only_rejected_keys() {
    let mut cache: Cache<PassKey, u32> = Cache::new();
    cache.get_or_build(key(100, 100), |_k: &PassKey| 1);
    cache.get_or_build(key(50, 50), |_k: &PassKey| 2);
    cache.get_or_build(key(200, 100), |_k: &PassKey| 3);
    // a resize to a height other than 100 drops the passes drawn at height 100
    cache.retain(|k: &PassKey| k.height != 100);
    assert_eq!(cache.len(), 1);
    let h = cache.find(&key(50, 50)).unwrap();
    assert_eq!(*cache.get(&h), 2);
    assert!(cache.find(&key(100, 100)).is_none());
    assert!(cache.find(&key(200, 100)).is_none());
    cache.retain(|_k: &PassKey| true);
    assert_eq!(cache.len(), 1);
}

#[test]
fn mesh_cache_keyed_by_depth() {
    let mut meshes: Cache<u32, Vec<u32>> = Cache::new();
    let a = meshes.get_or_build(3, |d: &u32| vec![*d; 2]);
    let b = meshes.get_or_build(4, |d: &u32| vec![*d; 3]);
    let a2 = meshes.get_or_build(3, |_d: &u32| vec![]);
    assert!(a == a2 && a != b);
    assert_eq!(meshes.get(&a), &vec![3, 3]);
    assert_eq!(meshes.get(&b).len(), 3);
}

#[test]
fn pipeline_follows_the_feeder() {
    let seed = spec(key(16, 16), None);
    assert_eq!(pipeline_choice(&seed), PipelineChoice { textured: false, nearest_output: false });
    let fed = Accumulate { key: PassKey { width: 64, height: 64, filter: true }, ..spec(key(64, 64), Some(key(16, 16))) };
    assert_eq!(pipeline_choice(&fed), PipelineChoice { textured: true, nearest_output: true });
}
