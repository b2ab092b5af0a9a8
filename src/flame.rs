//! The generator set of an iterated function system and the walk over the
//! maps composed from it.
use vstd::prelude::*;
use vstd::arithmetic::power::pow;
use crate::geometry::{Affine, compose_spec, identity_spec};

verus! {

/// A node of a recursive traversal: a value with an ordered list of children.
pub trait State: Sized {
    /// The values a traversal may start from.
    spec fn valid(&self) -> bool;

    /// The children, in visiting order.
    spec fn children(&self) -> Seq<Self>;

    /// The children of a valid node.
    fn visit_level(&self) -> (r: Vec<Self>)
        requires
            self.valid(),
        ensures
            r@ == self.children(),
            forall|i: int| 0 <= i < r@.len() ==> (#[trigger] r@[i]).valid(),
    ;
}

/// The nodes `level` steps below `s`, depth first, in visiting order.
pub open spec fn states_at<S: State>(s: S, level: nat) -> Seq<S>
    decreases level, 0nat,
{
    if level == 0 {
        seq![s]
    } else {
        states_from(s.children(), (level - 1) as nat)
    }
}

/// The nodes `level` steps below each of `cs`, one after the other.
pub open spec fn states_from<S: State>(cs: Seq<S>, level: nat) -> Seq<S>
    decreases level, cs.len(),
{
    if cs.len() == 0 {
        Seq::empty()
    } else {
        states_at(cs[0], level) + states_from(cs.drop_first(), level)
    }
}

proof fn lemma_states_valid<S: State>(s: S, level: nat)
    requires
        s.valid(),
        forall|t: S| #[trigger] t.valid() ==> forall|i: int|
            0 <= i < t.children().len() ==> (#[trigger] t.children()[i]).valid(),
    ensures
        forall|i: int| 0 <= i < states_at(s, level).len() ==> (#[trigger] states_at(s, level)[i]).valid(),
    decreases level, 0nat,
{
    if level > 0 {
        assert(forall|i: int| 0 <= i < s.children().len() ==> (#[trigger] s.children()[i]).valid());
        lemma_states_from_valid(s.children(), (level - 1) as nat);
        assert(states_at(s, level) == states_from(s.children(), (level - 1) as nat));
    } else {
        assert(states_at(s, level) =~= seq![s]);
    }
}

proof fn lemma_states_from_valid<S: State>(cs: Seq<S>, level: nat)
    requires
        forall|i: int| 0 <= i < cs.len() ==> (#[trigger] cs[i]).valid(),
        forall|t: S| #[trigger] t.valid() ==> forall|i: int|
            0 <= i < t.children().len() ==> (#[trigger] t.children()[i]).valid(),
    ensures
        forall|i: int| 0 <= i < states_from(cs, level).len() ==> (#[trigger] states_from(cs, level)[i]).valid(),
    decreases level, cs.len(),
{
    if cs.len() > 0 {
        lemma_states_valid(cs[0], level);
        lemma_states_from_valid(cs.drop_first(), level);
        let a = states_at(cs[0], level);
        let b = states_from(cs.drop_first(), level);
        assert forall|i: int| 0 <= i < (a + b).len() implies (#[trigger] (a + b)[i]).valid() by {
            if i >= a.len() {
                assert((a + b)[i] == b[i - a.len()]);
            }
        }
    }
}

/// Appends to `out` every node `level` steps below `s`, depth first.
pub fn process_levels<S: State>(s: S, level: u32, out: &mut Vec<S>)
    requires
        s.valid(),
    ensures
        final(out)@ == old(out)@ + states_at(s, level as nat),
    decreases level,
{
    if level == 0 {
        out.push(s);
        assert(final(out)@ =~= old(out)@ + states_at(s, level as nat));
    } else {
        let mut rest = s.visit_level();
        let ghost all = rest@;
        let ghost start = out@;
        while rest.len() > 0
            invariant
                level > 0,
                start + states_from(all, (level - 1) as nat) == out@ + states_from(
                    rest@,
                    (level - 1) as nat,
                ),
                forall|i: int| 0 <= i < rest@.len() ==> (#[trigger] rest@[i]).valid(),
            decreases rest.len(),
        {
            let ghost before = out@;
            let ghost r0 = rest@;
            let c = rest.remove(0);
            assert(r0.drop_first() =~= rest@);
            assert(r0[0] == c);
            assert(rest@.len() == r0.len() - 1);
            assert forall|i: int| 0 <= i < rest@.len() implies (#[trigger] rest@[i]).valid() by {
                assert(rest@[i] == r0[i + 1]);
            }
            process_levels(c, level - 1, out);
            assert(before + states_from(r0, (level - 1) as nat) =~= out@ + states_from(
                rest@,
                (level - 1) as nat,
            ));
        }
        assert(states_from(rest@, (level - 1) as nat) =~= Seq::<S>::empty());
        assert(out@ =~= start + states_from(all, (level - 1) as nat));
    }
}

/// The map composed so far along a path of generators, with the generators.
#[derive(Clone, Copy, Debug)]
pub struct AffineState<'a> {
    pub mat: Affine,
    pub mats: &'a [Affine],
}

impl<'a> AffineState<'a> {
    pub open spec fn generators(&self) -> Seq<Affine> {
        self.mats@
    }

    pub fn new(mat_root: Affine, transforms: &'a [Affine]) -> (r: AffineState<'a>)
        ensures
            r.mat == mat_root,
            r.generators() == transforms@,
    {
        AffineState { mat: mat_root, mats: transforms }
    }
}

/// A walk of `level` steps visits `n ^ level` composed maps, `n` being the
/// number of generators.
pub proof fn lemma_walk_count(s: AffineState<'_>, level: nat)
    ensures
        states_at(s, level).len() == pow(s.mats@.len() as int, level),
    decreases level, 0nat,
{
    reveal(pow);
    if level > 0 {
        lemma_walk_count_from(s.children(), (level - 1) as nat, s.mats@);
        assert(states_at(s, level) == states_from(s.children(), (level - 1) as nat));
    }
}

proof fn lemma_walk_count_from(cs: Seq<AffineState<'_>>, level: nat, mats: Seq<Affine>)
    requires
        forall|i: int| 0 <= i < cs.len() ==> (#[trigger] cs[i]).mats@ == mats,
    ensures
        states_from(cs, level).len() == cs.len() * pow(mats.len() as int, level),
    decreases level, cs.len(),
{
    if cs.len() > 0 {
        lemma_walk_count(cs[0], level);
        let rest = cs.drop_first();
        assert forall|i: int| 0 <= i < rest.len() implies (#[trigger] rest[i]).mats@ == mats by {
            assert(rest[i] == cs[i + 1]);
        }
        lemma_walk_count_from(rest, level, mats);
        let p = pow(mats.len() as int, level);
        assert(p + (cs.len() - 1) * p == cs.len() * p) by (nonlinear_arith);
    }
}

/// The maps composed along every path of `level` generators applied after
/// `m`, depth first in generator order.
pub open spec fn composed_at(gens: Seq<Affine>, m: Affine, level: nat) -> Seq<Affine>
    decreases level, 0nat,
{
    if level == 0 {
        seq![m]
    } else {
        composed_from(gens, gens, m, (level - 1) as nat)
    }
}

/// For each generator `g` of `rest` in turn, the maps of `composed_at` below `g` after `m`.
pub open spec fn composed_from(gens: Seq<Affine>, rest: Seq<Affine>, m: Affine, level: nat) -> Seq<
    Affine,
>
    decreases level, rest.len(),
{
    if rest.len() == 0 {
        Seq::empty()
    } else {
        composed_at(gens, compose_spec(rest[0], m), level) + composed_from(
            gens,
            rest.drop_first(),
            m,
            level,
        )
    }
}

pub open spec fn mats_of(ss: Seq<AffineState<'_>>) -> Seq<Affine> {
    ss.map_values(|st: AffineState<'_>| st.mat)
}

proof fn lemma_states_maps(s: AffineState<'_>, level: nat)
    ensures
        mats_of(states_at(s, level)) == composed_at(s.mats@, s.mat, level),
    decreases level, 0nat,
{
    if level == 0 {
        assert(mats_of(states_at(s, level)) =~= composed_at(s.mats@, s.mat, level));
    } else {
        assert(states_at(s, level) == states_from(s.children(), (level - 1) as nat));
        lemma_states_from_maps(s.children(), (level - 1) as nat, s.mats@, s.mats@, s.mat);
    }
}

proof fn lemma_states_from_maps(
    cs: Seq<AffineState<'_>>,
    level: nat,
    gens: Seq<Affine>,
    rest: Seq<Affine>,
    m: Affine,
)
    requires
        cs.len() == rest.len(),
        forall|i: int|
            0 <= i < cs.len() ==> (#[trigger] cs[i]).mats@ == gens && cs[i].mat == compose_spec(
                rest[i],
                m,
            ),
    ensures
        mats_of(states_from(cs, level)) == composed_from(gens, rest, m, level),
    decreases level, cs.len(),
{
    if cs.len() == 0 {
        assert(mats_of(states_from(cs, level)) =~= composed_from(gens, rest, m, level));
    } else {
        lemma_states_maps(cs[0], level);
        let tail = cs.drop_first();
        assert forall|i: int| 0 <= i < tail.len() implies (#[trigger] tail[i]).mats@ == gens
            && tail[i].mat == compose_spec(rest.drop_first()[i], m) by {
            assert(tail[i] == cs[i + 1]);
        }
        lemma_states_from_maps(tail, level, gens, rest.drop_first(), m);
        let a = states_at(cs[0], level);
        let b = states_from(tail, level);
        assert(mats_of(a + b) =~= mats_of(a) + mats_of(b));
    }
}

/// Every map composed along a path of `level` generators after the map of
/// `s`, depth first in generator order.
pub fn composed_maps(s: AffineState<'_>, level: u32) -> (r: Vec<Affine>)
    requires
        s.valid(),
    ensures
        r@ == composed_at(s.mats@, s.mat, level as nat),
        r@.len() == pow(s.mats@.len() as int, level as nat),
        all_wf(r@),
{
    let mut states: Vec<AffineState<'_>> = Vec::new();
    process_levels(s, level, &mut states);
    assert(states@ =~= states_at(s, level as nat));
    proof {
        lemma_states_maps(s, level as nat);
        lemma_states_valid(s, level as nat);
        lemma_walk_count(s, level as nat);
    }
    let mut r: Vec<Affine> = Vec::new();
    let mut i: usize = 0;
    while i < states.len()
        invariant
            i <= states@.len(),
            states@ == states_at(s, level as nat),
            forall|j: int| 0 <= j < states@.len() ==> (#[trigger] states@[j]).valid(),
            r@ =~= mats_of(states@).take(i as int),
        decreases states@.len() - i,
    {
        r.push(states[i].mat);
        i = i + 1;
    }
    assert(r@ =~= mats_of(states@));
    assert forall|j: int| 0 <= j < r@.len() implies (#[trigger] r@[j]).wf() by {
        assert(r@[j] == states@[j].mat);
    }
    r
}

/// All maps of `ts` have coefficients in range.
pub open spec fn all_wf(ts: Seq<Affine>) -> bool {
    forall|i: int| 0 <= i < ts.len() ==> (#[trigger] ts[i]).wf()
}

impl<'a> State for AffineState<'a> {
    open spec fn valid(&self) -> bool {
        self.mat.wf() && all_wf(self.mats@)
    }

    /// Each generator applied after the map so far, in generator order.
    open spec fn children(&self) -> Seq<Self> {
        Seq::new(
            self.mats@.len(),
            |i: int| AffineState { mat: compose_spec(self.mats@[i], self.mat), mats: self.mats },
        )
    }

    fn visit_level(&self) -> (r: Vec<Self>) {
        let mut r: Vec<Self> = Vec::new();
        let mut i: usize = 0;
        while i < self.mats.len()
            invariant
                self.valid(),
                i <= self.mats@.len(),
                r@ =~= self.children().take(i as int),
                forall|j: int| 0 <= j < r@.len() ==> (#[trigger] r@[j]).valid(),
            decreases self.mats@.len() - i,
        {
            let t = self.mats[i].compose(&self.mat);
            r.push(AffineState { mat: t, mats: self.mats });
            i = i + 1;
        }
        assert(r@ =~= self.children());
        r
    }
}

/// A generator set: the affine maps of an iterated function system.
#[derive(Debug, PartialEq, Eq, Clone)]
pub struct Root {
    storage: Vec<Affine>,
}

impl Root {
    pub closed spec fn generators(&self) -> Seq<Affine> {
        self.storage@
    }

    pub open spec fn wf(&self) -> bool {
        all_wf(self.generators())
    }

    pub fn new(storage: Vec<Affine>) -> (r: Root)
        ensures
            r.generators() == storage@,
    {
        Root { storage }
    }

    /// The generators.
    pub fn generators_ref(&self) -> (r: &Vec<Affine>)
        ensures
            r@ == self.generators(),
    {
        &self.storage
    }

    /// The number of generators.
    pub fn len(&self) -> (r: usize)
        ensures
            r == self.generators().len(),
    {
        self.storage.len()
    }

    /// Whether every generator has its coefficients in range.
    pub fn is_wf(&self) -> (r: bool)
        ensures
            r == self.wf(),
    {
        let mut i: usize = 0;
        while i < self.storage.len()
            invariant
                i <= self.storage@.len(),
                forall|j: int| 0 <= j < i ==> (#[trigger] self.storage@[j]).wf(),
            decreases self.storage@.len() - i,
        {
            if !self.storage[i].is_wf() {
                return false;
            }
            i = i + 1;
        }
        true
    }

    /// The walk's starting node: the identity, over this set's generators.
    pub fn get_state(&self) -> (r: AffineState<'_>)
        ensures
            r.mat == identity_spec(),
            r.generators() == self.generators(),
    {
        AffineState::new(Affine::identity(), self.storage.as_slice())
    }
}

} // verus!
