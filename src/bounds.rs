//! A conservative bounding rectangle for the attractor of a generator set,
//! found by fixed-point iteration over ever deeper compositions.
use vstd::prelude::*;
use crate::flame::{AffineState, Root, State, all_wf, composed_at, composed_maps};
use vstd::arithmetic::power::{pow, lemma_pow_positive};
use crate::geometry::{
    Affine, Point, Rect, lemma_identity_image, contains_spec, grow_spec, identity_spec, infinite_spec, transform_rect_spec,
    union_spec,
};

verus! {

/// The depth the solver works up to.
pub const MAX_LEVEL: u32 = 5;

/// Rounds after which an intermediate level takes what it has.
pub const EARLY_EXIT_ROUNDS: u32 = 10;

/// Rounds after which the final level gives up.
pub const MAX_ROUNDS: u32 = 100000;

/// Margin, in millionths, by which a candidate may fall short of the old one.
pub const ACCEPT_PPM: i64 = 1000;

/// Margin, in millionths, added to a candidate that is not accepted.
pub const EXPAND_PPM: i64 = 100;

/// Why no bound could be given.
#[derive(Clone, Copy, Debug, PartialEq, Eq, Structural)]
pub enum BoundsError {
    /// The bound accepted at the final level is infinite.
    Divergent,
    /// The final level did not settle within `MAX_ROUNDS` rounds.
    NotConverged,
}

/// The union of the images of `r` under every map of `maps`, left to right.
pub open spec fn image_of(maps: Seq<Affine>, r: Rect) -> Rect
    decreases maps.len(),
{
    if maps.len() <= 1 {
        transform_rect_spec(maps[0], r)
    } else {
        union_spec(image_of(maps.drop_last(), r), transform_rect_spec(maps.last(), r))
    }
}

proof fn lemma_image_contains(maps: Seq<Affine>, r: Rect, i: int)
    requires
        0 <= i < maps.len(),
    ensures
        contains_spec(image_of(maps, r), transform_rect_spec(maps[i], r)),
    decreases maps.len(),
{
    if maps.len() > 1 && i < maps.len() - 1 {
        lemma_image_contains(maps.drop_last(), r, i);
        assert(maps.drop_last()[i] == maps[i]);
    }
}

/// The union of the images of `input` under every map of `maps`.
pub fn level_image(maps: &Vec<Affine>, input: &Rect) -> (r: Rect)
    requires
        maps@.len() > 0,
        all_wf(maps@),
        input.wf(),
    ensures
        r == image_of(maps@, *input),
        r.wf(),
        forall|i: int|
            0 <= i < maps@.len() ==> contains_spec(r, #[trigger] transform_rect_spec(maps@[i], *input)),
{
    let mut r = maps[0].transform_bounds(input);
    assert(maps@.take(1).drop_last() =~= Seq::<Affine>::empty());
    let mut i: usize = 1;
    while i < maps.len()
        invariant
            1 <= i <= maps@.len(),
            all_wf(maps@),
            input.wf(),
            r.wf(),
            r == image_of(maps@.take(i as int), *input),
        decreases maps@.len() - i,
    {
        let t = maps[i].transform_bounds(input);
        assert(maps@.take(i + 1).drop_last() =~= maps@.take(i as int));
        r = Rect::union(&r, &t);
        i = i + 1;
    }
    assert(maps@.take(i as int) =~= maps@);
    proof {
        assert forall|i: int| 0 <= i < maps@.len() implies contains_spec(
            r,
            #[trigger] transform_rect_spec(maps@[i], *input),
        ) by {
            lemma_image_contains(maps@, *input, i);
        }
    }
    r
}

/// The stopping test: `after` lies within `before`, and `before` within
/// `after` grown by `ACCEPT_PPM`.
pub open spec fn settled_spec(before: Rect, after: Rect) -> bool {
    contains_spec(before, after) && contains_spec(grow_spec(after, ACCEPT_PPM as int), before)
}

pub fn settled(before: &Rect, after: &Rect) -> (r: bool)
    requires
        before.wf(),
        after.wf(),
    ensures
        r == settled_spec(*before, *after),
{
    before.contains(after) && after.grow(ACCEPT_PPM).contains(before)
}

/// `r` holds its own image under every map composed along a path of `level`
/// generators of `gens` after `m`.
pub open spec fn self_contained(gens: Seq<Affine>, m: Affine, level: nat, r: Rect) -> bool {
    let maps = composed_at(gens, m, level);
    forall|i: int| 0 <= i < maps.len() ==> contains_spec(r, #[trigger] transform_rect_spec(maps[i], r))
}

/// One level of the iteration from candidate `b` after `count` rounds: each
/// round takes the image `after` of the candidate; past `EARLY_EXIT_ROUNDS`
/// rounds a level that is not the last takes `after` as it is; a settled
/// candidate is kept; otherwise `after`, grown by `EXPAND_PPM`, is the next
/// candidate. `None` when `MAX_ROUNDS` rounds pass without a stop.
pub open spec fn settle(maps: Seq<Affine>, b: Rect, count: nat, last_level: bool) -> Option<Rect>
    decreases MAX_ROUNDS - count,
{
    if count >= MAX_ROUNDS {
        None
    } else {
        let after = image_of(maps, b);
        if count + 1 > EARLY_EXIT_ROUNDS && !last_level {
            Some(after)
        } else if settled_spec(b, after) {
            Some(b)
        } else {
            settle(maps, grow_spec(after, EXPAND_PPM as int), count + 1, last_level)
        }
    }
}

pub open spec fn origin_rect() -> Rect {
    Rect { min: Point { x: 0, y: 0 }, max: Point { x: 0, y: 0 } }
}

/// The solver's outcome over the levels `level..=levels`, entering `level`
/// with candidate `b` (reset to the origin if it is infinite), for the maps
/// composed from `gens` after `m`.
pub open spec fn bounds_from(gens: Seq<Affine>, m: Affine, b: Rect, level: nat, levels: nat) -> Result<
    Rect,
    BoundsError,
>
    decreases levels - level,
{
    let start = if infinite_spec(b) {
        origin_rect()
    } else {
        b
    };
    match settle(composed_at(gens, m, level), start, 0, level >= levels) {
        None => Err(BoundsError::NotConverged),
        Some(b2) => if level >= levels {
            if infinite_spec(b2) {
                Err(BoundsError::Divergent)
            } else {
                Ok(b2)
            }
        } else {
            bounds_from(gens, m, b2, level + 1, levels)
        },
    }
}

impl<'a> AffineState<'a> {
    /// A finite rectangle that holds its own image under every map composed
    /// along a path of `levels` generators, found by fixed-point iteration
    /// at each depth from 0 to `levels`.
    pub fn get_bounds(&self, levels: u32) -> (r: Result<Rect, BoundsError>)
        requires
            self.valid(),
            self.mats@.len() > 0 || levels == 0,
        ensures
            r == bounds_from(self.mats@, self.mat, origin_rect(), 0, levels as nat),
            r matches Ok(b) ==> b.wf() && !infinite_spec(b) && self_contained(
                self.mats@,
                self.mat,
                levels as nat,
                b,
            ),
    {
        let mut b = Rect::origin();
        let mut level: u32 = 0;
        loop
            invariant
                level <= levels,
                b.wf(),
                self.valid(),
                self.mats@.len() > 0 || levels == 0,
                bounds_from(self.mats@, self.mat, origin_rect(), 0, levels as nat) == bounds_from(
                    self.mats@,
                    self.mat,
                    b,
                    level as nat,
                    levels as nat,
                ),
            decreases levels - level,
        {
            let ghost entry = b;
            if b.is_infinite() {
                b = Rect::origin();
            }
            let ghost start = b;
            let maps = composed_maps(*self, level);
            proof {
                if self.mats@.len() > 0 {
                    lemma_pow_positive(self.mats@.len() as int, level as nat);
                } else {
                    reveal(pow);
                    assert(pow(self.mats@.len() as int, level as nat) == 1);
                }
            }
            let mut count: u32 = 0;
            let mut done = false;
            while !done && count < MAX_ROUNDS
                invariant
                    b.wf(),
                    maps@.len() > 0,
                    all_wf(maps@),
                    count <= MAX_ROUNDS,
                    maps@ == composed_at(self.mats@, self.mat, level as nat),
                    !done ==> settle(maps@, start, 0, level == levels) == settle(
                        maps@,
                        b,
                        count as nat,
                        level == levels,
                    ),
                    done ==> settle(maps@, start, 0, level == levels) == Some(b),
                    done && level == levels ==> forall|i: int|
                        0 <= i < maps@.len() ==> contains_spec(
                            b,
                            #[trigger] transform_rect_spec(maps@[i], b),
                        ),
                decreases MAX_ROUNDS - count, (if done { 0int } else { 1int }),
            {
                let after = level_image(&maps, &b);
                count = count + 1;
                if count > EARLY_EXIT_ROUNDS && level != levels {
                    b = after;
                    done = true;
                } else if settled(&b, &after) {
                    done = true;
                } else {
                    b = after.grow(EXPAND_PPM);
                }
            }
            assert(bounds_from(self.mats@, self.mat, entry, level as nat, levels as nat) == (match settle(
                maps@,
                start,
                0,
                level >= levels,
            ) {
                None => Err(BoundsError::NotConverged),
                Some(b2) => if level >= levels {
                    if infinite_spec(b2) {
                        Err(BoundsError::Divergent)
                    } else {
                        Ok(b2)
                    }
                } else {
                    bounds_from(self.mats@, self.mat, b2, level as nat + 1, levels as nat)
                },
            }));
            if !done {
                return Err(BoundsError::NotConverged);
            }
            if level == levels {
                if b.is_infinite() {
                    return Err(BoundsError::Divergent);
                }
                return Ok(b);
            }
            level = level + 1;
        }
    }
}

/// The bound of `root`'s attractor: `get_bounds` from the identity.
pub fn solve_bounds(root: &Root, levels: u32) -> (r: Result<Rect, BoundsError>)
    requires
        root.wf(),
        root.generators().len() > 0 || levels == 0,
    ensures
        r == bounds_from(root.generators(), identity_spec(), origin_rect(), 0, levels as nat),
        r matches Ok(b) ==> b.wf() && !infinite_spec(b) && self_contained(
            root.generators(),
            identity_spec(),
            levels as nat,
            b,
        ) && self_contained(root.generators(), identity_spec(), 0, b),
{
    let r = root.get_state().get_bounds(levels);
    proof {
        if let Ok(b) = r {
            lemma_identity_image(b);
            assert(composed_at(root.generators(), identity_spec(), 0) =~= seq![identity_spec()]);
        }
    }
    r
}

} // verus!
