//! The path model: an anchor point plus an ordered list of nonzero
//! axis-aligned steps whose consecutive entries alternate axis.
//!
//! Specifications describe a path through three spec functions: `ssum`
//! (the vector sum of a step prefix), `posn` (the cursor position after a
//! prefix of steps) and `on_path` (the set of lattice points traced by the
//! steps).  Wall avoidance is `trace_clear`: every traced point that
//! lies on a wall segment is the navigation end point
//! (`trace_clear_or_origin` additionally allows the origin, the wall's
//! own first corner, for the paths that walk straight out of it).

use vstd::prelude::*;

use crate::geometry::{Vec2, Segment, seg_has, segs_meet, step_ok, same_axis, vmag};

verus! {

use vstd::math::{min, max, abs};

/// Every coordinate handled by the navigator stays below this bound; the
/// wall builder enforces it so that all later arithmetic fits in `i64`.
pub const COORD_LIMIT: i64 = 0x100_0000_0000;

/// Bound on the total length of any path the navigator produces.
pub const TOTAL_LIMIT: i64 = 0x1000_0000_0000_0000;

/// A position as a pair of mathematical integers.
pub open spec fn pt(v: Vec2) -> (int, int) {
    (v.0 as int, v.1 as int)
}

/// Component-wise sum of integer pairs.
pub open spec fn add2(a: (int, int), b: (int, int)) -> (int, int) {
    (a.0 + b.0, a.1 + b.1)
}

/// The vector sum of a sequence of steps.
pub open spec fn ssum(s: Seq<Vec2>) -> (int, int)
    decreases s.len(),
{
    if s.len() == 0 {
        (0, 0)
    } else {
        add2(ssum(s.drop_last()), pt(s.last()))
    }
}

/// The total Manhattan length of a sequence of steps.
pub open spec fn mags(s: Seq<Vec2>) -> int
    decreases s.len(),
{
    if s.len() == 0 {
        0
    } else {
        mags(s.drop_last()) + vmag(s.last())
    }
}

/// The cursor position after the first `i` steps, starting from `anchor`.
pub open spec fn posn(anchor: Vec2, s: Seq<Vec2>, i: int) -> (int, int) {
    add2(pt(anchor), ssum(s.take(i)))
}

/// The lattice points of the axis-aligned box spanned by two corners.
/// For an axis-aligned step this box is exactly the traced segment.
pub open spec fn in_box(a: (int, int), b: (int, int), px: int, py: int) -> bool {
    min(a.0, b.0) <= px <= max(a.0, b.0) && min(a.1, b.1) <= py <= max(a.1, b.1)
}

/// The point lies on one of the boxes traced by the path's steps.
pub open spec fn on_path(anchor: Vec2, steps: Seq<Vec2>, px: int, py: int) -> bool {
    exists|j: int|
        0 <= j < steps.len() && #[trigger] in_box(
            posn(anchor, steps, j),
            posn(anchor, steps, j + 1),
            px,
            py,
        )
}

/// The point lies on one of the wall segments.
pub open spec fn on_wall(walls: Seq<Segment>, px: int, py: int) -> bool {
    exists|k: int| 0 <= k < walls.len() && seg_has(walls[k], px, py)
}

/// Every point shared by the box `[a, b]` and the wall segment `w`
/// equals `endp`.
pub open spec fn wall_clear(w: Segment, a: (int, int), b: (int, int), endp: (int, int)) -> bool {
    forall|px: int, py: int|
        in_box(a, b, px, py) && #[trigger] seg_has(w, px, py) ==> px == endp.0 && py == endp.1
}

/// The box `[a, b]` touches the walls at most in the point `endp`.
pub open spec fn step_clear(
    walls: Seq<Segment>,
    a: (int, int),
    b: (int, int),
    endp: (int, int),
) -> bool {
    forall|k: int| 0 <= k < walls.len() ==> wall_clear(#[trigger] walls[k], a, b, endp)
}

/// The box `[a, b]` touches no wall segment at all.
pub open spec fn step_no_touch(walls: Seq<Segment>, a: (int, int), b: (int, int)) -> bool {
    forall|k: int|
        0 <= k < walls.len() ==> !segs_meet(
            Segment { start: Vec2(a.0 as i64, a.1 as i64), end: Vec2(b.0 as i64, b.1 as i64) },
            #[trigger] walls[k],
        )
}

/// Steps are nonzero, axis-aligned, and alternate axis.
pub open spec fn steps_wf(steps: Seq<Vec2>) -> bool {
    &&& forall|j: int| 0 <= j < steps.len() ==> step_ok(#[trigger] steps[j])
    &&& forall|j: int|
        0 <= j < steps.len() - 1 ==> !same_axis(#[trigger] steps[j], steps[j + 1])
}

/// No traced point of the path lies on a wall, except possibly `end`:
/// the wall avoidance the hug-anchored walks guarantee.
pub open spec fn trace_clear(
    walls: Seq<Segment>,
    anchor: Vec2,
    steps: Seq<Vec2>,
    end: Vec2,
) -> bool {
    forall|px: int, py: int|
        #[trigger] on_path(anchor, steps, px, py) && on_wall(walls, px, py) ==> px == end.0
            && py == end.1
}

/// No traced point of the path lies on a wall, except possibly `end` and
/// the origin.  Every wall starts at the origin, which is also the true
/// start cell, so the direct-run answers that walk out of the origin
/// stand on it without crossing anything.
pub open spec fn trace_clear_or_origin(
    walls: Seq<Segment>,
    anchor: Vec2,
    steps: Seq<Vec2>,
    end: Vec2,
) -> bool {
    forall|px: int, py: int|
        #[trigger] on_path(anchor, steps, px, py) && on_wall(walls, px, py) ==> (px == end.0
            && py == end.1) || (px == 0 && py == 0)
}

/// The step list after appending one step, as `add_step`/`push_merge`
/// compute it: a zero step changes nothing, a step along the last step's
/// axis merges into it (the pair is removed when they cancel), anything
/// else is appended.
pub open spec fn push_step(steps: Seq<Vec2>, s: Vec2) -> Seq<Vec2> {
    if s.0 == 0 && s.1 == 0 {
        steps
    } else if steps.len() > 0 && same_axis(steps.last(), s) {
        if steps.last().0 + s.0 == 0 && steps.last().1 + s.1 == 0 {
            steps.drop_last()
        } else {
            steps.drop_last().push(
                Vec2((steps.last().0 + s.0) as i64, (steps.last().1 + s.1) as i64),
            )
        }
    } else {
        steps.push(s)
    }
}

/// Splitting a step sequence splits its sum and its length.
pub proof fn lemma_ssum_concat(x: Seq<Vec2>, y: Seq<Vec2>)
    ensures
        ssum(x + y) == add2(ssum(x), ssum(y)),
        mags(x + y) == mags(x) + mags(y),
    decreases y.len(),
{
    if y.len() == 0 {
        assert(x + y =~= x);
    } else {
        lemma_ssum_concat(x, y.drop_last());
        assert((x + y).drop_last() =~= x + y.drop_last());
        assert((x + y).last() == y.last());
    }
}

/// Step lengths are nonnegative, so `mags` is as well.
pub proof fn lemma_mags_nonneg(s: Seq<Vec2>)
    ensures
        mags(s) >= 0,
    decreases s.len(),
{
    if s.len() > 0 {
        lemma_mags_nonneg(s.drop_last());
    }
}

/// Unfolds sum and length of a prefix by one step.
pub proof fn lemma_take_succ(s: Seq<Vec2>, i: int)
    requires
        0 <= i < s.len(),
    ensures
        ssum(s.take(i + 1)) == add2(ssum(s.take(i)), pt(s[i])),
        mags(s.take(i + 1)) == mags(s.take(i)) + vmag(s[i]),
{
    assert(s.take(i + 1).drop_last() =~= s.take(i));
    assert(s.take(i + 1).last() == s[i]);
}

/// A prefix is never longer than the whole sequence.
pub proof fn lemma_mags_take_le(s: Seq<Vec2>, i: int)
    requires
        0 <= i <= s.len(),
    ensures
        mags(s.take(i)) <= mags(s),
{
    assert(s =~= s.take(i) + s.skip(i));
    lemma_ssum_concat(s.take(i), s.skip(i));
    lemma_mags_nonneg(s.skip(i));
}

/// The sum of a step sequence is bounded by its total length.
pub proof fn lemma_ssum_mag(s: Seq<Vec2>)
    ensures
        abs(ssum(s).0) + abs(ssum(s).1) <= mags(s),
    decreases s.len(),
{
    if s.len() > 0 {
        lemma_ssum_mag(s.drop_last());
    }
}

/// Every cursor position stays within the path's total length of the anchor.
pub proof fn lemma_pos_bound(anchor: Vec2, s: Seq<Vec2>, j: int)
    requires
        0 <= j <= s.len(),
    ensures
        abs(posn(anchor, s, j).0 - anchor.0) + abs(posn(anchor, s, j).1 - anchor.1) <= mags(s),
{
    lemma_ssum_mag(s.take(j));
    lemma_mags_take_le(s, j);
}

/// A point of a merged box lies on one of the two merged parts, provided
/// the two steps share an axis (either may be zero).
pub proof fn lemma_merge_box(p: (int, int), a: Vec2, b: Vec2, px: int, py: int)
    requires
        a.1 == 0 && b.1 == 0 || a.0 == 0 && b.0 == 0,
        in_box(p, add2(p, add2(pt(a), pt(b))), px, py),
    ensures
        in_box(p, add2(p, pt(a)), px, py) || in_box(add2(p, pt(a)), add2(p, add2(pt(a), pt(b))), px, py),
{
}

/// Decides `wall_clear` for one wall segment: the boxes' overlap is
/// computed outright and must be empty or the single point `end`.
fn one_wall_clear(w: &Segment, a: Vec2, b: Vec2, end: Vec2) -> (r: bool)
    ensures
        r == wall_clear(*w, pt(a), pt(b), pt(end)),
{
    let ax0 = crate::geometry::imin(a.0, b.0);
    let ax1 = crate::geometry::imax(a.0, b.0);
    let ay0 = crate::geometry::imin(a.1, b.1);
    let ay1 = crate::geometry::imax(a.1, b.1);
    let wx0 = crate::geometry::imin(w.start.0, w.end.0);
    let wx1 = crate::geometry::imax(w.start.0, w.end.0);
    let wy0 = crate::geometry::imin(w.start.1, w.end.1);
    let wy1 = crate::geometry::imax(w.start.1, w.end.1);
    let lox = crate::geometry::imax(ax0, wx0);
    let hix = crate::geometry::imin(ax1, wx1);
    let loy = crate::geometry::imax(ay0, wy0);
    let hiy = crate::geometry::imin(ay1, wy1);
    if lox > hix || loy > hiy {
        proof {
            assert forall|px: int, py: int|
                in_box(pt(a), pt(b), px, py) && #[trigger] seg_has(*w, px, py) implies px == pt(
                end,
            ).0 && py == pt(end).1 by {
                assert(false);
            }
        }
        true
    } else if lox == hix && loy == hiy && lox == end.0 && loy == end.1 {
        true
    } else {
        proof {
            if lox == hix && loy == hiy {
                assert(in_box(pt(a), pt(b), lox as int, loy as int));
                assert(seg_has(*w, lox as int, loy as int));
            } else {
                assert(in_box(pt(a), pt(b), lox as int, loy as int));
                assert(seg_has(*w, lox as int, loy as int));
                assert(in_box(pt(a), pt(b), hix as int, hiy as int));
                assert(seg_has(*w, hix as int, hiy as int));
            }
        }
        false
    }
}

/// Decides whether the box `[a, b]` touches the walls at most in `end`:
/// the executable counterpart of `step_clear`.
pub fn box_clear_except(walls: &Vec<Segment>, a: Vec2, b: Vec2, end: Vec2) -> (r: bool)
    ensures
        r == step_clear(walls@, pt(a), pt(b), pt(end)),
{
    let mut i: usize = 0;
    while i < walls.len()
        invariant
            0 <= i <= walls@.len(),
            forall|k: int| 0 <= k < i ==> wall_clear(#[trigger] walls@[k], pt(a), pt(b), pt(end)),
        decreases walls@.len() - i,
    {
        if !one_wall_clear(&walls[i], a, b, end) {
            return false;
        }
        i += 1;
    }
    true
}

/// A segment that meets no wall is in particular clear of the walls with
/// any exception point.
pub proof fn lemma_no_touch_clear(
    walls: Seq<Segment>,
    a: (int, int),
    b: (int, int),
    endp: (int, int),
)
    requires
        step_no_touch(walls, a, b),
        -0x7fff_ffff_ffff_ffff <= a.0 <= 0x7fff_ffff_ffff_ffff,
        -0x7fff_ffff_ffff_ffff <= a.1 <= 0x7fff_ffff_ffff_ffff,
        -0x7fff_ffff_ffff_ffff <= b.0 <= 0x7fff_ffff_ffff_ffff,
        -0x7fff_ffff_ffff_ffff <= b.1 <= 0x7fff_ffff_ffff_ffff,
    ensures
        step_clear(walls, a, b, endp),
{
    let sab = Segment { start: Vec2(a.0 as i64, a.1 as i64), end: Vec2(b.0 as i64, b.1 as i64) };
    assert forall|k: int| 0 <= k < walls.len() implies wall_clear(
        #[trigger] walls[k],
        a,
        b,
        endp,
    ) by {
        assert(!segs_meet(sab, walls[k]));
        assert forall|px: int, py: int|
            in_box(a, b, px, py) && #[trigger] seg_has(walls[k], px, py) implies px == endp.0 && py
            == endp.1 by {
            assert(seg_has(sab, px, py));
            crate::geometry::lemma_segs_meet_iff(sab, walls[k]);
        }
    }
}

/// One step is never longer than the whole sequence.
pub proof fn lemma_step_le(s: Seq<Vec2>, j: int)
    requires
        0 <= j < s.len(),
    ensures
        0 <= vmag(s[j]) <= mags(s),
{
    lemma_take_succ(s, j);
    lemma_mags_take_le(s, j + 1);
    lemma_mags_nonneg(s.take(j));
}

/// Appends a step to a bare step list, with the same merging discipline
/// as [`WallFollowPath::add_step`]: a zero step is dropped, a step along
/// the last step's axis is merged into it (and the pair removed when they
/// cancel), anything else is pushed.  Whatever the anchor, the new trace
/// is covered by the old trace plus the box of the appended step.
#[verifier::rlimit(100)]
pub fn push_merge(steps: &mut Vec<Vec2>, s: Vec2)
    requires
        s.0 == 0 || s.1 == 0,
        steps_wf(old(steps)@),
        mags(old(steps)@) + vmag(s) <= i64::MAX,
    ensures
        steps_wf(final(steps)@),
        ssum(final(steps)@) == add2(ssum(old(steps)@), pt(s)),
        mags(final(steps)@) <= mags(old(steps)@) + vmag(s),
        final(steps)@.len() <= old(steps)@.len() + 1,
        s.0 == 0 && s.1 == 0 ==> final(steps)@ == old(steps)@,
        old(steps)@.len() > 0 && same_axis(old(steps)@.last(), s) ==> final(steps)@.len() <= old(
            steps,
        )@.len(),
        (s.0 != 0 || s.1 != 0) && (old(steps)@.len() == 0 || !same_axis(old(steps)@.last(), s))
            ==> final(steps)@ == old(steps)@.push(s),
        old(steps)@.len() > 0 && (s.0 != 0 || s.1 != 0) && same_axis(old(steps)@.last(), s)
            ==> final(steps)@ == (if old(steps)@.last().0 + s.0 == 0 && old(steps)@.last().1 + s.1
            == 0 {
            old(steps)@.drop_last()
        } else {
            old(steps)@.drop_last().push(
                Vec2(
                    (old(steps)@.last().0 + s.0) as i64,
                    (old(steps)@.last().1 + s.1) as i64,
                ),
            )
        }),
        forall|anchor: Vec2, px: int, py: int|
            #[trigger] on_path(anchor, final(steps)@, px, py) ==> on_path(
                anchor,
                old(steps)@,
                px,
                py,
            ) || in_box(
                posn(anchor, old(steps)@, old(steps)@.len() as int),
                add2(posn(anchor, old(steps)@, old(steps)@.len() as int), pt(s)),
                px,
                py,
            ),
{
    proof {
        lemma_mags_nonneg(steps@);
    }
    if s.is_zero() {
        assert(ssum(steps@) == add2(ssum(old(steps)@), pt(s)));
        return;
    }
    let ghost olds = steps@;
    let n = steps.len();
    if n > 0 {
        let last = steps[n - 1];
        if last.same_dir(s) {
            proof {
                assert(olds.take(n as int) =~= olds);
                lemma_take_succ(olds, n - 1);
                lemma_mags_take_le(olds, n - 1);
                lemma_mags_nonneg(olds.take(n - 1));
                lemma_ssum_mag(olds);
                lemma_ssum_mag(olds.take(n - 1));
                lemma_step_le(olds, n - 1);
            }
            let merged = last.add(s);
            if merged.is_zero() {
                steps.pop();
                proof {
                    assert(steps@ =~= olds.take(n - 1));
                    assert forall|anchor: Vec2, px: int, py: int|
                        #[trigger] on_path(anchor, steps@, px, py) implies on_path(
                        anchor,
                        olds,
                        px,
                        py,
                    ) || in_box(
                        posn(anchor, olds, olds.len() as int),
                        add2(posn(anchor, olds, olds.len() as int), pt(s)),
                        px,
                        py,
                    ) by {
                        lemma_subset_after_shrink(
                            anchor,
                            olds,
                            steps@,
                            s,
                            posn(anchor, olds, olds.len() as int),
                        );
                    }
                }
            } else {
                steps.set(n - 1, merged);
                proof {
                    assert(steps@.drop_last() =~= olds.take(n - 1));
                    assert(steps@.last() == merged);
                    assert(steps_wf(steps@)) by {
                        assert forall|j: int| 0 <= j < steps@.len() implies step_ok(
                            #[trigger] steps@[j],
                        ) by {
                            if j < n - 1 {
                                assert(steps@[j] == olds[j]);
                            }
                        }
                        assert forall|j: int|
                            0 <= j < steps@.len() - 1 implies !same_axis(
                            #[trigger] steps@[j],
                            steps@[j + 1],
                        ) by {
                            assert(steps@[j] == olds[j]);
                            if j + 1 < n - 1 {
                                assert(steps@[j + 1] == olds[j + 1]);
                            }
                        }
                    }
                    assert forall|anchor: Vec2, px: int, py: int|
                        #[trigger] on_path(anchor, steps@, px, py) implies on_path(
                        anchor,
                        olds,
                        px,
                        py,
                    ) || in_box(
                        posn(anchor, olds, olds.len() as int),
                        add2(posn(anchor, olds, olds.len() as int), pt(s)),
                        px,
                        py,
                    ) by {
                        lemma_subset_after_merge(
                            anchor,
                            olds,
                            steps@,
                            last,
                            s,
                            posn(anchor, olds, olds.len() as int),
                        );
                    }
                }
            }
            return;
        }
    }
    steps.push(s);
    proof {
        assert(steps@.drop_last() =~= olds);
        assert(steps@.last() == s);
        assert(steps_wf(steps@)) by {
            assert forall|j: int| 0 <= j < steps@.len() implies step_ok(#[trigger] steps@[j]) by {
                if j < olds.len() {
                    assert(steps@[j] == olds[j]);
                }
            }
            assert forall|j: int|
                0 <= j < steps@.len() - 1 implies !same_axis(
                #[trigger] steps@[j],
                steps@[j + 1],
            ) by {
                assert(steps@[j] == olds[j]);
                if j + 1 < olds.len() {
                    assert(steps@[j + 1] == olds[j + 1]);
                }
            }
        }
        assert forall|anchor: Vec2, px: int, py: int|
            #[trigger] on_path(anchor, steps@, px, py) implies on_path(anchor, olds, px, py)
            || in_box(
            posn(anchor, olds, olds.len() as int),
            add2(posn(anchor, olds, olds.len() as int), pt(s)),
            px,
            py,
        ) by {
            lemma_subset_after_push(anchor, olds, steps@, s, posn(anchor, olds, olds.len() as int));
        }
    }
}

/// A coarse rectilinear path: a start anchor plus the emitted steps.
pub struct WallFollowPath {
    pub start: Vec2,
    pub steps: Vec<Vec2>,
}

/// The path's total length: the Manhattan length of the anchor offset
/// plus the length of every step.
pub open spec fn path_total(p: WallFollowPath) -> int {
    vmag(p.start) + mags(p.steps@)
}

impl WallFollowPath {
    /// An empty path anchored at `start`.
    pub fn new(start: Vec2) -> (r: WallFollowPath)
        ensures
            r.start == start,
            r.steps@ =~= Seq::<Vec2>::empty(),
    {
        WallFollowPath { start, steps: Vec::new() }
    }

    /// Appends a step by the same discipline as [`push_merge`]: a zero
    /// step leaves the path unchanged, a step along the last step's axis
    /// merges into it (the pair is removed when they cancel), anything
    /// else is appended.  The new trace is covered by the old trace plus
    /// the box of the appended step.
    pub fn add_step(&mut self, step: Vec2)
        requires
            step.0 == 0 || step.1 == 0,
            steps_wf(old(self).steps@),
            path_total(*old(self)) + vmag(step) <= i64::MAX,
        ensures
            final(self).start == old(self).start,
            steps_wf(final(self).steps@),
            ssum(final(self).steps@) == add2(ssum(old(self).steps@), pt(step)),
            mags(final(self).steps@) <= mags(old(self).steps@) + vmag(step),
            final(self).steps@.len() <= old(self).steps@.len() + 1,
            final(self).steps@ == push_step(old(self).steps@, step),
            step.0 == 0 && step.1 == 0 ==> final(self).steps@ == old(self).steps@,
            (step.0 != 0 || step.1 != 0) && (old(self).steps@.len() == 0 || !same_axis(
                old(self).steps@.last(),
                step,
            )) ==> final(self).steps@ == old(self).steps@.push(step),
            old(self).steps@.len() > 0 && (step.0 != 0 || step.1 != 0) && same_axis(
                old(self).steps@.last(),
                step,
            ) ==> final(self).steps@ == (if old(self).steps@.last().0 + step.0 == 0 && old(
                self,
            ).steps@.last().1 + step.1 == 0 {
                old(self).steps@.drop_last()
            } else {
                old(self).steps@.drop_last().push(
                    Vec2(
                        (old(self).steps@.last().0 + step.0) as i64,
                        (old(self).steps@.last().1 + step.1) as i64,
                    ),
                )
            }),
            forall|px: int, py: int|
                #[trigger] on_path(final(self).start, final(self).steps@, px, py) ==> on_path(
                    old(self).start,
                    old(self).steps@,
                    px,
                    py,
                ) || in_box(
                    posn(old(self).start, old(self).steps@, old(self).steps@.len() as int),
                    add2(
                        posn(old(self).start, old(self).steps@, old(self).steps@.len() as int),
                        pt(step),
                    ),
                    px,
                    py,
                ),
    {
        proof {
            lemma_mags_nonneg(self.steps@);
        }
        push_merge(&mut self.steps, step);
        proof {
            assert(self.steps@ == push_step(old(self).steps@, step));
        }
    }

    /// The total travelled length, anchor offset included.
    pub fn total(&self) -> (r: i64)
        requires
            vmag(self.start) <= i64::MAX,
            path_total(*self) <= i64::MAX,
        ensures
            r == path_total(*self),
    {
        proof {
            lemma_mags_nonneg(self.steps@);
        }
        let mut acc: i64 = self.start.mag();
        let mut i: usize = 0;
        while i < self.steps.len()
            invariant
                0 <= i <= self.steps@.len(),
                acc == vmag(self.start) + mags(self.steps@.take(i as int)),
                path_total(*self) <= i64::MAX,
                vmag(self.start) >= 0,
            decreases self.steps@.len() - i,
        {
            proof {
                lemma_take_succ(self.steps@, i as int);
                lemma_mags_take_le(self.steps@, i + 1);
                lemma_mags_nonneg(self.steps@.take(i as int));
            }
            acc = acc + self.steps[i].mag();
            i += 1;
        }
        proof {
            assert(self.steps@.take(i as int) =~= self.steps@);
        }
        acc
    }
}

/// Trace containment for `add_step` when the appended step cancels the
/// last one exactly.
proof fn lemma_subset_after_shrink(
    anchor: Vec2,
    olds: Seq<Vec2>,
    news: Seq<Vec2>,
    step: Vec2,
    endpos: (int, int),
)
    requires
        olds.len() > 0,
        news =~= olds.take(olds.len() - 1),
        endpos == posn(anchor, olds, olds.len() as int),
    ensures
        forall|px: int, py: int|
            #[trigger] on_path(anchor, news, px, py) ==> on_path(anchor, olds, px, py) || in_box(
                endpos,
                add2(endpos, pt(step)),
                px,
                py,
            ),
{
    assert forall|px: int, py: int| #[trigger] on_path(anchor, news, px, py) implies on_path(
        anchor,
        olds,
        px,
        py,
    ) || in_box(endpos, add2(endpos, pt(step)), px, py) by {
        let j = choose|j: int|
            0 <= j < news.len() && #[trigger] in_box(
                posn(anchor, news, j),
                posn(anchor, news, j + 1),
                px,
                py,
            );
        assert(news.take(j) =~= olds.take(j));
        assert(news.take(j + 1) =~= olds.take(j + 1));
        assert(in_box(posn(anchor, olds, j), posn(anchor, olds, j + 1), px, py));
    }
}

/// Trace containment for `add_step` when the appended step merges into
/// the last one.
proof fn lemma_subset_after_merge(
    anchor: Vec2,
    olds: Seq<Vec2>,
    news: Seq<Vec2>,
    last: Vec2,
    step: Vec2,
    endpos: (int, int),
)
    requires
        olds.len() > 0,
        news.len() == olds.len(),
        news =~= olds.take(olds.len() - 1).push(Vec2((last.0 + step.0) as i64, (last.1 + step.1) as i64)),
        olds.last() == last,
        same_axis(last, step) || (last.1 == 0 && step.1 == 0 || last.0 == 0 && step.0 == 0),
        last.1 == 0 && step.1 == 0 || last.0 == 0 && step.0 == 0,
        i64::MIN <= last.0 + step.0 <= i64::MAX,
        i64::MIN <= last.1 + step.1 <= i64::MAX,
        endpos == posn(anchor, olds, olds.len() as int),
    ensures
        forall|px: int, py: int|
            #[trigger] on_path(anchor, news, px, py) ==> on_path(anchor, olds, px, py) || in_box(
                endpos,
                add2(endpos, pt(step)),
                px,
                py,
            ),
{
    let n = olds.len() as int;
    assert forall|px: int, py: int| #[trigger] on_path(anchor, news, px, py) implies on_path(
        anchor,
        olds,
        px,
        py,
    ) || in_box(endpos, add2(endpos, pt(step)), px, py) by {
        let j = choose|j: int|
            0 <= j < news.len() && #[trigger] in_box(
                posn(anchor, news, j),
                posn(anchor, news, j + 1),
                px,
                py,
            );
        if j < n - 1 {
            assert(news.take(j) =~= olds.take(j));
            assert(news.take(j + 1) =~= olds.take(j + 1));
            assert(in_box(posn(anchor, olds, j), posn(anchor, olds, j + 1), px, py));
        } else {
            assert(j == n - 1);
            assert(news.take(j) =~= olds.take(j));
            let p = posn(anchor, olds, n - 1);
            lemma_take_succ(news, n - 1);
            lemma_take_succ(olds, n - 1);
            assert(news.take(n) =~= news);
            assert(olds.take(n) =~= olds);
            assert(posn(anchor, news, n) == add2(p, add2(pt(last), pt(step))));
            lemma_merge_box(p, last, step, px, py);
            if in_box(p, add2(p, pt(last)), px, py) {
                assert(in_box(posn(anchor, olds, n - 1), posn(anchor, olds, n), px, py));
            } else {
                assert(endpos == add2(p, pt(last)));
            }
        }
    }
}

/// Trace containment for `add_step` when the step is simply appended.
proof fn lemma_subset_after_push(
    anchor: Vec2,
    olds: Seq<Vec2>,
    news: Seq<Vec2>,
    step: Vec2,
    endpos: (int, int),
)
    requires
        news =~= olds.push(step),
        endpos == posn(anchor, olds, olds.len() as int),
    ensures
        forall|px: int, py: int|
            #[trigger] on_path(anchor, news, px, py) ==> on_path(anchor, olds, px, py) || in_box(
                endpos,
                add2(endpos, pt(step)),
                px,
                py,
            ),
{
    let n = olds.len() as int;
    assert forall|px: int, py: int| #[trigger] on_path(anchor, news, px, py) implies on_path(
        anchor,
        olds,
        px,
        py,
    ) || in_box(endpos, add2(endpos, pt(step)), px, py) by {
        let j = choose|j: int|
            0 <= j < news.len() && #[trigger] in_box(
                posn(anchor, news, j),
                posn(anchor, news, j + 1),
                px,
                py,
            );
        if j < n {
            assert(news.take(j) =~= olds.take(j));
            assert(news.take(j + 1) =~= olds.take(j + 1));
            assert(in_box(posn(anchor, olds, j), posn(anchor, olds, j + 1), px, py));
        } else {
            assert(j == n);
            assert(news.take(n) =~= olds.take(n));
            assert(olds.take(n) =~= olds);
            lemma_take_succ(news, n);
            assert(news.take(n + 1) =~= news);
            assert(posn(anchor, news, n) == endpos);
            assert(posn(anchor, news, n + 1) == add2(endpos, pt(step)));
        }
    }
}

} // verus!
