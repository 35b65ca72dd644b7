//! The wall-maze navigator's entry points: instructions in, travel
//! length out.  The decoding of puzzle text into instructions and all
//! presentation belong to the callers; the navigator consumes an ordered
//! sequence of (turn, positive distance) instructions.

use vstd::prelude::*;

use crate::NavError;
use crate::geometry::{Vec2, Segment, vmag, seg_wf};
use crate::hug::{follow_wall, direct_run_ok, first_bee_fires, first_bee_steps, spec_anchor, MAX_SEGMENTS};
use crate::path::{
    WallFollowPath,
    steps_wf,
    trace_clear,
    trace_clear_or_origin,
    ssum,
    mags,
    add2,
    pt,
    on_path,
    on_wall,
    path_total,
    TOTAL_LIMIT,
};
use crate::reduce::{reduce_steps, is_reduced};
use crate::wall::{WallModel, Instruction, wall_spec_ok, spec_corner, in_limit};

verus! {

/// The corner after `i` instructions, as a machine-integer point.
pub open spec fn corner_v(instrs: Seq<Instruction>, i: int) -> Vec2 {
    Vec2(spec_corner(instrs, i).0 as i64, spec_corner(instrs, i).1 as i64)
}

/// The wall determined by the instructions: one segment per instruction,
/// connecting consecutive corners.
pub open spec fn spec_wall(instrs: Seq<Instruction>) -> Seq<Segment> {
    Seq::new(
        instrs.len(),
        |i: int| Segment { start: corner_v(instrs, i), end: corner_v(instrs, i + 1) },
    )
}

/// `t` is the total length of the path `(anchor, steps)`, which is a
/// well-formed reduced path of the wall determined by `instrs`: its steps
/// sum from the anchor exactly to the wall's final corner, no traced
/// point touches the wall except that corner (a path anchored at the
/// origin may also stand on the origin, its own start cell), and no
/// reducer rewrite applies to it.
pub open spec fn valid_reduced_total(
    instrs: Seq<Instruction>,
    anchor: Vec2,
    steps: Seq<Vec2>,
    t: i64,
) -> bool {
    &&& vmag(anchor) <= 1
    &&& steps_wf(steps)
    &&& add2(pt(anchor), ssum(steps)) == spec_corner(instrs, instrs.len() as int)
    &&& trace_clear_or_origin(
        spec_wall(instrs),
        anchor,
        steps,
        corner_v(instrs, instrs.len() as int),
    )
    &&& (vmag(anchor) == 1 ==> trace_clear(
        spec_wall(instrs),
        anchor,
        steps,
        corner_v(instrs, instrs.len() as int),
    ))
    &&& is_reduced(spec_wall(instrs), anchor, steps)
    &&& t == vmag(anchor) + mags(steps)
}

/// The navigator owes success outright: the instructions are well formed
/// and their final corner is the origin itself, or sits on the origin's
/// row or column with the straight run to it clear of the wall.  (For
/// other walls a successful hug is not owed by contract; the traversal
/// surfaces any failure as the matching fatal error.)
pub open spec fn solvable_directly(instrs: Seq<Instruction>) -> bool {
    &&& wall_spec_ok(instrs)
    &&& 1 <= instrs.len() <= MAX_SEGMENTS as int
    &&& {
        let end = corner_v(instrs, instrs.len() as int);
        (end.0 == 0 && end.1 == 0) || direct_run_ok(spec_wall(instrs), end)
    }
}

/// The anchor the navigator's walk starts from, for the given hand: the
/// origin when the end is answered directly, and the hand's off-origin
/// anchor otherwise.
pub open spec fn quest15_anchor(instrs: Seq<Instruction>, hug_right: bool) -> Vec2 {
    let end = corner_v(instrs, instrs.len() as int);
    if (end.0 == 0 && end.1 == 0) || direct_run_ok(spec_wall(instrs), end) {
        Vec2(0i64, 0i64)
    } else {
        spec_anchor(spec_wall(instrs), hug_right)
    }
}

/// Some valid reduced path of the wall determined by `instrs`, anchored
/// at the given point, has total length `t`.
pub open spec fn some_valid_reduced_total(instrs: Seq<Instruction>, anchor: Vec2, t: i64) -> bool {
    exists|steps: Seq<Vec2>| #[trigger] valid_reduced_total(instrs, anchor, steps, t)
}

/// Builds the wall, walks it with the chosen hand, and reduces the
/// emitted path.  On success the returned wall is exactly the one the
/// instructions determine and the returned path is a valid reduced path
/// of it.
pub fn navigate(instructions: &Vec<Instruction>, hug_right: bool) -> (r: Result<
    (WallModel, WallFollowPath),
    NavError,
>)
    ensures
        r matches Err(e) ==> (e == NavError::MalformedWallSpec || e == NavError::TraversalExhausted
            || e == NavError::GeometryInvariantViolation),
        (!wall_spec_ok(instructions@) || instructions@.len() == 0 || instructions@.len()
            > MAX_SEGMENTS) ==> r == Err::<(WallModel, WallFollowPath), NavError>(
            NavError::MalformedWallSpec,
        ),
        r matches Ok(wp) ==> {
            &&& wall_spec_ok(instructions@)
            &&& 1 <= instructions@.len() <= MAX_SEGMENTS
            &&& wp.0.segments@ == spec_wall(instructions@)
            &&& pt(wp.0.end) == spec_corner(instructions@, instructions@.len() as int)
            &&& vmag(wp.1.start) <= 1
            &&& path_total(wp.1) <= i64::MAX
            &&& forall|t: i64|
                t == path_total(wp.1) ==> #[trigger] valid_reduced_total(
                    instructions@,
                    wp.1.start,
                    wp.1.steps@,
                    t,
                )
            &&& path_total(wp.1) <= TOTAL_LIMIT
            &&& wp.1.start == quest15_anchor(instructions@, hug_right)
        },
        solvable_directly(instructions@) ==> r is Ok,
        r matches Ok(wp) ==> {
            let end = corner_v(instructions@, instructions@.len() as int);
            &&& (end.0 == 0 && end.1 == 0 ==> wp.1.steps@ == Seq::<Vec2>::empty()
                && path_total(wp.1) == 0)
            &&& (direct_run_ok(spec_wall(instructions@), end) ==> wp.1.steps@ == seq![end]
                && path_total(wp.1) == vmag(end))
        },
        (wall_spec_ok(instructions@) && 1 <= instructions@.len() <= MAX_SEGMENTS
            && first_bee_fires(
            spec_wall(instructions@),
            corner_v(instructions@, instructions@.len() as int),
            hug_right,
        )) ==> (r matches Ok(wp) && {
            let bee_steps = first_bee_steps(
                spec_wall(instructions@),
                corner_v(instructions@, instructions@.len() as int),
                hug_right,
            );
            wp.1.steps@ == bee_steps && path_total(wp.1) == 1 + mags(bee_steps)
        }),
{
    if instructions.len() == 0 || instructions.len() > MAX_SEGMENTS {
        return Err(NavError::MalformedWallSpec);
    }
    let wall = match WallModel::build(instructions) {
        Ok(w) => w,
        Err(e) => {
            return Err(e);
        },
    };
    proof {
        assert(wall.segments@ =~= spec_wall(instructions@)) by {
            assert forall|i: int| 0 <= i < wall.segments@.len() implies wall.segments@[i]
                == spec_wall(instructions@)[i] by {
                assert(in_limit(spec_corner(instructions@, i)));
                assert(in_limit(spec_corner(instructions@, i + 1)));
            }
        }
        assert(in_limit(pt(wall.end)));
        assert(wall.end == corner_v(instructions@, instructions@.len() as int));
    }
    let hugged = match follow_wall(wall.end, &wall.segments, hug_right) {
        Ok(p) => p,
        Err(e) => {
            return Err(e);
        },
    };
    proof {
        assert(forall|k: int|
            0 <= k < wall.segments@.len() ==> seg_wf(#[trigger] wall.segments@[k]));
        crate::path::lemma_mags_nonneg(hugged.steps@);
    }
    let ghost hug_start = hugged.start;
    let ghost hug_steps = hugged.steps@;
    let ghost hug_strict = trace_clear(wall.segments@, hug_start, hug_steps, wall.end);
    let reduced = reduce_steps(wall.segments.as_slice(), hugged);
    proof {
        // A first-iteration bee-line gives a path of at most two steps,
        // which is already a reducer fixpoint and comes back unchanged.
        if first_bee_fires(wall.segments@, wall.end, hug_right) {
            assert(hug_steps == first_bee_steps(wall.segments@, wall.end, hug_right));
            assert(hug_steps.len() <= 2) by {
                let anchor = spec_anchor(wall.segments@, hug_right);
                let bee = crate::hug::spec_first_bee(wall.segments@, wall.end, hug_right)->Some_0;
                let s1 = crate::path::push_step(
                    Seq::<Vec2>::empty(),
                    crate::hug::vsub(bee, anchor),
                );
                assert(s1.len() <= 1);
                assert(crate::path::push_step(s1, crate::hug::vsub(wall.end, bee)).len() <= s1.len()
                    + 1);
            }
            assert(is_reduced(wall.segments@, hug_start, hug_steps));
            assert(reduced.steps@ == hug_steps);
            assert(vmag(hug_start) == 1);
            assert(path_total(reduced) == 1 + mags(hug_steps));
        }
        // A directly answered end gives a path of at most one step, which
        // is already a reducer fixpoint and comes back unchanged.
        if (wall.end.0 == 0 && wall.end.1 == 0) || direct_run_ok(wall.segments@, wall.end) {
            assert(hug_steps.len() <= 1);
            assert(is_reduced(wall.segments@, hug_start, hug_steps));
            assert(reduced.steps@ == hug_steps);
            if wall.end.0 == 0 && wall.end.1 == 0 {
                assert(path_total(reduced) == 0);
            } else {
                assert(hug_steps == seq![wall.end]);
                assert(hug_steps.drop_last() =~= Seq::<Vec2>::empty());
                assert(hug_steps.last() == wall.end);
                assert(mags(Seq::<Vec2>::empty()) == 0);
                assert(mags(hug_steps) == mags(hug_steps.drop_last()) + vmag(hug_steps.last()));
                assert(mags(hug_steps) == vmag(wall.end));
                assert(path_total(reduced) == vmag(wall.end));
            }
        }
        assert forall|px: int, py: int|
            #[trigger] on_path(reduced.start, reduced.steps@, px, py) && on_wall(
                wall.segments@,
                px,
                py,
            ) implies (px == wall.end.0 && py == wall.end.1) || (px == 0 && py == 0) by {
            assert(on_path(hug_start, hug_steps, px, py));
        }
        if hug_strict {
            assert forall|px: int, py: int|
                #[trigger] on_path(reduced.start, reduced.steps@, px, py) && on_wall(
                    wall.segments@,
                    px,
                    py,
                ) implies px == wall.end.0 && py == wall.end.1 by {
                assert(on_path(hug_start, hug_steps, px, py));
            }
        }
        crate::path::lemma_mags_nonneg(reduced.steps@);
    }
    Ok((wall, reduced))
}

/// Computes the minimum discovered travel distance from the start to the
/// wall's final corner, hugging the chosen side.
pub fn do_solve(instructions: &Vec<Instruction>, hug_right: bool) -> (r: Result<i64, NavError>)
    ensures
        r matches Err(e) ==> (e == NavError::MalformedWallSpec || e == NavError::TraversalExhausted
            || e == NavError::GeometryInvariantViolation),
        (!wall_spec_ok(instructions@) || instructions@.len() == 0 || instructions@.len()
            > MAX_SEGMENTS) ==> r == Err::<i64, NavError>(NavError::MalformedWallSpec),
        r matches Ok(t) ==> some_valid_reduced_total(
            instructions@,
            quest15_anchor(instructions@, hug_right),
            t,
        ),
        solvable_directly(instructions@) ==> r is Ok,
        (wall_spec_ok(instructions@) && 1 <= instructions@.len() <= MAX_SEGMENTS && {
            let end = corner_v(instructions@, instructions@.len() as int);
            end.0 == 0 && end.1 == 0
        }) ==> r == Ok::<i64, NavError>(0),
        (wall_spec_ok(instructions@) && 1 <= instructions@.len() <= MAX_SEGMENTS
            && direct_run_ok(
            spec_wall(instructions@),
            corner_v(instructions@, instructions@.len() as int),
        )) ==> r == Ok::<i64, NavError>(
            vmag(corner_v(instructions@, instructions@.len() as int)) as i64,
        ),
        (wall_spec_ok(instructions@) && 1 <= instructions@.len() <= MAX_SEGMENTS
            && first_bee_fires(
            spec_wall(instructions@),
            corner_v(instructions@, instructions@.len() as int),
            hug_right,
        )) ==> (r matches Ok(t) && t == 1 + mags(
            first_bee_steps(
                spec_wall(instructions@),
                corner_v(instructions@, instructions@.len() as int),
                hug_right,
            ),
        )),
{
    match navigate(instructions, hug_right) {
        Ok((_wall, path)) => {
            let t = path.total();
            proof {
                assert(valid_reduced_total(instructions@, path.start, path.steps@, t));
                assert(some_valid_reduced_total(
                    instructions@,
                    quest15_anchor(instructions@, hug_right),
                    t,
                ));
            }
            Ok(t)
        },
        Err(e) => Err(e),
    }
}

/// Travel length for the first quest part: the wall is hugged on the
/// left, which the left hand's anchor in the contract pins down.
pub fn solve_part1(instructions: &Vec<Instruction>) -> (r: Result<i64, NavError>)
    ensures
        r matches Ok(t) ==> some_valid_reduced_total(
            instructions@,
            quest15_anchor(instructions@, false),
            t,
        ),
        solvable_directly(instructions@) ==> r is Ok,
        (wall_spec_ok(instructions@) && 1 <= instructions@.len() <= MAX_SEGMENTS && {
            let end = corner_v(instructions@, instructions@.len() as int);
            end.0 == 0 && end.1 == 0
        }) ==> r == Ok::<i64, NavError>(0),
        (wall_spec_ok(instructions@) && 1 <= instructions@.len() <= MAX_SEGMENTS
            && direct_run_ok(
            spec_wall(instructions@),
            corner_v(instructions@, instructions@.len() as int),
        )) ==> r == Ok::<i64, NavError>(
            vmag(corner_v(instructions@, instructions@.len() as int)) as i64,
        ),
        (wall_spec_ok(instructions@) && 1 <= instructions@.len() <= MAX_SEGMENTS
            && first_bee_fires(
            spec_wall(instructions@),
            corner_v(instructions@, instructions@.len() as int),
            false,
        )) ==> (r matches Ok(t) && t == 1 + mags(
            first_bee_steps(
                spec_wall(instructions@),
                corner_v(instructions@, instructions@.len() as int),
                false,
            ),
        )),
{
    do_solve(instructions, false)
}

/// Travel length for the second quest part: the wall is hugged on the
/// left, as in the first part.
pub fn solve_part2(instructions: &Vec<Instruction>) -> (r: Result<i64, NavError>)
    ensures
        r matches Ok(t) ==> some_valid_reduced_total(
            instructions@,
            quest15_anchor(instructions@, false),
            t,
        ),
        solvable_directly(instructions@) ==> r is Ok,
        (wall_spec_ok(instructions@) && 1 <= instructions@.len() <= MAX_SEGMENTS && {
            let end = corner_v(instructions@, instructions@.len() as int);
            end.0 == 0 && end.1 == 0
        }) ==> r == Ok::<i64, NavError>(0),
        (wall_spec_ok(instructions@) && 1 <= instructions@.len() <= MAX_SEGMENTS
            && direct_run_ok(
            spec_wall(instructions@),
            corner_v(instructions@, instructions@.len() as int),
        )) ==> r == Ok::<i64, NavError>(
            vmag(corner_v(instructions@, instructions@.len() as int)) as i64,
        ),
        (wall_spec_ok(instructions@) && 1 <= instructions@.len() <= MAX_SEGMENTS
            && first_bee_fires(
            spec_wall(instructions@),
            corner_v(instructions@, instructions@.len() as int),
            false,
        )) ==> (r matches Ok(t) && t == 1 + mags(
            first_bee_steps(
                spec_wall(instructions@),
                corner_v(instructions@, instructions@.len() as int),
                false,
            ),
        )),
{
    do_solve(instructions, false)
}

/// Travel length for the third quest part: the wall is hugged on the
/// right, which the right hand's anchor in the contract pins down.
pub fn solve_part3(instructions: &Vec<Instruction>) -> (r: Result<i64, NavError>)
    ensures
        r matches Ok(t) ==> some_valid_reduced_total(
            instructions@,
            quest15_anchor(instructions@, true),
            t,
        ),
        solvable_directly(instructions@) ==> r is Ok,
        (wall_spec_ok(instructions@) && 1 <= instructions@.len() <= MAX_SEGMENTS && {
            let end = corner_v(instructions@, instructions@.len() as int);
            end.0 == 0 && end.1 == 0
        }) ==> r == Ok::<i64, NavError>(0),
        (wall_spec_ok(instructions@) && 1 <= instructions@.len() <= MAX_SEGMENTS
            && direct_run_ok(
            spec_wall(instructions@),
            corner_v(instructions@, instructions@.len() as int),
        )) ==> r == Ok::<i64, NavError>(
            vmag(corner_v(instructions@, instructions@.len() as int)) as i64,
        ),
        (wall_spec_ok(instructions@) && 1 <= instructions@.len() <= MAX_SEGMENTS
            && first_bee_fires(
            spec_wall(instructions@),
            corner_v(instructions@, instructions@.len() as int),
            true,
        )) ==> (r matches Ok(t) && t == 1 + mags(
            first_bee_steps(
                spec_wall(instructions@),
                corner_v(instructions@, instructions@.len() as int),
                true,
            ),
        )),
{
    do_solve(instructions, true)
}

} // verus!
