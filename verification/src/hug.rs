//! The wall-hugging traversal: an analytic simulation of a "keep one hand
//! on the wall" walk that processes whole wall segments per step, so its
//! cost is proportional to the number of instructions rather than to the
//! wall's length.
//!
//! Every emitted step is checked against the wall before it enters the
//! path, so a successful traversal provably reaches `end` (its steps sum
//! to `end` from the anchor) and provably never touches the wall away
//! from `end` and the origin, the wall's own first corner.  A walk that
//! runs out of wall segments or would emit a step across the wall
//! surfaces the corresponding fatal error instead.  An end that is the
//! origin itself, or that a clear straight run from the origin reaches,
//! is answered before anchoring, and there success is owed by contract;
//! so is a walk whose very first iteration exits through the bee-line
//! check, whose two emitted steps the contract pins exactly.

use vstd::prelude::*;

use crate::NavError;
use crate::geometry::{Vec2, Segment, vec2, vmag};
use crate::path::{
    WallFollowPath,
    box_clear_except,
    steps_wf,
    trace_clear,
    trace_clear_or_origin,
    ssum,
    mags,
    add2,
    pt,
    path_total,
    posn,
    on_path,
    on_wall,
    in_box,
    step_clear,
    wall_clear,
    COORD_LIMIT,
    TOTAL_LIMIT,
};
use crate::wall::{wall_wf, in_limit, unit_dir};

verus! {

/// The traversal accepts walls of at most this many segments, which keeps
/// every length computation within `i64`.
pub const MAX_SEGMENTS: usize = 32768;

/// Cursor positions stay within a small apron around the coordinate
/// limit: targets sit diagonally beyond wall corners.
pub open spec fn cur_ok(v: Vec2) -> bool {
    &&& -(COORD_LIMIT as int) - 8 <= v.0 <= COORD_LIMIT as int + 8
    &&& -(COORD_LIMIT as int) - 8 <= v.1 <= COORD_LIMIT as int + 8
}

/// The largest Manhattan length a single emitted step can have:
/// twice the cursor apron around the coordinate limit.
pub const STEP_BUDGET: i64 = 2 * 0x100_0000_0000 + 16;

/// The anchor the walk starts from: one cell off the origin, on the
/// side away from the hugged hand, which the first wall segment's
/// direction decides.
pub open spec fn spec_anchor(walls: Seq<Segment>, hug_right: bool) -> Vec2 {
    if hug_right {
        if walls[0].end.0 > 0 {
            Vec2(0i64, -1i64)
        } else {
            Vec2(0i64, 1i64)
        }
    } else {
        if walls[0].end.0 < 0 {
            Vec2(0i64, -1i64)
        } else {
            Vec2(0i64, 1i64)
        }
    }
}

/// The difference of two points, as a machine vector.
pub open spec fn vsub(a: Vec2, b: Vec2) -> Vec2 {
    Vec2((a.0 - b.0) as i64, (a.1 - b.1) as i64)
}

/// The heading the walk starts with, for the given hand: along the first
/// wall segment's direction.
pub open spec fn spec_heading(walls: Seq<Segment>, hug_right: bool) -> Vec2 {
    if hug_right {
        if walls[0].end.0 > 0 {
            Vec2(1i64, 0i64)
        } else {
            Vec2(-1i64, 0i64)
        }
    } else {
        if walls[0].end.0 < 0 {
            Vec2(-1i64, 0i64)
        } else {
            Vec2(1i64, 0i64)
        }
    }
}

/// The far point of the first iteration's known-safe run: one short of
/// the concave corner when the next segment blocks the way, the target
/// beyond the hugged segment's far end otherwise.
pub open spec fn spec_last_bee(walls: Seq<Segment>, hug_right: bool) -> Vec2 {
    let h = spec_heading(walls, hug_right);
    let side = if hug_right {
        crate::wall::turn_dir(h, crate::wall::Turn::Right)
    } else {
        crate::wall::turn_dir(h, crate::wall::Turn::Left)
    };
    let target = Vec2(
        (walls[0].end.0 + h.0 - side.0) as i64,
        (walls[0].end.1 + h.1 - side.1) as i64,
    );
    let hit = Vec2((target.0 - h.0) as i64, (target.1 - h.1) as i64);
    let ah = walls.len() > 1 && crate::geometry::seg_has(walls[1], hit.0 as int, hit.1 as int);
    if ah {
        Vec2((hit.0 - h.0) as i64, (hit.1 - h.1) as i64)
    } else {
        target
    }
}

/// The point of the run from `anchor` to `lb` that shares the end's row,
/// as `point_with_y` answers it.
pub open spec fn spec_bee_row(anchor: Vec2, lb: Vec2, end: Vec2) -> Option<Vec2> {
    if anchor.1 == lb.1 {
        if anchor.1 == end.1 {
            Option::Some(anchor)
        } else {
            Option::None
        }
    } else {
        if vstd::math::min(anchor.1 as int, lb.1 as int) <= end.1 <= vstd::math::max(
            anchor.1 as int,
            lb.1 as int,
        ) {
            Option::Some(Vec2(anchor.0, end.1))
        } else {
            Option::None
        }
    }
}

/// The point of the run from `anchor` to `lb` that shares the end's
/// column, as `point_with_x` answers it.
pub open spec fn spec_bee_col(anchor: Vec2, lb: Vec2, end: Vec2) -> Option<Vec2> {
    if anchor.1 == lb.1 {
        if vstd::math::min(anchor.0 as int, lb.0 as int) <= end.0 <= vstd::math::max(
            anchor.0 as int,
            lb.0 as int,
        ) {
            Option::Some(Vec2(end.0, anchor.1))
        } else {
            Option::None
        }
    } else {
        if anchor.0 == end.0 {
            Option::Some(anchor)
        } else {
            Option::None
        }
    }
}

/// The bee-line start the walk's first iteration settles on, if its
/// bee-line check fires there: the point of the known-safe run sharing
/// the end's row (or, failing that, its column) from which the straight
/// run to the end is clear.  `None` when the first iteration hugs on.
pub open spec fn spec_first_bee(walls: Seq<Segment>, end: Vec2, hug_right: bool) -> Option<Vec2> {
    let anchor = spec_anchor(walls, hug_right);
    let lb = spec_last_bee(walls, hug_right);
    if !(anchor.0 == lb.0 || anchor.1 == lb.1) {
        Option::None
    } else if spec_bee_row(anchor, lb, end) matches Some(b) && step_clear(
        walls,
        pt(b),
        pt(end),
        pt(end),
    ) {
        spec_bee_row(anchor, lb, end)
    } else if spec_bee_col(anchor, lb, end) matches Some(b) && step_clear(
        walls,
        pt(b),
        pt(end),
        pt(end),
    ) {
        spec_bee_col(anchor, lb, end)
    } else {
        Option::None
    }
}

/// The first iteration's bee-line fires and its approach run from the
/// anchor is clear: the traversal then owes the two bee-line steps.
pub open spec fn first_bee_fires(walls: Seq<Segment>, end: Vec2, hug_right: bool) -> bool {
    &&& !((end.0 == 0 && end.1 == 0) || direct_run_ok(walls, end))
    &&& spec_first_bee(walls, end, hug_right) is Some
    &&& step_clear(
        walls,
        pt(spec_anchor(walls, hug_right)),
        pt(spec_first_bee(walls, end, hug_right)->Some_0),
        pt(end),
    )
}

/// The two bee-line steps of a firing first iteration: to the bee start,
/// then to the end (a zero leg is dropped, so a run already on the end's
/// row or column emits one step).
pub open spec fn first_bee_steps(walls: Seq<Segment>, end: Vec2, hug_right: bool) -> Seq<Vec2> {
    let anchor = spec_anchor(walls, hug_right);
    let bee = spec_first_bee(walls, end, hug_right)->Some_0;
    crate::path::push_step(
        crate::path::push_step(Seq::<Vec2>::empty(), vsub(bee, anchor)),
        vsub(end, bee),
    )
}

/// The end point sits on the start's row or column, away from the
/// origin, and the straight run towards it (its first cell off the
/// origin onwards) touches the walls at most in `end` itself.  On such
/// walls the navigator owes the direct run, without any hugging.
pub open spec fn direct_run_ok(walls: Seq<Segment>, end: Vec2) -> bool {
    &&& !(end.0 == 0 && end.1 == 0)
    &&& end.0 == 0 || end.1 == 0
    &&& step_clear(
        walls,
        (crate::geometry::sgn(end.0 as int), crate::geometry::sgn(end.1 as int)),
        pt(end),
        pt(end),
    )
}

/// Checks that the straight run from the cursor to `q` is axis-aligned
/// and clear of the walls (except possibly at `end`), then emits it into
/// the path and moves the cursor.  A run that is not axis-aligned or not
/// clear is a fatal geometry violation.
fn emit_step(
    path: &mut WallFollowPath,
    walls: &Vec<Segment>,
    cursor: &mut Vec2,
    q: Vec2,
    end: Vec2,
) -> (r: Result<(), NavError>)
    requires
        cur_ok(*old(cursor)),
        cur_ok(q),
        steps_wf(old(path).steps@),
        pt(*old(cursor)) == add2(pt(old(path).start), ssum(old(path).steps@)),
        trace_clear(walls@, old(path).start, old(path).steps@, end),
        path_total(*old(path)) + (STEP_BUDGET as int) <= i64::MAX,
    ensures
        r matches Err(e) ==> e == NavError::GeometryInvariantViolation,
        (old(cursor).0 == q.0 || old(cursor).1 == q.1) && step_clear(
            walls@,
            pt(*old(cursor)),
            pt(q),
            pt(end),
        ) ==> r is Ok,
        r is Ok ==> {
            &&& final(path).start == old(path).start
            &&& *final(cursor) == q
            &&& steps_wf(final(path).steps@)
            &&& pt(q) == add2(pt(final(path).start), ssum(final(path).steps@))
            &&& trace_clear(walls@, final(path).start, final(path).steps@, end)
            &&& mags(final(path).steps@) <= mags(old(path).steps@) + (STEP_BUDGET as int)
            &&& final(path).steps@ == crate::path::push_step(
                old(path).steps@,
                vsub(q, *old(cursor)),
            )
        },
{
    if !(cursor.0 == q.0 || cursor.1 == q.1) {
        return Err(NavError::GeometryInvariantViolation);
    }
    if !box_clear_except(walls, *cursor, q, end) {
        return Err(NavError::GeometryInvariantViolation);
    }
    let step = q.sub(*cursor);
    let ghost olds = path.steps@;
    let ghost anchor = path.start;
    let ghost cpos = pt(*cursor);
    proof {
        assert(olds.take(olds.len() as int) =~= olds);
        assert(posn(anchor, olds, olds.len() as int) == cpos);
    }
    path.add_step(step);
    proof {
        assert forall|px: int, py: int|
            #[trigger] on_path(path.start, path.steps@, px, py) && on_wall(walls@, px, py)
            implies px == end.0 && py == end.1 by {
            if on_path(anchor, olds, px, py) {
            } else {
                assert(in_box(cpos, add2(cpos, pt(step)), px, py));
                assert(add2(cpos, pt(step)) == pt(q));
                let k = choose|k: int|
                    0 <= k < walls@.len() && crate::geometry::seg_has(walls@[k], px, py);
                assert(wall_clear(walls@[k], pt(*cursor), pt(q), pt(end)));
            }
        }
    }
    *cursor = q;
    Ok(())
}

/// Walks one side of the wall from the start anchor, hugging it with the
/// chosen hand, and returns the emitted coarse path.  On success the path
/// provably sums to `end` and provably avoids the wall except at `end`
/// and the origin; running out of segments or producing a wall-crossing
/// run is fatal.  Success is owed when the end is the origin itself or
/// the straight run from the origin to the end is clear: those cases are
/// answered directly, before anchoring.
#[verifier::rlimit(100)]
pub fn follow_wall(end: Vec2, wall_lines: &Vec<Segment>, hug_right: bool) -> (r: Result<
    WallFollowPath,
    NavError,
>)
    requires
        wall_wf(wall_lines@),
        1 <= wall_lines@.len() <= MAX_SEGMENTS,
        in_limit(pt(end)),
    ensures
        r matches Err(e) ==> (e == NavError::TraversalExhausted
            || e == NavError::GeometryInvariantViolation),
        r matches Ok(p) ==> {
            &&& steps_wf(p.steps@)
            &&& add2(pt(p.start), ssum(p.steps@)) == pt(end)
            &&& trace_clear_or_origin(wall_lines@, p.start, p.steps@, end)
            &&& vmag(p.start) <= 1
            &&& path_total(p) <= TOTAL_LIMIT
            &&& p.start == (if (end.0 == 0 && end.1 == 0) || direct_run_ok(wall_lines@, end) {
                Vec2(0i64, 0i64)
            } else {
                spec_anchor(wall_lines@, hug_right)
            })
        },
        !((end.0 == 0 && end.1 == 0) || direct_run_ok(wall_lines@, end)) ==> (r matches Ok(p)
            ==> trace_clear(wall_lines@, p.start, p.steps@, end)),
        end.0 == 0 && end.1 == 0 ==> (r matches Ok(p) && p.steps@ == Seq::<Vec2>::empty()),
        direct_run_ok(wall_lines@, end) ==> (r matches Ok(p) && p.steps@ == seq![end]),
        first_bee_fires(wall_lines@, end, hug_right) ==> (r matches Ok(p) && p.steps@
            == first_bee_steps(wall_lines@, end, hug_right)),
{
    // The degenerate case first: an end at the origin is already reached,
    // and an end whose straight run from the origin is clear needs no
    // hugging at all.
    if end.0 == 0 && end.1 == 0 {
        let path = WallFollowPath::new(vec2(0, 0));
        return Ok(path);
    }
    if end.0 == 0 || end.1 == 0 {
        let u = end.normalized();
        if box_clear_except(wall_lines, u, end, end) {
            let mut path = WallFollowPath::new(vec2(0, 0));
            path.add_step(end);
            proof {
                assert(path.steps@ == Seq::<Vec2>::empty().push(end));
                assert(path.steps@ =~= seq![end]);
                assert(path.steps@.take(0) =~= Seq::<Vec2>::empty());
                crate::path::lemma_take_succ(path.steps@, 0);
                assert(path.steps@.take(1) =~= path.steps@);
                assert(posn(path.start, path.steps@, 0) == (0int, 0int));
                assert(posn(path.start, path.steps@, 1) == pt(end));
                assert forall|px: int, py: int|
                    #[trigger] on_path(path.start, path.steps@, px, py) && on_wall(
                        wall_lines@,
                        px,
                        py,
                    ) implies (px == end.0 && py == end.1) || (px == 0 && py == 0) by {
                    if !(px == 0 && py == 0) {
                        assert(in_box(pt(u), pt(end), px, py));
                        let k = choose|k: int|
                            0 <= k < wall_lines@.len() && crate::geometry::seg_has(
                                wall_lines@[k],
                                px,
                                py,
                            );
                        assert(wall_clear(wall_lines@[k], pt(u), pt(end), pt(end)));
                    }
                }
                assert(vmag(end) <= 2 * (COORD_LIMIT as int));
            }
            return Ok(path);
        }
    }
    let first = wall_lines[0];
    let mut cursor: Vec2;
    let mut heading: Vec2;
    if hug_right {
        if first.end.0 > 0 {
            cursor = vec2(0, -1);
            heading = vec2(1, 0);
        } else {
            cursor = vec2(0, 1);
            heading = vec2(-1, 0);
        }
    } else {
        if first.end.0 < 0 {
            cursor = vec2(0, -1);
            heading = vec2(-1, 0);
        } else {
            cursor = vec2(0, 1);
            heading = vec2(1, 0);
        }
    }
    let mut path = WallFollowPath::new(cursor);
    let mut i: usize = 0;
    while i < wall_lines.len()
        invariant
            wall_wf(wall_lines@),
            1 <= wall_lines@.len() <= MAX_SEGMENTS,
            in_limit(pt(end)),
            !(end.0 == 0 && end.1 == 0),
            !direct_run_ok(wall_lines@, end),
            i == 0 ==> path.steps@ == Seq::<Vec2>::empty() && cursor == spec_anchor(
                wall_lines@,
                hug_right,
            ) && heading == spec_heading(wall_lines@, hug_right),
            i >= 1 ==> !first_bee_fires(wall_lines@, end, hug_right),
            0 <= i <= wall_lines@.len(),
            unit_dir(heading),
            cur_ok(cursor),
            vmag(path.start) == 1,
            path.start == spec_anchor(wall_lines@, hug_right),
            steps_wf(path.steps@),
            pt(cursor) == add2(pt(path.start), ssum(path.steps@)),
            trace_clear(wall_lines@, path.start, path.steps@, end),
            mags(path.steps@) <= 4398046511136 * (i as int),
        decreases wall_lines@.len() - i,
    {
        let hugged_wall = wall_lines[i];
        let side = if hug_right {
            heading.rotated_right()
        } else {
            heading.rotated_left()
        };
        let target = hugged_wall.end.add(heading).sub(side);
        let hit_candidate = target.sub(heading);
        let actually_hit = i + 1 < wall_lines.len() && wall_lines[i + 1].contains(hit_candidate);
        let last_bee_candidate = if actually_hit {
            hit_candidate.sub(heading)
        } else {
            target
        };

        proof {
            crate::path::lemma_mags_nonneg(path.steps@);
            lemma_budget(i as int, mags(path.steps@));
            if i == 0 {
                assert(hugged_wall == wall_lines@[0]);
                assert(last_bee_candidate == spec_last_bee(wall_lines@, hug_right));
            }
        }

        // Bee-line check: from a point of the known-safe run that shares
        // the end's row or column, go straight to the end.
        if cursor.0 == last_bee_candidate.0 || cursor.1 == last_bee_candidate.1 {
            let run = crate::geometry::segment(cursor, last_bee_candidate);
            let bee_row = run.point_with_y(end.1);
            proof {
                if i == 0 {
                    lemma_bee_row_matches(run, cursor, last_bee_candidate, end, bee_row);
                }
            }
            if let Some(bee_start) = bee_row {
                if box_clear_except(wall_lines, bee_start, end, end) {
                    proof {
                        if i == 0 {
                            assert(spec_first_bee(wall_lines@, end, hug_right) == Some(bee_start));
                            assert(cursor.0 == bee_start.0 || cursor.1 == bee_start.1);
                            assert(bee_start.0 == end.0 || bee_start.1 == end.1);
                        }
                    }
                    if let Err(e) = emit_step(&mut path, wall_lines, &mut cursor, bee_start, end) {
                        return Err(e);
                    }
                    if let Err(e) = emit_step(&mut path, wall_lines, &mut cursor, end, end) {
                        return Err(e);
                    }
                    return Ok(path);
                }
            }
            let bee_col = run.point_with_x(end.0);
            proof {
                if i == 0 {
                    lemma_bee_col_matches(run, cursor, last_bee_candidate, end, bee_col);
                }
            }
            if let Some(bee_start) = bee_col {
                if box_clear_except(wall_lines, bee_start, end, end) {
                    proof {
                        if i == 0 {
                            assert(spec_first_bee(wall_lines@, end, hug_right) == Some(bee_start));
                            assert(cursor.0 == bee_start.0 || cursor.1 == bee_start.1);
                            assert(bee_start.0 == end.0 || bee_start.1 == end.1);
                        }
                    }
                    if let Err(e) = emit_step(&mut path, wall_lines, &mut cursor, bee_start, end) {
                        return Err(e);
                    }
                    if let Err(e) = emit_step(&mut path, wall_lines, &mut cursor, end, end) {
                        return Err(e);
                    }
                    return Ok(path);
                }
            }
        } else {
            return Err(NavError::GeometryInvariantViolation);
        }
        proof {
            if i == 0 {
                assert(spec_first_bee(wall_lines@, end, hug_right) is None);
                assert(!first_bee_fires(wall_lines@, end, hug_right));
            }
        }

        if actually_hit {
            // Bump: the next wall segment blocks the run one step short of
            // the target; stop just before it and turn towards the wall.
            let q = hit_candidate.sub(heading);
            if let Err(e) = emit_step(&mut path, wall_lines, &mut cursor, q, end) {
                return Err(e);
            }
            if hug_right {
                heading.rotate_left();
            } else {
                heading.rotate_right();
            }
        } else {
            // Advance: run to the target beyond the hugged segment's far
            // end, turn away from the wall, and cross onto the next one.
            if let Err(e) = emit_step(&mut path, wall_lines, &mut cursor, target, end) {
                return Err(e);
            }
            if hug_right {
                heading.rotate_right();
            } else {
                heading.rotate_left();
            }
            let q2 = cursor.add(heading);
            if let Err(e) = emit_step(&mut path, wall_lines, &mut cursor, q2, end) {
                return Err(e);
            }
        }
        i += 1;
    }
    Err(NavError::TraversalExhausted)
}

/// Arithmetic facts about the step budget of a partial traversal: the
/// emitted length still leaves room for one more loop iteration.
proof fn lemma_budget(i: int, m: int)
    requires
        0 <= i <= MAX_SEGMENTS as int,
        0 <= m <= 4398046511136 * i,
    ensures
        m + 1 + 2 * (STEP_BUDGET as int) <= i64::MAX,
        m + 1 + 2 * (STEP_BUDGET as int) <= TOTAL_LIMIT,
        2 * (STEP_BUDGET as int) == 4398046511136,
{
    assert(4398046511136 * i <= 4398046511136 * (MAX_SEGMENTS as int));
    assert(STEP_BUDGET == 0x200_0000_0010);
}

/// The executable row query on the first run answers exactly as the
/// spec mirror `spec_bee_row` does.
proof fn lemma_bee_row_matches(
    run: Segment,
    anchor: Vec2,
    lb: Vec2,
    end: Vec2,
    bee_row: Option<Vec2>,
)
    requires
        run == (Segment { start: anchor, end: lb }),
        anchor.0 == lb.0 || anchor.1 == lb.1,
        bee_row matches Some(p) ==> crate::geometry::seg_has(run, p.0 as int, p.1 as int) && p.1
            == end.1,
        bee_row is None ==> forall|px: int|
            !crate::geometry::seg_has(run, px, end.1 as int),
        run.start.1 == run.end.1 ==> bee_row == (if run.start.1 == end.1 {
            Some(run.start)
        } else {
            None
        }),
        run.start.1 != run.end.1 ==> (bee_row matches Some(p) ==> p == Vec2(
            run.start.0,
            end.1,
        )),
    ensures
        bee_row == spec_bee_row(anchor, lb, end),
{
    if anchor.1 == lb.1 {
    } else {
        if bee_row is Some {
        } else {
            if spec_bee_row(anchor, lb, end) is Some {
                assert(crate::geometry::seg_has(run, anchor.0 as int, end.1 as int));
            }
        }
    }
}

/// The executable column query on the first run answers exactly as the
/// spec mirror `spec_bee_col` does.
proof fn lemma_bee_col_matches(
    run: Segment,
    anchor: Vec2,
    lb: Vec2,
    end: Vec2,
    bee_col: Option<Vec2>,
)
    requires
        run == (Segment { start: anchor, end: lb }),
        anchor.0 == lb.0 || anchor.1 == lb.1,
        bee_col matches Some(p) ==> crate::geometry::seg_has(run, p.0 as int, p.1 as int) && p.0
            == end.0,
        bee_col is None ==> forall|py: int|
            !crate::geometry::seg_has(run, end.0 as int, py),
        run.start.1 == run.end.1 ==> (bee_col matches Some(p) ==> p == Vec2(
            end.0,
            run.start.1,
        )),
        run.start.1 != run.end.1 ==> bee_col == (if run.start.0 == end.0 {
            Some(run.start)
        } else {
            None
        }),
    ensures
        bee_col == spec_bee_col(anchor, lb, end),
{
    if anchor.1 == lb.1 {
        if bee_col is Some {
        } else {
            if spec_bee_col(anchor, lb, end) is Some {
                assert(crate::geometry::seg_has(run, end.0 as int, anchor.1 as int));
            }
        }
    } else {
    }
}

/// Hugs the left side of the wall.
pub fn follow_left_wall(end: Vec2, wall_lines: &Vec<Segment>) -> (r: Result<
    WallFollowPath,
    NavError,
>)
    requires
        wall_wf(wall_lines@),
        1 <= wall_lines@.len() <= MAX_SEGMENTS,
        in_limit(pt(end)),
    ensures
        r matches Err(e) ==> (e == NavError::TraversalExhausted
            || e == NavError::GeometryInvariantViolation),
        r matches Ok(p) ==> {
            &&& steps_wf(p.steps@)
            &&& add2(pt(p.start), ssum(p.steps@)) == pt(end)
            &&& trace_clear_or_origin(wall_lines@, p.start, p.steps@, end)
            &&& vmag(p.start) <= 1
            &&& path_total(p) <= TOTAL_LIMIT
        },
        !((end.0 == 0 && end.1 == 0) || direct_run_ok(wall_lines@, end)) ==> (r matches Ok(p)
            ==> trace_clear(wall_lines@, p.start, p.steps@, end)),
        r matches Ok(p) ==> p.start == (if (end.0 == 0 && end.1 == 0) || direct_run_ok(
            wall_lines@,
            end,
        ) {
            Vec2(0i64, 0i64)
        } else {
            spec_anchor(wall_lines@, false)
        }),
        end.0 == 0 && end.1 == 0 ==> r is Ok,
        direct_run_ok(wall_lines@, end) ==> r is Ok,
        first_bee_fires(wall_lines@, end, false) ==> (r matches Ok(p) && p.steps@
            == first_bee_steps(wall_lines@, end, false)),
{
    follow_wall(end, wall_lines, false)
}

/// Hugs the right side of the wall.
pub fn follow_right_wall(end: Vec2, wall_lines: &Vec<Segment>) -> (r: Result<
    WallFollowPath,
    NavError,
>)
    requires
        wall_wf(wall_lines@),
        1 <= wall_lines@.len() <= MAX_SEGMENTS,
        in_limit(pt(end)),
    ensures
        r matches Err(e) ==> (e == NavError::TraversalExhausted
            || e == NavError::GeometryInvariantViolation),
        r matches Ok(p) ==> {
            &&& steps_wf(p.steps@)
            &&& add2(pt(p.start), ssum(p.steps@)) == pt(end)
            &&& trace_clear_or_origin(wall_lines@, p.start, p.steps@, end)
            &&& vmag(p.start) <= 1
            &&& path_total(p) <= TOTAL_LIMIT
        },
        !((end.0 == 0 && end.1 == 0) || direct_run_ok(wall_lines@, end)) ==> (r matches Ok(p)
            ==> trace_clear(wall_lines@, p.start, p.steps@, end)),
        r matches Ok(p) ==> p.start == (if (end.0 == 0 && end.1 == 0) || direct_run_ok(
            wall_lines@,
            end,
        ) {
            Vec2(0i64, 0i64)
        } else {
            spec_anchor(wall_lines@, true)
        }),
        end.0 == 0 && end.1 == 0 ==> r is Ok,
        direct_run_ok(wall_lines@, end) ==> r is Ok,
        first_bee_fires(wall_lines@, end, true) ==> (r matches Ok(p) && p.steps@
            == first_bee_steps(wall_lines@, end, true)),
{
    follow_wall(end, wall_lines, true)
}

} // verus!
