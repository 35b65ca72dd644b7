//! The wall model: an immutable ordered list of connected axis-aligned
//! segments, built once by replaying turn/distance instructions from the
//! fixed initial heading, and never mutated afterwards.  The final corner
//! is the navigation target `end`.

use vstd::prelude::*;

use crate::NavError;
use crate::geometry::{Vec2, Segment, seg_wf};
use crate::path::{pt, add2, COORD_LIMIT};

verus! {

/// A turn of the boundary, relative to the current heading.
#[derive(Clone, Copy, PartialEq, Eq, Structural, Debug)]
pub enum Turn {
    Left,
    Right,
}

/// One boundary instruction: turn, then walk `dist` cells.
#[derive(Clone, Copy, PartialEq, Eq, Structural, Debug)]
pub struct Instruction {
    pub turn: Turn,
    pub dist: i64,
}

/// One of the four axis-aligned unit headings.
pub open spec fn unit_dir(v: Vec2) -> bool {
    ||| v == Vec2(1i64, 0i64)
    ||| v == Vec2(-1i64, 0i64)
    ||| v == Vec2(0i64, 1i64)
    ||| v == Vec2(0i64, -1i64)
}

/// The heading after applying one turn.
pub open spec fn turn_dir(d: Vec2, t: Turn) -> Vec2 {
    match t {
        Turn::Right => Vec2((-(d.1 as int)) as i64, d.0),
        Turn::Left => Vec2(d.1, (-(d.0 as int)) as i64),
    }
}

/// The heading after the first `i` instructions, starting from the fixed
/// initial heading (0, -1).
pub open spec fn spec_dir(instrs: Seq<Instruction>, i: int) -> Vec2
    decreases i,
{
    if i <= 0 {
        Vec2(0i64, -1i64)
    } else {
        turn_dir(spec_dir(instrs, i - 1), instrs[i - 1].turn)
    }
}

/// Scaling of an integer pair.
pub open spec fn mul2(a: (int, int), k: int) -> (int, int) {
    (a.0 * k, a.1 * k)
}

/// The boundary corner reached after the first `i` instructions,
/// starting from the origin.
pub open spec fn spec_corner(instrs: Seq<Instruction>, i: int) -> (int, int)
    decreases i,
{
    if i <= 0 {
        (0, 0)
    } else {
        add2(
            spec_corner(instrs, i - 1),
            mul2(pt(spec_dir(instrs, i)), instrs[i - 1].dist as int),
        )
    }
}

/// The point lies within the coordinate limit on both axes.
pub open spec fn in_limit(p: (int, int)) -> bool {
    -(COORD_LIMIT as int) <= p.0 <= COORD_LIMIT as int && -(COORD_LIMIT as int) <= p.1
        <= COORD_LIMIT as int
}

/// The instructions describe a wall the navigator can work with: every
/// walk is at least one cell long and every corner stays within the
/// coordinate limit.
pub open spec fn wall_spec_ok(instrs: Seq<Instruction>) -> bool {
    &&& forall|i: int| 0 <= i < instrs.len() ==> (#[trigger] instrs[i]).dist >= 1
    &&& forall|i: int| 0 <= i <= instrs.len() ==> in_limit(#[trigger] spec_corner(instrs, i))
}

/// A wall segment list is well formed: every segment is axis-aligned,
/// within the coordinate limit, and of nonzero length.
pub open spec fn wall_wf(segs: Seq<Segment>) -> bool {
    forall|k: int|
        0 <= k < segs.len() ==> seg_wf(#[trigger] segs[k]) && in_limit(pt(segs[k].start))
            && in_limit(pt(segs[k].end)) && segs[k].start != segs[k].end
}

/// Every heading reached by replaying instructions is a unit heading.
pub proof fn lemma_dir_unit(instrs: Seq<Instruction>, i: int)
    ensures
        unit_dir(spec_dir(instrs, i)),
    decreases i,
{
    if i > 0 {
        lemma_dir_unit(instrs, i - 1);
    }
}

/// The wall: an ordered, immutable sequence of connected segments.
pub struct WallModel {
    pub segments: Vec<Segment>,
    pub end: Vec2,
}

impl WallModel {
    /// Replays the instructions from the initial heading, emitting one
    /// segment each and accumulating the final corner `end`.  Fails with
    /// `MalformedWallSpec` exactly when some walk is shorter than one
    /// cell or some corner leaves the coordinate limit.
    pub fn build(instructions: &Vec<Instruction>) -> (r: Result<WallModel, NavError>)
        ensures
            r.is_ok() == wall_spec_ok(instructions@),
            r matches Err(e) ==> e == NavError::MalformedWallSpec,
            r matches Ok(w) ==> {
                &&& w.segments@.len() == instructions@.len()
                &&& forall|i: int|
                    0 <= i < instructions@.len() ==> pt(#[trigger] w.segments@[i].start)
                        == spec_corner(instructions@, i) && pt(w.segments@[i].end) == spec_corner(
                        instructions@,
                        i + 1,
                    )
                &&& pt(w.end) == spec_corner(instructions@, instructions@.len() as int)
                &&& wall_wf(w.segments@)
            },
    {
        let mut dir = Vec2(0, -1);
        let mut end = Vec2(0, 0);
        let mut segments: Vec<Segment> = Vec::new();
        let mut i: usize = 0;
        while i < instructions.len()
            invariant
                0 <= i <= instructions@.len(),
                segments@.len() == i,
                dir == spec_dir(instructions@, i as int),
                unit_dir(dir),
                pt(end) == spec_corner(instructions@, i as int),
                in_limit(pt(end)),
                forall|j: int| 0 <= j < i ==> (#[trigger] instructions@[j]).dist >= 1,
                forall|j: int| 0 <= j <= i ==> in_limit(#[trigger] spec_corner(instructions@, j)),
                forall|j: int|
                    0 <= j < i ==> pt(#[trigger] segments@[j].start) == spec_corner(instructions@, j)
                        && pt(segments@[j].end) == spec_corner(instructions@, j + 1),
                wall_wf(segments@),
            decreases instructions@.len() - i,
        {
            let inst = instructions[i];
            let n = inst.dist;
            if n < 1 {
                proof {
                    assert((instructions@[i as int]).dist < 1);
                    assert(!wall_spec_ok(instructions@));
                }
                return Err(NavError::MalformedWallSpec);
            }
            match inst.turn {
                Turn::Right => dir.rotate_right(),
                Turn::Left => dir.rotate_left(),
            }
            proof {
                assert(dir == spec_dir(instructions@, i + 1));
            }
            if n > 2 * COORD_LIMIT {
                proof {
                    let c = spec_corner(instructions@, i as int);
                    let nxt = spec_corner(instructions@, i + 1);
                    assert(nxt == add2(c, mul2(pt(dir), n as int)));
                    assert((1 as int) * (n as int) == n && ((-1) as int) * (n as int) == -(n as int)
                        && (0 as int) * (n as int) == 0) by (nonlinear_arith);
                    assert(!in_limit(nxt));
                    assert(!wall_spec_ok(instructions@));
                }
                return Err(NavError::MalformedWallSpec);
            }
            let delta = dir.mul(n);
            let new_end = end.add(delta);
            if new_end.0 < -COORD_LIMIT || new_end.0 > COORD_LIMIT || new_end.1 < -COORD_LIMIT
                || new_end.1 > COORD_LIMIT {
                proof {
                    assert(pt(new_end) == spec_corner(instructions@, i + 1));
                    assert(!in_limit(spec_corner(instructions@, i + 1)));
                    assert(!wall_spec_ok(instructions@));
                }
                return Err(NavError::MalformedWallSpec);
            }
            let seg = Segment { start: end, end: new_end };
            segments.push(seg);
            end = new_end;
            i += 1;
        }
        Ok(WallModel { segments, end })
    }
}

} // verus!
