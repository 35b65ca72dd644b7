//! Tests for the wall-maze navigator: geometry primitives, the wall
//! model, the traversal, the reducer and the reference search.

use quests::NavError;
use quests::geometry::{Vec2, Segment, vec2, segment};
use quests::hug::{follow_left_wall, follow_right_wall};
use quests::path::WallFollowPath;
use quests::quest15::{navigate, do_solve, solve_part1, solve_part2, solve_part3};
use quests::reduce::reduce_steps;
use quests::search::reference_search;
use quests::wall::{Instruction, Turn, WallModel};

fn instrs(spec: &[(char, i64)]) -> Vec<Instruction> {
    spec.iter()
        .map(|&(t, dist)| Instruction {
            turn: if t == 'R' { Turn::Right } else { Turn::Left },
            dist,
        })
        .collect()
}

#[test]
fn test_rotate_frame() {
    let up = Vec2(0, -1);
    let right = Vec2(1, 0);
    let down = Vec2(0, 1);
    let left = Vec2(-1, 0);

    let mut v = up;
    v.rotate_right();
    assert_eq!(v, right);
    v.rotate_right();
    assert_eq!(v, down);
    v.rotate_right();
    assert_eq!(v, left);
    v.rotate_right();
    assert_eq!(v, up);

    let mut v = up;
    v.rotate_left();
    assert_eq!(v, left);
    v.rotate_left();
    assert_eq!(v, down);
    v.rotate_left();
    assert_eq!(v, right);
    v.rotate_left();
    assert_eq!(v, up);
}

#[test]
fn vector_operations() {
    let v = vec2(3, -4);
    assert_eq!(v.add(vec2(1, 1)), Vec2(4, -3));
    assert_eq!(v.sub(vec2(1, 1)), Vec2(2, -5));
    assert_eq!(v.mul(2), Vec2(6, -8));
    assert_eq!(v.mag(), 7);
    assert_eq!(v.dist(&vec2(0, 0)), 7);
    assert!(vec2(2, 0).is_horizontal());
    assert!(vec2(0, 2).is_vertical());
    assert!(vec2(2, 0).same_dir(vec2(-1, 0)));
    assert!(!vec2(2, 0).same_dir(vec2(0, 1)));
    assert_eq!(vec2(-5, 0).normalized(), Vec2(-1, 0));
    assert!(vec2(0, 0).is_zero());
    assert_eq!(vec2(0, -3).rotated_right(), Vec2(3, 0));
    assert_eq!(vec2(0, -3).rotated_left(), Vec2(-3, 0));
}

#[test]
fn segment_queries() {
    let h = segment(vec2(0, 0), vec2(4, 0));
    let v = segment(vec2(2, -2), vec2(2, 2));
    assert!(h.contains(vec2(2, 0)));
    assert!(!h.contains(vec2(5, 0)));
    assert!(!h.contains(vec2(2, 1)));
    assert_eq!(h.intersection(&v), Some(Vec2(2, 0)));
    assert_eq!(v.intersection(&h), Some(Vec2(2, 0)));
    let h2 = segment(vec2(3, 0), vec2(9, 0));
    assert_eq!(h.intersection(&h2), Some(Vec2(3, 0)));
    let far = segment(vec2(0, 5), vec2(9, 5));
    assert_eq!(h.intersection(&far), None);
    let walls = vec![v, far];
    assert!(h.intersects_any(&walls));
    assert!(!segment(vec2(0, 1), vec2(1, 1)).intersects_any(&walls[1..]));
    assert!(segment(vec2(0, 1), vec2(1, 1)).intersects_none(&walls[1..]));
    assert_eq!(h.point_with_x(3), Some(Vec2(3, 0)));
    assert_eq!(h.point_with_x(7), None);
    assert_eq!(v.point_with_y(1), Some(Vec2(2, 1)));
    assert_eq!(v.point_with_y(4), None);
}

#[test]
fn wall_build_rejects_bad_instructions() {
    // A zero-length walk is a malformed wall.
    let bad = instrs(&[('R', 3), ('R', 0)]);
    assert!(matches!(WallModel::build(&bad), Err(NavError::MalformedWallSpec)));
    // So is an empty instruction list, at the navigator level.
    assert_eq!(do_solve(&Vec::new(), false), Err(NavError::MalformedWallSpec));
}

#[test]
fn wall_build_replays_instructions() {
    let w = WallModel::build(&instrs(&[('R', 3), ('R', 2)])).unwrap();
    assert_eq!(w.segments.len(), 2);
    assert_eq!(w.segments[0].start, Vec2(0, 0));
    assert_eq!(w.segments[0].end, Vec2(3, 0));
    assert_eq!(w.segments[1].end, Vec2(3, 2));
    assert_eq!(w.end, Vec2(3, 2));
}

// The end shares a row with the start and no wall cell lies between
// them: the traversal terminates via the bee-line check after exactly
// two emitted steps.
#[test]
fn beeline_terminates_in_two_steps() {
    let w = WallModel::build(&instrs(&[('R', 3)])).unwrap();
    let path = follow_left_wall(w.end, &w.segments).unwrap();
    assert_eq!(path.steps.len(), 2);
    assert_eq!(path.total(), 5);
    let reduced = reduce_steps(&w.segments, path);
    assert_eq!(reduced.total(), 5);
    // The whole pipeline is pinned for a firing first bee-line.
    assert_eq!(solve_part1(&instrs(&[('R', 3)])), Ok(5));
}

// A concave corner ahead forces the bump branch: the cursor stops one
// cell short of the next wall and turns towards it.
#[test]
fn bump_branch_fires_on_concave_corner() {
    let w = WallModel::build(&instrs(&[('R', 4), ('R', 4)])).unwrap();
    let path = follow_left_wall(w.end, &w.segments).unwrap();
    // The bump emits the straight run to (3, 1); the bee-line then
    // finishes towards the end at (4, 4).
    assert_eq!(path.steps, vec![Vec2(3, 0), Vec2(0, 3), Vec2(1, 0)]);
    let reduced = reduce_steps(&w.segments, path);
    assert_eq!(reduced.total(), 8);
}

// The reducer merges a three-step detour into one step, cutting the
// length by exactly twice the detour's depth.
#[test]
fn reducer_merges_detours() {
    let walls = vec![segment(vec2(100, 100), vec2(101, 100))];
    let path = WallFollowPath {
        start: vec2(0, 1),
        steps: vec![Vec2(2, 0), Vec2(0, 2), Vec2(-2, 0)],
    };
    assert_eq!(path.total(), 7);
    let reduced = reduce_steps(&walls, path);
    assert_eq!(reduced.steps, vec![Vec2(0, 2)]);
    assert_eq!(reduced.total(), 3);
}

// Running the reducer on its own output changes nothing.
#[test]
fn reducer_is_idempotent() {
    let walls = vec![segment(vec2(100, 100), vec2(101, 100))];
    let path = WallFollowPath {
        start: vec2(0, 1),
        steps: vec![Vec2(5, 0), Vec2(0, 2), Vec2(-2, 0), Vec2(0, 1)],
    };
    let once = reduce_steps(&walls, path);
    let steps_once = once.steps.clone();
    let twice = reduce_steps(&walls, once);
    assert_eq!(twice.steps, steps_once);
}

// A wall with a notch: the left hug dips around the notch while the
// exact search crosses over the boundary's other side.  Hugging one side
// is provably no worse than direct hugging, but not globally optimal for
// every wall; the reducer never makes the path longer.
#[test]
fn hugging_a_notch_is_not_globally_optimal() {
    let spec = instrs(&[('R', 2), ('R', 2), ('L', 2), ('L', 2), ('R', 2)]);
    let w = WallModel::build(&spec).unwrap();
    let hugged = follow_left_wall(w.end, &w.segments).unwrap();
    assert_eq!(hugged.total(), 12);
    let reduced = reduce_steps(&w.segments, hugged);
    assert_eq!(reduced.total(), 12);
    let opt = reference_search(&w.segments, vec2(0, 0), w.end, -20, 20, -20, 20).unwrap();
    assert_eq!(opt, 8);
}

// On small boxes the reduced length matches the exact reference search.
#[test]
fn reduced_length_matches_reference_search() {
    for spec in [vec![('R', 3)], vec![('R', 4), ('R', 4)], vec![('R', 6), ('R', 3), ('R', 2)]] {
        let w = WallModel::build(&instrs(&spec)).unwrap();
        let (_, reduced) = navigate(&instrs(&spec), false).unwrap();
        let opt = reference_search(&w.segments, vec2(0, 0), w.end, -20, 20, -20, 20).unwrap();
        assert_eq!(reduced.total() as u64, opt, "walls {spec:?}");
    }
}

// The degenerate one-by-one box replays back to the origin: the end is
// the start itself, so the answer is the direct Manhattan distance of
// zero, with no detour steps emitted.
#[test]
fn degenerate_box_costs_nothing() {
    let spec = instrs(&[('R', 1), ('R', 1), ('R', 1), ('R', 1)]);
    let (wall, path) = navigate(&spec, false).unwrap();
    assert_eq!(wall.end, Vec2(0, 0));
    assert_eq!(path.steps.len(), 0);
    assert_eq!(do_solve(&spec, false), Ok(0));
    assert_eq!(do_solve(&spec, true), Ok(0));
}

// An end on the origin's column with a clear straight run is answered
// directly, before any anchoring: one step, the exact distance.
#[test]
fn clear_straight_run_is_answered_directly() {
    // The wall runs east then further east; the end sits at (6, 0)...
    // that run lies on the wall.  Use a wall that turns away: east 3,
    // then up 4 (negative y), ending at (3, -4): not aligned with the
    // origin.  A wall going east 3 then north 4 then west 3 ends at
    // (0, -4), straight up the origin's column and clear of the wall.
    let spec = instrs(&[('R', 3), ('L', 4), ('L', 3)]);
    let (wall, path) = navigate(&spec, false).unwrap();
    assert_eq!(wall.end, Vec2(0, -4));
    assert_eq!(path.steps, vec![Vec2(0, -4)]);
    assert_eq!(do_solve(&spec, false), Ok(4));
}

#[test]
fn both_hands_reach_the_end() {
    let w = WallModel::build(&instrs(&[('R', 4), ('R', 4)])).unwrap();
    let left = follow_left_wall(w.end, &w.segments).unwrap();
    let right = follow_right_wall(w.end, &w.segments).unwrap();
    let sum = |p: &WallFollowPath| {
        let mut c = p.start;
        for s in p.steps.iter() {
            c = c.add(*s);
        }
        c
    };
    assert_eq!(sum(&left), w.end);
    assert_eq!(sum(&right), w.end);
}

#[test]
fn solver_parts_agree_on_simple_wall() {
    let spec = instrs(&[('R', 6), ('R', 3), ('R', 2)]);
    let p1 = solve_part1(&spec).unwrap();
    let p2 = solve_part2(&spec).unwrap();
    assert_eq!(p1, p2);
    // The right hug may take another route but also reaches the end.
    assert!(solve_part3(&spec).is_ok());
}

#[test]
fn reference_search_finds_trivial_distances() {
    let w = WallModel::build(&instrs(&[('R', 3)])).unwrap();
    // From the start to itself.
    assert_eq!(
        reference_search(&w.segments, vec2(0, 0), vec2(0, 0), -5, 5, -5, 5),
        Some(0)
    );
    // An unreachable point outside the box.
    assert_eq!(
        reference_search(&w.segments, vec2(0, 0), vec2(40, 0), -5, 5, -5, 5),
        None
    );
}
