//! The path reducer: a fixpoint local-rewrite pass over 3-step windows
//! `[A, B, C]` (A and C share an axis by the alternation invariant).
//!
//! Two rewrites apply, in priority order and always at the first
//! applicable window: *reorder-merge* (travelling C directly after A
//! stays outside the wall, so C merges into A and the relocated B merges
//! with its former successor) and *shift-shorten* (unit steps move from
//! A's tail into C while every displaced run stays outside the wall and
//! the combined length of A and C strictly shrinks).  Zero steps created
//! by a merge are removed on the spot, so the step list stays well
//! formed.  Each accepted rewrite strictly shrinks the pair (total
//! length, step count), which proves the fixpoint loop terminates.

use vstd::prelude::*;

use crate::geometry::{Vec2, Segment, seg_wf, segs_meet, seg_has, vmag, same_axis, sgn, step_ok, horiz, segment};
use crate::path::{
    WallFollowPath,
    steps_wf,
    ssum,
    mags,
    add2,
    pt,
    posn,
    on_path,
    on_wall,
    in_box,
    step_no_touch,
    push_merge,
    lemma_take_succ,
    lemma_mags_take_le,
    lemma_mags_nonneg,
    lemma_ssum_concat,
    lemma_pos_bound,
    lemma_ssum_mag,
    lemma_step_le,
    COORD_LIMIT,
    TOTAL_LIMIT,
};

verus! {

/// The unit step along a step's own axis.
pub open spec fn unit_of(v: Vec2) -> Vec2 {
    Vec2(sgn(v.0 as int) as i64, sgn(v.1 as int) as i64)
}

/// The reorder-merge rewrite applies at window `i`: with the cursor
/// placed after A, travelling C first and then B touches no wall.
pub open spec fn reorder_applicable(
    walls: Seq<Segment>,
    anchor: Vec2,
    steps: Seq<Vec2>,
    i: int,
) -> bool {
    let c = posn(anchor, steps, i + 1);
    let cw2 = add2(c, pt(steps[i + 2]));
    step_no_touch(walls, c, cw2) && step_no_touch(walls, cw2, add2(cw2, pt(steps[i + 1])))
}

/// The shift-shorten rewrite applies at window `i`: A and C run in
/// opposite directions along their shared axis, both longer than one
/// cell, and moving one unit step from A's tail into C keeps all three
/// displaced runs away from the wall.  Such a transfer shortens the
/// total length by exactly two.
pub open spec fn shift_applicable(
    walls: Seq<Segment>,
    anchor: Vec2,
    steps: Seq<Vec2>,
    i: int,
) -> bool {
    let c1 = posn(anchor, steps, i);
    let fst = steps[i];
    let snd = steps[i + 1];
    let trd = steps[i + 2];
    let u = unit_of(fst);
    let p1 = (c1.0 + fst.0 - u.0, c1.1 + fst.1 - u.1);
    let p2 = (p1.0 + snd.0, p1.1 + snd.1);
    let p3 = (p2.0 + trd.0 + u.0, p2.1 + trd.1 + u.1);
    &&& vmag(fst) > 1
    &&& vmag(trd) > 1
    &&& same_axis(fst, trd)
    &&& sgn(fst.0 as int) == -sgn(trd.0 as int)
    &&& sgn(fst.1 as int) == -sgn(trd.1 as int)
    &&& step_no_touch(walls, c1, p1)
    &&& step_no_touch(walls, p1, p2)
    &&& step_no_touch(walls, p2, p3)
}

/// No rewrite applies anywhere: the path is a fixpoint of the reducer.
pub open spec fn is_reduced(walls: Seq<Segment>, anchor: Vec2, steps: Seq<Vec2>) -> bool {
    &&& forall|i: int|
        0 <= i < steps.len() - 2 ==> !(#[trigger] reorder_applicable(walls, anchor, steps, i))
    &&& forall|i: int|
        0 <= i < steps.len() - 2 ==> !(#[trigger] shift_applicable(walls, anchor, steps, i))
}


/// Sum and length of a three-step window.
proof fn lemma_ssum3(a: Vec2, b: Vec2, c: Vec2)
    ensures
        ssum(seq![a, b, c]) == (a.0 + b.0 + c.0, a.1 + b.1 + c.1),
        mags(seq![a, b, c]) == vmag(a) + vmag(b) + vmag(c),
{
    let s3 = seq![a, b, c];
    let s2 = seq![a, b];
    let s1 = seq![a];
    let s0 = Seq::<Vec2>::empty();
    assert(s3.drop_last() =~= s2);
    assert(s2.drop_last() =~= s1);
    assert(s1.drop_last() =~= s0);
    assert(s3.last() == c && s2.last() == b && s1.last() == a);
    assert(ssum(s0) == (0int, 0int) && mags(s0) == 0);
    assert(ssum(s1) == add2(ssum(s0), pt(a)) && mags(s1) == mags(s0) + vmag(a));
    assert(ssum(s2) == add2(ssum(s1), pt(b)) && mags(s2) == mags(s1) + vmag(b));
    assert(ssum(s3) == add2(ssum(s2), pt(c)) && mags(s3) == mags(s2) + vmag(c));
}

/// A point traced by a prefix of a path is traced by the whole path.
proof fn lemma_on_path_prefix(anchor: Vec2, s: Seq<Vec2>, m: int, px: int, py: int)
    requires
        0 <= m <= s.len(),
        on_path(anchor, s.take(m), px, py),
    ensures
        on_path(anchor, s, px, py),
{
    let pre = s.take(m);
    let j = choose|j: int|
        0 <= j < pre.len() && #[trigger] in_box(
            posn(anchor, pre, j),
            posn(anchor, pre, j + 1),
            px,
            py,
        );
    assert(pre.take(j) =~= s.take(j));
    assert(pre.take(j + 1) =~= s.take(j + 1));
    assert(in_box(posn(anchor, s, j), posn(anchor, s, j + 1), px, py));
}

/// A point of a box that touches no wall cannot lie on a wall.
proof fn lemma_box_off_wall(
    walls: Seq<Segment>,
    a: (int, int),
    b: (int, int),
    px: int,
    py: int,
)
    requires
        step_no_touch(walls, a, b),
        -0x7000_0000_0000_0000 <= a.0 <= 0x7000_0000_0000_0000,
        -0x7000_0000_0000_0000 <= a.1 <= 0x7000_0000_0000_0000,
        -0x7000_0000_0000_0000 <= b.0 <= 0x7000_0000_0000_0000,
        -0x7000_0000_0000_0000 <= b.1 <= 0x7000_0000_0000_0000,
    ensures
        in_box(a, b, px, py) ==> !on_wall(walls, px, py),
{
    if in_box(a, b, px, py) && on_wall(walls, px, py) {
        let k = choose|k: int| 0 <= k < walls.len() && #[trigger] seg_has(walls[k], px, py);
        let sab = Segment {
            start: Vec2(a.0 as i64, a.1 as i64),
            end: Vec2(b.0 as i64, b.1 as i64),
        };
        assert(seg_has(sab, px, py));
        crate::geometry::lemma_segs_meet_iff(sab, walls[k]);
        assert(segs_meet(sab, walls[k]));
    }
}

/// Replacing the steps at `i` and `i + 2` with steps of the same combined
/// displacement moves no cursor position outside the window.
proof fn lemma_posn_update2(anchor: Vec2, olds: Seq<Vec2>, news: Seq<Vec2>, i: int)
    requires
        0 <= i,
        i + 2 < olds.len(),
        news.len() == olds.len(),
        forall|j: int| 0 <= j < olds.len() && j != i && j != i + 2 ==> news[j] == olds[j],
        news[i].0 + news[i + 2].0 == olds[i].0 + olds[i + 2].0,
        news[i].1 + news[i + 2].1 == olds[i].1 + olds[i + 2].1,
    ensures
        ssum(news) == ssum(olds),
        mags(news) == mags(olds) - vmag(olds[i]) - vmag(olds[i + 2]) + vmag(news[i]) + vmag(
            news[i + 2],
        ),
        forall|j: int|
            0 <= j <= i || i + 3 <= j <= news.len() ==> #[trigger] posn(anchor, news, j) == posn(
                anchor,
                olds,
                j,
            ),
{
    assert forall|j: int|
        0 <= j <= i || i + 3 <= j <= news.len() implies #[trigger] posn(anchor, news, j) == posn(
        anchor,
        olds,
        j,
    ) by {
        if j <= i {
            assert(news.take(j) =~= olds.take(j));
        } else {
            assert(news.take(j) =~= news.take(i) + seq![news[i], news[i + 1], news[i + 2]]
                + news.subrange(i + 3, j));
            assert(olds.take(j) =~= olds.take(i) + seq![olds[i], olds[i + 1], olds[i + 2]]
                + olds.subrange(i + 3, j));
            assert(news.take(i) =~= olds.take(i));
            assert(news.subrange(i + 3, j) =~= olds.subrange(i + 3, j));
            lemma_ssum_concat(
                news.take(i) + seq![news[i], news[i + 1], news[i + 2]],
                news.subrange(i + 3, j),
            );
            lemma_ssum_concat(news.take(i), seq![news[i], news[i + 1], news[i + 2]]);
            lemma_ssum_concat(
                olds.take(i) + seq![olds[i], olds[i + 1], olds[i + 2]],
                olds.subrange(i + 3, j),
            );
            lemma_ssum_concat(olds.take(i), seq![olds[i], olds[i + 1], olds[i + 2]]);
            lemma_ssum3(news[i], news[i + 1], news[i + 2]);
            lemma_ssum3(olds[i], olds[i + 1], olds[i + 2]);
        }
    }
    let l = olds.len() as int;
    assert(news.take(l) =~= news.take(i) + seq![news[i], news[i + 1], news[i + 2]] + news.subrange(
        i + 3,
        l,
    ));
    assert(olds.take(l) =~= olds.take(i) + seq![olds[i], olds[i + 1], olds[i + 2]] + olds.subrange(
        i + 3,
        l,
    ));
    assert(news.take(i) =~= olds.take(i));
    assert(news.subrange(i + 3, l) =~= olds.subrange(i + 3, l));
    lemma_ssum_concat(
        news.take(i) + seq![news[i], news[i + 1], news[i + 2]],
        news.subrange(i + 3, l),
    );
    lemma_ssum_concat(news.take(i), seq![news[i], news[i + 1], news[i + 2]]);
    lemma_ssum_concat(
        olds.take(i) + seq![olds[i], olds[i + 1], olds[i + 2]],
        olds.subrange(i + 3, l),
    );
    lemma_ssum_concat(olds.take(i), seq![olds[i], olds[i + 1], olds[i + 2]]);
    lemma_ssum3(news[i], news[i + 1], news[i + 2]);
    lemma_ssum3(olds[i], olds[i + 1], olds[i + 2]);
    assert(news.take(l) =~= news);
    assert(olds.take(l) =~= olds);
}

/// Moves one unit step from A's tail into C.  The three displaced runs
/// were checked against the wall, so the new trace touches the wall only
/// where the old one did; the total length shrinks by exactly two.
#[verifier::rlimit(100)]
fn do_transfer(
    steps: &mut Vec<Vec2>,
    i: usize,
    Ghost(walls): Ghost<Seq<Segment>>,
    Ghost(anchor): Ghost<Vec2>,
)
    requires
        steps_wf(old(steps)@),
        i + 2 < old(steps)@.len(),
        vmag(anchor) <= COORD_LIMIT,
        mags(old(steps)@) <= TOTAL_LIMIT,
        shift_applicable(walls, anchor, old(steps)@, i as int),
    ensures
        steps_wf(final(steps)@),
        final(steps)@.len() == old(steps)@.len(),
        ssum(final(steps)@) == ssum(old(steps)@),
        mags(final(steps)@) == mags(old(steps)@) - 2,
        forall|j: int|
            0 <= j <= i || i + 3 <= j <= final(steps)@.len() ==> #[trigger] posn(
                anchor,
                final(steps)@,
                j,
            ) == posn(anchor, old(steps)@, j),
        forall|px: int, py: int|
            #[trigger] on_path(anchor, final(steps)@, px, py) && on_wall(walls, px, py)
                ==> on_path(anchor, old(steps)@, px, py),
{
    let ghost olds = steps@;
    let n = steps.len();
    proof {
        lemma_mags_nonneg(olds);
        lemma_step_le(olds, i as int);
        lemma_step_le(olds, i as int + 1);
        lemma_step_le(olds, i as int + 2);
        lemma_pos_bound(anchor, olds, i as int);
    }
    let f = steps[i];
    let t = steps[i + 2];
    let u = f.normalized();
    let f2 = f.sub(u);
    let t2 = t.add(u);
    steps.set(i, f2);
    steps.set(i + 2, t2);
    proof {
        let news = steps@;
        assert(vmag(f2) == vmag(f) - 1 && vmag(t2) == vmag(t) - 1 && step_ok(f2) && step_ok(t2)
            && same_axis(f, f2) && same_axis(t, t2)) by {
            if horiz(f) {
                assert(u == Vec2(1i64, 0i64) || u == Vec2(-1i64, 0i64));
            } else {
                assert(u == Vec2(0i64, 1i64) || u == Vec2(0i64, -1i64));
            }
        }
        assert(steps_wf(news)) by {
            assert forall|j: int| 0 <= j < news.len() implies step_ok(#[trigger] news[j]) by {
                if j != i && j != i + 2 {
                    assert(news[j] == olds[j]);
                }
            }
            assert forall|j: int|
                0 <= j < news.len() - 1 implies !same_axis(#[trigger] news[j], news[j + 1]) by {
                assert(!same_axis(olds[j], olds[j + 1]));
            }
        }
        lemma_posn_update2(anchor, olds, news, i as int);
        let c1 = posn(anchor, olds, i as int);
        let fst = olds[i as int];
        let snd = olds[i as int + 1];
        let trd = olds[i as int + 2];
        let p1 = (c1.0 + fst.0 - u.0, c1.1 + fst.1 - u.1);
        let p2 = (p1.0 + snd.0, p1.1 + snd.1);
        let p3 = (p2.0 + trd.0 + u.0, p2.1 + trd.1 + u.1);
        assert forall|px: int, py: int|
            #[trigger] on_path(anchor, news, px, py) && on_wall(walls, px, py) implies on_path(
            anchor,
            olds,
            px,
            py,
        ) by {
            let j = choose|j: int|
                0 <= j < news.len() && #[trigger] in_box(
                    posn(anchor, news, j),
                    posn(anchor, news, j + 1),
                    px,
                    py,
                );
            lemma_pos_bound(anchor, olds, i as int);
            lemma_mags_nonneg(olds);
            lemma_step_le(olds, i as int);
            lemma_step_le(olds, i as int + 1);
            lemma_step_le(olds, i as int + 2);
            if j < i {
                assert(posn(anchor, news, j) == posn(anchor, olds, j));
                assert(posn(anchor, news, j + 1) == posn(anchor, olds, j + 1));
            } else if j == i {
                lemma_take_succ(news, i as int);
                assert(posn(anchor, news, i as int) == c1);
                assert(posn(anchor, news, i as int + 1) == p1);
                lemma_box_off_wall(walls, c1, p1, px, py);
            } else if j == i + 1 {
                lemma_take_succ(news, i as int);
                lemma_take_succ(news, i as int + 1);
                assert(posn(anchor, news, i as int) == c1);
                assert(posn(anchor, news, i as int + 1) == p1);
                assert(posn(anchor, news, i as int + 2) == p2);
                lemma_box_off_wall(walls, p1, p2, px, py);
            } else if j == i + 2 {
                lemma_take_succ(news, i as int);
                lemma_take_succ(news, i as int + 1);
                lemma_take_succ(news, i as int + 2);
                assert(posn(anchor, news, i as int) == c1);
                assert(posn(anchor, news, i as int + 1) == p1);
                assert(posn(anchor, news, i as int + 2) == p2);
                assert(posn(anchor, news, i as int + 3) == p3);
                lemma_box_off_wall(walls, p2, p3, px, py);
            } else {
                assert(posn(anchor, news, j) == posn(anchor, olds, j));
                assert(posn(anchor, news, j + 1) == posn(anchor, olds, j + 1));
            }
        }
    }
}

/// Applies the shift-shorten rewrite at window `i`: the largest
/// beneficial transfer is taken before the caller re-scans.
fn apply_shift(
    wall_lines: &[Segment],
    steps: &mut Vec<Vec2>,
    i: usize,
    c1: Vec2,
    Ghost(anchor): Ghost<Vec2>,
)
    requires
        forall|k: int| 0 <= k < wall_lines@.len() ==> seg_wf(#[trigger] wall_lines@[k]),
        steps_wf(old(steps)@),
        i + 2 < old(steps)@.len(),
        vmag(anchor) <= COORD_LIMIT,
        mags(old(steps)@) <= TOTAL_LIMIT,
        pt(c1) == posn(anchor, old(steps)@, i as int),
        shift_applicable(wall_lines@, anchor, old(steps)@, i as int),
    ensures
        steps_wf(final(steps)@),
        final(steps)@.len() == old(steps)@.len(),
        ssum(final(steps)@) == ssum(old(steps)@),
        mags(final(steps)@) < mags(old(steps)@),
        forall|px: int, py: int|
            #[trigger] on_path(anchor, final(steps)@, px, py) && on_wall(wall_lines@, px, py)
                ==> on_path(anchor, old(steps)@, px, py),
{
    let ghost olds = steps@;
    proof {
        lemma_mags_nonneg(olds);
    }
    do_transfer(steps, i, Ghost(wall_lines@), Ghost(anchor));
    proof {
        lemma_mags_nonneg(steps@);
    }
    while shift_test(wall_lines, steps, i, c1, Ghost(anchor))
        invariant
            forall|k: int| 0 <= k < wall_lines@.len() ==> seg_wf(#[trigger] wall_lines@[k]),
            steps_wf(steps@),
            i + 2 < steps@.len(),
            steps@.len() == olds.len(),
            vmag(anchor) <= COORD_LIMIT,
            0 <= mags(steps@) < mags(olds),
            mags(olds) <= TOTAL_LIMIT,
            ssum(steps@) == ssum(olds),
            pt(c1) == posn(anchor, steps@, i as int),
            forall|px: int, py: int|
                #[trigger] on_path(anchor, steps@, px, py) && on_wall(wall_lines@, px, py)
                    ==> on_path(anchor, olds, px, py),
        decreases mags(steps@),
    {
        let ghost prev = steps@;
        do_transfer(steps, i, Ghost(wall_lines@), Ghost(anchor));
        proof {
            lemma_mags_nonneg(steps@);
            assert forall|px: int, py: int|
                #[trigger] on_path(anchor, steps@, px, py) && on_wall(wall_lines@, px, py)
                implies on_path(anchor, olds, px, py) by {
                assert(on_path(anchor, prev, px, py));
            }
        }
    }
}

/// Applies the reorder-merge rewrite at window `i`: the steps are rebuilt
/// with C moved directly after A, so C merges into A and the relocated B
/// merges with its former successor; a merge that cancels to zero is
/// dropped on the spot.  The step count strictly shrinks and the total
/// length never grows.
#[verifier::rlimit(100)]
fn apply_reorder(
    steps: &mut Vec<Vec2>,
    i: usize,
    Ghost(walls): Ghost<Seq<Segment>>,
    Ghost(anchor): Ghost<Vec2>,
)
    requires
        steps_wf(old(steps)@),
        i + 2 < old(steps)@.len(),
        vmag(anchor) <= COORD_LIMIT,
        mags(old(steps)@) <= TOTAL_LIMIT,
        reorder_applicable(walls, anchor, old(steps)@, i as int),
    ensures
        steps_wf(final(steps)@),
        final(steps)@.len() < old(steps)@.len(),
        ssum(final(steps)@) == ssum(old(steps)@),
        mags(final(steps)@) <= mags(old(steps)@),
        forall|px: int, py: int|
            #[trigger] on_path(anchor, final(steps)@, px, py) && on_wall(walls, px, py)
                ==> on_path(anchor, old(steps)@, px, py),
{
    let ghost olds = steps@;
    let ghost c = posn(anchor, olds, i as int + 1);
    let ghost cw2 = add2(c, pt(olds[i as int + 2]));
    let ghost cw2w1 = add2(cw2, pt(olds[i as int + 1]));
    let n = steps.len();
    proof {
        lemma_mags_nonneg(olds);
    }
    let mut out: Vec<Vec2> = Vec::new();
    let mut j: usize = 0;
    proof {
        assert(out@ =~= olds.take(0));
    }
    // The window's prefix, A included, is alternating, so it is copied
    // verbatim.
    while j < i + 1
        invariant
            steps_wf(olds),
            steps@ == olds,
            i + 2 < olds.len(),
            olds.len() <= usize::MAX,
            mags(olds) <= TOTAL_LIMIT,
            0 <= j <= i + 1,
            out@ == olds.take(j as int),
        decreases i + 1 - j,
    {
        proof {
            lemma_take_succ(olds, j as int);
            lemma_mags_take_le(olds, j as int);
            lemma_mags_nonneg(olds.take(j as int));
            lemma_step_le(olds, j as int);
            if j > 0 {
                assert(out@.last() == olds[j as int - 1]);
            }
        }
        push_merge(&mut out, steps[j]);
        proof {
            assert(out@ =~= olds.take(j as int + 1));
        }
        j += 1;
    }
    proof {
        lemma_take_succ(olds, i as int);
        lemma_take_succ(olds, i as int + 1);
        lemma_take_succ(olds, i as int + 2);
        lemma_mags_take_le(olds, i as int + 3);
        lemma_mags_nonneg(olds.subrange(i as int + 3, olds.len() as int));
        assert(olds =~= olds.take(i as int + 3) + olds.subrange(i as int + 3, olds.len() as int));
        lemma_ssum_concat(olds.take(i as int + 3), olds.subrange(i as int + 3, olds.len() as int));
        assert(posn(anchor, olds, i as int + 1) == c);
    }
    let ghost pre = out@;
    // C travels directly after A and merges into it.
    push_merge(&mut out, steps[i + 2]);
    proof {
        assert(ssum(out@) == add2(ssum(olds.take(i as int + 1)), pt(olds[i as int + 2])));
        assert(mags(out@) <= mags(olds.take(i as int + 1)) + vmag(olds[i as int + 2]));
        assert(out@.len() <= i + 1);
        assert forall|px: int, py: int| #[trigger] on_path(anchor, out@, px, py) implies on_path(
            anchor,
            olds,
            px,
            py,
        ) || in_box(c, cw2, px, py) by {
            if on_path(anchor, pre, px, py) {
                lemma_on_path_prefix(anchor, olds, i as int + 1, px, py);
            } else {
                assert(posn(anchor, pre, pre.len() as int) == c) by {
                    assert(pre.take(pre.len() as int) =~= pre);
                }
            }
        }
    }
    let ghost mid1 = out@;
    // The relocated B follows.
    push_merge(&mut out, steps[i + 1]);
    proof {
        assert(ssum(out@) == add2(ssum(olds.take(i as int + 3)), (0, 0)));
        assert(mags(out@) <= mags(olds.take(i as int + 3)));
        assert(out@.len() <= i + 2);
        assert forall|px: int, py: int| #[trigger] on_path(anchor, out@, px, py) implies on_path(
            anchor,
            olds,
            px,
            py,
        ) || in_box(c, cw2, px, py) || in_box(cw2, cw2w1, px, py) by {
            if !on_path(anchor, mid1, px, py) {
                assert(posn(anchor, mid1, mid1.len() as int) == cw2) by {
                    assert(mid1.take(mid1.len() as int) =~= mid1);
                }
            }
        }
    }
    // The suffix after the window is copied verbatim; its first step may
    // merge with the relocated B.
    let mut k = i + 3;
    while k < n
        invariant
            steps_wf(olds),
            steps@ == olds,
            n == olds.len(),
            olds.len() <= usize::MAX,
            mags(olds) <= TOTAL_LIMIT,
            i + 3 <= k <= n,
            steps_wf(out@),
            ssum(out@) == add2(ssum(olds.take(k as int)), (0, 0)),
            mags(out@) <= mags(olds.take(k as int)),
            out@.len() <= i + 2 + (k - i - 3),
            vmag(anchor) <= COORD_LIMIT,
            forall|px: int, py: int|
                #[trigger] on_path(anchor, out@, px, py) ==> on_path(anchor, olds, px, py)
                    || in_box(c, cw2, px, py) || in_box(cw2, cw2w1, px, py),
        decreases n - k,
    {
        let ghost prev = out@;
        proof {
            lemma_take_succ(olds, k as int);
            lemma_mags_take_le(olds, k as int + 1);
            lemma_mags_nonneg(olds.take(k as int));
            lemma_step_le(olds, k as int);
            lemma_mags_nonneg(out@);
        }
        push_merge(&mut out, steps[k]);
        proof {
            assert forall|px: int, py: int|
                #[trigger] on_path(anchor, out@, px, py) implies on_path(anchor, olds, px, py)
                || in_box(c, cw2, px, py) || in_box(cw2, cw2w1, px, py) by {
                if !on_path(anchor, prev, px, py) {
                    assert(posn(anchor, prev, prev.len() as int) == posn(anchor, olds, k as int))
                        by {
                        assert(prev.take(prev.len() as int) =~= prev);
                    }
                    assert(in_box(
                        posn(anchor, olds, k as int),
                        posn(anchor, olds, k as int + 1),
                        px,
                        py,
                    ));
                }
            }
        }
        k += 1;
    }
    proof {
        assert(olds.take(n as int) =~= olds);
        lemma_pos_bound(anchor, olds, i as int + 1);
        lemma_step_le(olds, i as int + 1);
        lemma_step_le(olds, i as int + 2);
        lemma_checked_boxes_off_wall(walls, anchor, olds, out@, c, cw2, cw2w1);
    }
    *steps = out;
}

/// A rebuilt trace covered by the old trace and two checked boxes stays
/// off the wall wherever the old trace did.
proof fn lemma_checked_boxes_off_wall(
    walls: Seq<Segment>,
    anchor: Vec2,
    olds: Seq<Vec2>,
    news: Seq<Vec2>,
    c: (int, int),
    cw2: (int, int),
    cw2w1: (int, int),
)
    requires
        step_no_touch(walls, c, cw2),
        step_no_touch(walls, cw2, cw2w1),
        -0x7000_0000_0000_0000 <= c.0 <= 0x7000_0000_0000_0000,
        -0x7000_0000_0000_0000 <= c.1 <= 0x7000_0000_0000_0000,
        -0x7000_0000_0000_0000 <= cw2.0 <= 0x7000_0000_0000_0000,
        -0x7000_0000_0000_0000 <= cw2.1 <= 0x7000_0000_0000_0000,
        -0x7000_0000_0000_0000 <= cw2w1.0 <= 0x7000_0000_0000_0000,
        -0x7000_0000_0000_0000 <= cw2w1.1 <= 0x7000_0000_0000_0000,
        forall|px: int, py: int|
            #[trigger] on_path(anchor, news, px, py) ==> on_path(anchor, olds, px, py) || in_box(
                c,
                cw2,
                px,
                py,
            ) || in_box(cw2, cw2w1, px, py),
    ensures
        forall|px: int, py: int|
            #[trigger] on_path(anchor, news, px, py) && on_wall(walls, px, py) ==> on_path(
                anchor,
                olds,
                px,
                py,
            ),
{
    assert forall|px: int, py: int|
        #[trigger] on_path(anchor, news, px, py) && on_wall(walls, px, py) implies on_path(
        anchor,
        olds,
        px,
        py,
    ) by {
        lemma_box_off_wall(walls, c, cw2, px, py);
        lemma_box_off_wall(walls, cw2, cw2w1, px, py);
    }
}

/// Decides `reorder_applicable` at one window, given the cursor after A.
fn reorder_test(wall_lines: &[Segment], steps: &Vec<Vec2>, i: usize, c: Vec2, Ghost(anchor): Ghost<Vec2>) -> (r: bool)
    requires
        forall|k: int| 0 <= k < wall_lines@.len() ==> seg_wf(#[trigger] wall_lines@[k]),
        steps_wf(steps@),
        i + 2 < steps@.len(),
        pt(c) == posn(anchor, steps@, i as int + 1),
        vmag(anchor) <= COORD_LIMIT,
        mags(steps@) <= TOTAL_LIMIT,
    ensures
        r == reorder_applicable(wall_lines@, anchor, steps@, i as int),
{
    let n = steps.len();
    proof {
        lemma_pos_bound(anchor, steps@, i as int + 1);
        lemma_mags_nonneg(steps@);
        lemma_step_le(steps@, i as int + 1);
        lemma_step_le(steps@, i as int + 2);
    }
    let w1 = steps[i + 1];
    let w2 = steps[i + 2];
    let cw2 = c.add(w2);
    let run1 = segment(c, cw2);
    if !run1.intersects_none(wall_lines) {
        return false;
    }
    let cw2w1 = cw2.add(w1);
    let run2 = segment(cw2, cw2w1);
    run2.intersects_none(wall_lines)
}

/// Decides `shift_applicable` at one window, given the cursor before A.
fn shift_test(wall_lines: &[Segment], steps: &Vec<Vec2>, i: usize, c1: Vec2, Ghost(anchor): Ghost<Vec2>) -> (r: bool)
    requires
        forall|k: int| 0 <= k < wall_lines@.len() ==> seg_wf(#[trigger] wall_lines@[k]),
        steps_wf(steps@),
        i + 2 < steps@.len(),
        pt(c1) == posn(anchor, steps@, i as int),
        vmag(anchor) <= COORD_LIMIT,
        mags(steps@) <= TOTAL_LIMIT,
    ensures
        r == shift_applicable(wall_lines@, anchor, steps@, i as int),
{
    let n = steps.len();
    proof {
        lemma_pos_bound(anchor, steps@, i as int);
        lemma_mags_nonneg(steps@);
        lemma_step_le(steps@, i as int);
        lemma_step_le(steps@, i as int + 1);
        lemma_step_le(steps@, i as int + 2);
    }
    let w0 = steps[i];
    let w1 = steps[i + 1];
    let w2 = steps[i + 2];
    if !(w0.mag() > 1 && w2.mag() > 1) {
        return false;
    }
    if !(w0.0 > 0 && w2.0 < 0 || w0.0 < 0 && w2.0 > 0 || w0.1 > 0 && w2.1 < 0 || w0.1 < 0 && w2.1
        > 0) {
        return false;
    }
    let u = w0.normalized();
    let p1 = c1.add(w0).sub(u);
    let run1 = segment(c1, p1);
    if !run1.intersects_none(wall_lines) {
        return false;
    }
    let p2 = p1.add(w1);
    let run2 = segment(p1, p2);
    if !run2.intersects_none(wall_lines) {
        return false;
    }
    let p3 = p2.add(w2).add(u);
    let run3 = segment(p2, p3);
    run3.intersects_none(wall_lines)
}

/// Each beneficial transfer of the shift-shorten rewrite cuts the total
/// length by exactly two: one cell leaves A's tail and one cell leaves
/// C's head, which is how a detour of depth `d` loses `2 * d` over the
/// rewrites that drain it.
pub proof fn lemma_shift_cuts_two(walls: Seq<Segment>, anchor: Vec2, steps: Seq<Vec2>, i: int)
    requires
        steps_wf(steps),
        0 <= i,
        i + 2 < steps.len(),
        mags(steps) <= TOTAL_LIMIT,
        shift_applicable(walls, anchor, steps, i),
    ensures
        ({
            let u = unit_of(steps[i]);
            let news = steps.update(
                i,
                Vec2((steps[i].0 - u.0) as i64, (steps[i].1 - u.1) as i64),
            ).update(
                i + 2,
                Vec2((steps[i + 2].0 + u.0) as i64, (steps[i + 2].1 + u.1) as i64),
            );
            mags(news) == mags(steps) - 2
        }),
{
    let u = unit_of(steps[i]);
    let f = steps[i];
    let t = steps[i + 2];
    lemma_mags_nonneg(steps);
    lemma_step_le(steps, i);
    lemma_step_le(steps, i + 2);
    let f2 = Vec2((f.0 - u.0) as i64, (f.1 - u.1) as i64);
    let t2 = Vec2((t.0 + u.0) as i64, (t.1 + u.1) as i64);
    let news = steps.update(i, f2).update(i + 2, t2);
    assert(vmag(f2) == vmag(f) - 1 && vmag(t2) == vmag(t) - 1) by {
        if horiz(f) {
            assert(u == Vec2(1i64, 0i64) || u == Vec2(-1i64, 0i64));
        } else {
            assert(u == Vec2(0i64, 1i64) || u == Vec2(0i64, -1i64));
        }
    }
    lemma_posn_update2(anchor, steps, news, i);
}

/// Scans the windows from the start and returns the first applicable
/// rewrite: its window index, whether it is a reorder-merge (else a
/// shift-shorten), and the cursor position before the window.
#[verifier::rlimit(100)]
fn find_rewrite(wall_lines: &[Segment], anchor: Vec2, steps: &Vec<Vec2>) -> (r: Option<
    (usize, bool, Vec2),
>)
    requires
        forall|k: int| 0 <= k < wall_lines@.len() ==> seg_wf(#[trigger] wall_lines@[k]),
        steps_wf(steps@),
        vmag(anchor) <= COORD_LIMIT,
        mags(steps@) <= TOTAL_LIMIT,
    ensures
        r is None ==> is_reduced(wall_lines@, anchor, steps@),
        r matches Some(p) ==> {
            &&& p.0 + 2 < steps@.len()
            &&& pt(p.2) == posn(anchor, steps@, p.0 as int)
            &&& (p.1 ==> reorder_applicable(wall_lines@, anchor, steps@, p.0 as int))
            &&& (!p.1 ==> shift_applicable(wall_lines@, anchor, steps@, p.0 as int))
        },
{
    if steps.len() < 3 {
        return None;
    }
    let mut c1 = anchor;
    let mut i: usize = 0;
    proof {
        assert(steps@.take(0) =~= Seq::<Vec2>::empty());
    }
    while i + 2 < steps.len()
        invariant
            forall|k: int| 0 <= k < wall_lines@.len() ==> seg_wf(#[trigger] wall_lines@[k]),
            steps_wf(steps@),
            vmag(anchor) <= COORD_LIMIT,
            mags(steps@) <= TOTAL_LIMIT,
            steps@.len() >= 3,
            steps@.len() <= usize::MAX,
            0 <= i <= steps@.len() - 2,
            pt(c1) == posn(anchor, steps@, i as int),
            forall|j: int|
                0 <= j < i ==> !(#[trigger] reorder_applicable(wall_lines@, anchor, steps@, j)),
            forall|j: int|
                0 <= j < i ==> !(#[trigger] shift_applicable(wall_lines@, anchor, steps@, j)),
        decreases steps@.len() - i,
    {
        proof {
            lemma_pos_bound(anchor, steps@, i as int);
            lemma_mags_nonneg(steps@);
            lemma_step_le(steps@, i as int);
            lemma_take_succ(steps@, i as int);
        }
        let w0 = steps[i];
        let c = c1.add(w0);
        proof {
            assert(pt(c) == posn(anchor, steps@, i as int + 1));
        }
        if reorder_test(wall_lines, steps, i, c, Ghost(anchor)) {
            return Some((i, true, c1));
        }
        if shift_test(wall_lines, steps, i, c1, Ghost(anchor)) {
            return Some((i, false, c1));
        }
        c1 = c;
        i += 1;
    }
    None
}

/// Shortens the emitted path by rewriting it until no rule applies,
/// restarting the scan from the beginning after every accepted rewrite.
/// The result starts at the same anchor, sums to the same displacement,
/// is never longer than its input, is a fixpoint of the rewrite rules,
/// and touches the wall in no point the input did not already touch; an
/// input that is already a fixpoint comes back unchanged.
pub fn reduce_steps(wall_lines: &[Segment], path: WallFollowPath) -> (r: WallFollowPath)
    requires
        forall|k: int| 0 <= k < wall_lines@.len() ==> seg_wf(#[trigger] wall_lines@[k]),
        steps_wf(path.steps@),
        vmag(path.start) <= COORD_LIMIT,
        mags(path.steps@) <= TOTAL_LIMIT,
    ensures
        r.start == path.start,
        steps_wf(r.steps@),
        ssum(r.steps@) == ssum(path.steps@),
        mags(r.steps@) <= mags(path.steps@),
        is_reduced(wall_lines@, r.start, r.steps@),
        is_reduced(wall_lines@, path.start, path.steps@) ==> r.steps@ == path.steps@,
        forall|px: int, py: int|
            #[trigger] on_path(r.start, r.steps@, px, py) && on_wall(wall_lines@, px, py)
                ==> on_path(path.start, path.steps@, px, py),
{
    let start = path.start;
    let mut steps = path.steps;
    proof {
        lemma_mags_nonneg(steps@);
    }
    loop
        invariant
            forall|k: int| 0 <= k < wall_lines@.len() ==> seg_wf(#[trigger] wall_lines@[k]),
            start == path.start,
            steps_wf(steps@),
            vmag(start) <= COORD_LIMIT,
            0 <= mags(steps@) <= mags(path.steps@),
            mags(path.steps@) <= TOTAL_LIMIT,
            ssum(steps@) == ssum(path.steps@),
            is_reduced(wall_lines@, path.start, path.steps@) ==> steps@ == path.steps@,
            forall|px: int, py: int|
                #[trigger] on_path(start, steps@, px, py) && on_wall(wall_lines@, px, py)
                    ==> on_path(path.start, path.steps@, px, py),
        ensures
            is_reduced(wall_lines@, start, steps@),
        decreases mags(steps@), steps@.len(),
    {
        let ghost prev = steps@;
        match find_rewrite(wall_lines, start, &steps) {
            None => {
                break ;
            },
            Some((i, true, _c1)) => {
                proof {
                    assert(!is_reduced(wall_lines@, path.start, path.steps@)) by {
                        if is_reduced(wall_lines@, path.start, path.steps@) {
                            assert(prev == path.steps@);
                            assert(reorder_applicable(
                                wall_lines@,
                                path.start,
                                path.steps@,
                                i as int,
                            ));
                        }
                    }
                }
                apply_reorder(&mut steps, i, Ghost(wall_lines@), Ghost(start));
            },
            Some((i, false, c1)) => {
                proof {
                    assert(!is_reduced(wall_lines@, path.start, path.steps@)) by {
                        if is_reduced(wall_lines@, path.start, path.steps@) {
                            assert(prev == path.steps@);
                            assert(shift_applicable(
                                wall_lines@,
                                path.start,
                                path.steps@,
                                i as int,
                            ));
                        }
                    }
                }
                apply_shift(wall_lines, &mut steps, i, c1, Ghost(start));
            },
        }
        proof {
            lemma_mags_nonneg(steps@);
            assert forall|px: int, py: int|
                #[trigger] on_path(start, steps@, px, py) && on_wall(wall_lines@, px, py)
                implies on_path(path.start, path.steps@, px, py) by {
                assert(on_path(start, prev, px, py));
            }
        }
    }
    WallFollowPath { start, steps }
}

} // verus!
