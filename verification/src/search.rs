//! The reference search: an exact shortest-path search over the implicit
//! grid, restricted to a caller-chosen bounding box that encloses the
//! wall and both endpoints.  Nodes are lattice points, edges connect
//! axis-neighbours that do not sit on the wall (the start and end points
//! are exempt), and every edge costs one.
//!
//! The search is specified by `reach`: the set of points reachable from
//! the start in at most `r` moves.  The returned distance is the least
//! layer that contains the end point, which is exactly the optimal path
//! length; `None` means no layer ever contains it.  The search exists to
//! validate the wall-hugging navigator on small inputs.

use vstd::prelude::*;

use crate::geometry::{Vec2, Segment, seg_wf, seg_has, vmag};
use crate::path::{
    on_wall,
    on_path,
    in_box,
    trace_clear_or_origin,
    pt,
    add2,
    ssum,
    mags,
    posn,
    steps_wf,
    lemma_take_succ,
    lemma_mags_nonneg,
};

verus! {

/// Largest accepted bounding-box side, so that the cell grid stays small.
pub const MAX_SIDE: i64 = 1024;

/// The point lies in the closed box `[x0, x1] x [y0, y1]`.
pub open spec fn in_bb(x0: int, x1: int, y0: int, y1: int, px: int, py: int) -> bool {
    x0 <= px <= x1 && y0 <= py <= y1
}

/// The point is an obstacle: it lies on the wall and is neither the
/// start nor the end.
pub open spec fn blocked(walls: Seq<Segment>, start: Vec2, end: Vec2, px: int, py: int) -> bool {
    on_wall(walls, px, py) && !(px == start.0 && py == start.1) && !(px == end.0 && py == end.1)
}

/// The points reachable from the start in at most `r` unit moves that
/// stay inside the box and off the wall.
pub open spec fn reach(
    walls: Seq<Segment>,
    start: Vec2,
    end: Vec2,
    x0: int,
    x1: int,
    y0: int,
    y1: int,
    r: int,
) -> Set<(int, int)>
    decreases r,
{
    if r <= 0 {
        Set::new(|p: (int, int)| p == pt(start))
    } else {
        Set::new(
            |p: (int, int)|
                reach(walls, start, end, x0, x1, y0, y1, r - 1).contains(p) || (in_bb(
                    x0,
                    x1,
                    y0,
                    y1,
                    p.0,
                    p.1,
                ) && !blocked(walls, start, end, p.0, p.1) && (reach(
                    walls,
                    start,
                    end,
                    x0,
                    x1,
                    y0,
                    y1,
                    r - 1,
                ).contains((p.0 - 1, p.1)) || reach(
                    walls,
                    start,
                    end,
                    x0,
                    x1,
                    y0,
                    y1,
                    r - 1,
                ).contains((p.0 + 1, p.1)) || reach(
                    walls,
                    start,
                    end,
                    x0,
                    x1,
                    y0,
                    y1,
                    r - 1,
                ).contains((p.0, p.1 - 1)) || reach(
                    walls,
                    start,
                    end,
                    x0,
                    x1,
                    y0,
                    y1,
                    r - 1,
                ).contains((p.0, p.1 + 1)))),
        )
    }
}

/// The linear index of a grid cell.
pub open spec fn gidx(w: int, gx: int, gy: int) -> int {
    gy * w + gx
}

/// Every reachable point lies in the box.
proof fn lemma_reach_in_bb(
    walls: Seq<Segment>,
    start: Vec2,
    end: Vec2,
    x0: int,
    x1: int,
    y0: int,
    y1: int,
    r: int,
)
    requires
        in_bb(x0, x1, y0, y1, start.0 as int, start.1 as int),
    ensures
        forall|px: int, py: int|
            #[trigger] reach(walls, start, end, x0, x1, y0, y1, r).contains((px, py)) ==> in_bb(
                x0,
                x1,
                y0,
                y1,
                px,
                py,
            ),
    decreases r,
{
    if r > 0 {
        lemma_reach_in_bb(walls, start, end, x0, x1, y0, y1, r - 1);
        assert forall|px: int, py: int|
            #[trigger] reach(walls, start, end, x0, x1, y0, y1, r).contains((px, py)) implies in_bb(
            x0,
            x1,
            y0,
            y1,
            px,
            py,
        ) by {
            if reach(walls, start, end, x0, x1, y0, y1, r - 1).contains((px, py)) {
            }
        }
    }
}

/// Once a layer stops growing, every later layer equals it.
proof fn lemma_reach_fixpoint(
    walls: Seq<Segment>,
    start: Vec2,
    end: Vec2,
    x0: int,
    x1: int,
    y0: int,
    y1: int,
    r: int,
    s: int,
)
    requires
        0 <= r <= s,
        reach(walls, start, end, x0, x1, y0, y1, r + 1) == reach(
            walls,
            start,
            end,
            x0,
            x1,
            y0,
            y1,
            r,
        ),
    ensures
        reach(walls, start, end, x0, x1, y0, y1, s) == reach(walls, start, end, x0, x1, y0, y1, r),
    decreases s - r,
{
    if s > r {
        lemma_reach_fixpoint(walls, start, end, x0, x1, y0, y1, r, s - 1);
        assert(reach(walls, start, end, x0, x1, y0, y1, s) =~= reach(
            walls,
            start,
            end,
            x0,
            x1,
            y0,
            y1,
            r + 1,
        ));
    }
}

/// True when the point lies on some wall segment.
fn cell_on_wall(walls: &Vec<Segment>, p: Vec2) -> (r: bool)
    requires
        forall|k: int| 0 <= k < walls@.len() ==> seg_wf(#[trigger] walls@[k]),
    ensures
        r == on_wall(walls@, p.0 as int, p.1 as int),
{
    let mut k: usize = 0;
    while k < walls.len()
        invariant
            0 <= k <= walls@.len(),
            forall|j: int| 0 <= j < walls@.len() ==> seg_wf(#[trigger] walls@[j]),
            forall|j: int| 0 <= j < k ==> !seg_has(#[trigger] walls@[j], p.0 as int, p.1 as int),
        decreases walls@.len() - k,
    {
        if walls[k].contains(p) {
            return true;
        }
        k += 1;
    }
    false
}


/// Grows the reachable set by one layer of unit moves: cell by cell, a
/// point enters the next layer when it is already reached, or is an
/// unblocked box point next to a reached one.
#[verifier::rlimit(100)]
fn expand_layer(
    walls: &Vec<Segment>,
    start: Vec2,
    end: Vec2,
    x0: i64,
    x1: i64,
    y0: i64,
    y1: i64,
    w: usize,
    h: usize,
    area: usize,
    obstacle: &Vec<bool>,
    cur: &Vec<bool>,
    round: u64,
) -> (r: (Vec<bool>, bool))
    requires
        w == x1 - x0 + 1,
        h == y1 - y0 + 1,
        w <= 1024 && h <= 1024,
        0 < w && 0 < h,
        area == (w as int) * (h as int),
        in_bb(x0 as int, x1 as int, y0 as int, y1 as int, start.0 as int, start.1 as int),
        obstacle@.len() == area,
        cur@.len() == area,
        forall|ax: int, ay: int|
            0 <= ax < w && 0 <= ay < h ==> obstacle@[gidx(w as int, ax, ay)] == blocked(
                walls@,
                start,
                end,
                x0 + ax,
                y0 + ay,
            ),
        forall|ax: int, ay: int|
            0 <= ax < w && 0 <= ay < h ==> cur@[gidx(w as int, ax, ay)] == reach(
                walls@,
                start,
                end,
                x0 as int,
                x1 as int,
                y0 as int,
                y1 as int,
                round as int,
            ).contains((x0 + ax, y0 + ay)),
    ensures
        r.0@.len() == area,
        count_true(r.0@) >= count_true(cur@),
        r.1 ==> count_true(r.0@) >= count_true(cur@) + 1,
        !r.1 ==> r.0@ == cur@,
        forall|ax: int, ay: int|
            0 <= ax < w && 0 <= ay < h ==> r.0@[gidx(w as int, ax, ay)] == reach(
                walls@,
                start,
                end,
                x0 as int,
                x1 as int,
                y0 as int,
                y1 as int,
                round as int + 1,
            ).contains((x0 + ax, y0 + ay)),
{
    // Expand by one layer of unit moves.
    let mut next: Vec<bool> = Vec::new();
    let mut changed = false;
    let mut j: usize = 0;
    while j < area
        invariant
            w == x1 - x0 + 1,
            h == y1 - y0 + 1,
            w <= 1024 && h <= 1024,
            0 < w && 0 < h,
            area == (w as int) * (h as int),
            in_bb(x0 as int, x1 as int, y0 as int, y1 as int, start.0 as int, start.1 as int),
            obstacle@.len() == area,
            cur@.len() == area,
            forall|ax: int, ay: int|
                0 <= ax < w && 0 <= ay < h ==> obstacle@[gidx(w as int, ax, ay)] == blocked(
                    walls@,
                    start,
                    end,
                    x0 + ax,
                    y0 + ay,
                ),
            forall|ax: int, ay: int|
                0 <= ax < w && 0 <= ay < h ==> cur@[gidx(w as int, ax, ay)] == reach(
                    walls@,
                    start,
                    end,
                    x0 as int,
                    x1 as int,
                    y0 as int,
                    y1 as int,
                    round as int,
                ).contains((x0 + ax, y0 + ay)),
            0 <= j <= area,
            next@.len() == j,
            count_true(next@) >= count_true(cur@.take(j as int)),
            changed ==> count_true(next@) >= count_true(cur@.take(j as int)) + 1,
            !changed ==> next@ == cur@.take(j as int),
            forall|ax: int, ay: int|
                0 <= ax < w && 0 <= ay < h && gidx(w as int, ax, ay) < j ==> next@[gidx(
                    w as int,
                    ax,
                    ay,
                )] == reach(
                    walls@,
                    start,
                    end,
                    x0 as int,
                    x1 as int,
                    y0 as int,
                    y1 as int,
                    round as int + 1,
                ).contains((x0 + ax, y0 + ay)),
        decreases area - j,
    {
        let gy = j / w;
        let gx = j % w;
        proof {
            assert(j == gidx(w as int, gx as int, gy as int) && gx < w && gy < h)
                by (nonlinear_arith)
                requires
                    0 < w,
                    0 < h,
                    j < area,
                    area == (w as int) * (h as int),
                    gy == j / w,
                    gx == j % w,
                    gidx(w as int, gx as int, gy as int) == (gy as int) * (w as int) + gx as int,
            ;
            lemma_gidx_bij(w as int, h as int, gx as int, gy as int, gx as int, gy as int);
        }
        let ghost px = x0 + gx as int;
        let ghost py = y0 + gy as int;
        let ghost lay = reach(
            walls@,
            start,
            end,
            x0 as int,
            x1 as int,
            y0 as int,
            y1 as int,
            round as int,
        );
        let here = cur[j];
        let mut v = here;
        if !v && !obstacle[j] {
            if gx > 0 {
                proof {
                    assert(gidx(w as int, gx as int - 1, gy as int) == j - 1);
                }
                if cur[j - 1] {
                    v = true;
                }
            }
            if !v && gx + 1 < w {
                proof {
                    assert(gidx(w as int, gx as int + 1, gy as int) == j + 1);
                    lemma_gidx_bij(w as int, h as int, gx as int + 1, gy as int, gx as int, gy as int);
                }
                if cur[j + 1] {
                    v = true;
                }
            }
            if !v && gy > 0 {
                proof {
                    assert((gy as int - 1) * (w as int) + gx as int == (gy as int) * (w as int)
                        + gx as int - w) by (nonlinear_arith);
                    assert(gidx(w as int, gx as int, gy as int - 1) == j - w);
                    lemma_gidx_bij(w as int, h as int, gx as int, gy as int - 1, gx as int, gy as int);
                }
                if cur[j - w] {
                    v = true;
                }
            }
            if !v && gy + 1 < h {
                proof {
                    assert((gy as int + 1) * (w as int) + gx as int == (gy as int) * (w as int)
                        + gx as int + w) by (nonlinear_arith);
                    assert(gidx(w as int, gx as int, gy as int + 1) == j + w);
                    lemma_gidx_bij(w as int, h as int, gx as int, gy as int + 1, gx as int, gy as int);
                }
                if cur[j + w] {
                    v = true;
                }
            }
        }
        proof {
            lemma_reach_in_bb(
                walls@,
                start,
                end,
                x0 as int,
                x1 as int,
                y0 as int,
                y1 as int,
                round as int,
            );
            if gx == 0 {
                assert(!lay.contains((px - 1, py)));
            }
            if gx as int + 1 == w {
                assert(!lay.contains((px + 1, py)));
            }
            if gy == 0 {
                assert(!lay.contains((px, py - 1)));
            }
            if gy as int + 1 == h {
                assert(!lay.contains((px, py + 1)));
            }
            assert(v == reach(
                walls@,
                start,
                end,
                x0 as int,
                x1 as int,
                y0 as int,
                y1 as int,
                round as int + 1,
            ).contains((px, py)));
        }
        if v && !here {
            changed = true;
        }
        let ghost prev_next = next@;
        next.push(v);
        proof {
            assert(next@.drop_last() =~= prev_next);
            assert(count_true(next@) == count_true(prev_next) + if v {
                1int
            } else {
                0int
            });
            lemma_count_take_succ(cur@, j as int);
            if !changed {
                assert(next@ =~= cur@.take(j as int + 1));
            }
            assert forall|ax: int, ay: int|
                0 <= ax < w && 0 <= ay < h && gidx(w as int, ax, ay) < j + 1 implies next@[gidx(
                w as int,
                ax,
                ay,
            )] == reach(
                walls@,
                start,
                end,
                x0 as int,
                x1 as int,
                y0 as int,
                y1 as int,
                round as int + 1,
            ).contains((x0 + ax, y0 + ay)) by {
                lemma_gidx_bij(w as int, h as int, ax, ay, gx as int, gy as int);
            }
        }
        j += 1;
    }

    proof {
        assert(cur@.take(area as int) =~= cur@);
        assert forall|ax: int, ay: int| 0 <= ax < w && 0 <= ay < h implies next@[gidx(
            w as int,
            ax,
            ay,
        )] == reach(
            walls@,
            start,
            end,
            x0 as int,
            x1 as int,
            y0 as int,
            y1 as int,
            round as int + 1,
        ).contains((x0 + ax, y0 + ay)) by {
            lemma_gidx_bij(w as int, h as int, ax, ay, ax, ay);
        }
    }
    (next, changed)
}

/// Breadth-first search from `start` towards `end` over the lattice
/// points of the box, avoiding the wall.  Returns the least number of
/// unit moves that reaches `end`, or `None` when no number of moves does.
#[verifier::rlimit(100)]
pub fn reference_search(
    walls: &Vec<Segment>,
    start: Vec2,
    end: Vec2,
    x0: i64,
    x1: i64,
    y0: i64,
    y1: i64,
) -> (r: Option<u64>)
    requires
        forall|k: int| 0 <= k < walls@.len() ==> seg_wf(#[trigger] walls@[k]),
        x0 <= x1 && y0 <= y1,
        x1 - x0 < MAX_SIDE,
        y1 - y0 < MAX_SIDE,
        in_bb(x0 as int, x1 as int, y0 as int, y1 as int, start.0 as int, start.1 as int),
    ensures
        r matches Some(d) ==> {
            &&& reach(
                walls@,
                start,
                end,
                x0 as int,
                x1 as int,
                y0 as int,
                y1 as int,
                d as int,
            ).contains(pt(end))
            &&& forall|rr: int|
                0 <= rr < d ==> !(#[trigger] reach(
                    walls@,
                    start,
                    end,
                    x0 as int,
                    x1 as int,
                    y0 as int,
                    y1 as int,
                    rr,
                ).contains(pt(end)))
        },
        r is None ==> forall|rr: int|
            rr >= 0 ==> !(#[trigger] reach(
                walls@,
                start,
                end,
                x0 as int,
                x1 as int,
                y0 as int,
                y1 as int,
                rr,
            ).contains(pt(end))),
{
    let w = (x1 - x0 + 1) as usize;
    let h = (y1 - y0 + 1) as usize;
    proof {
        assert((w as int) * (h as int) <= 1024 * 1024) by (nonlinear_arith)
            requires
                0 < w as int <= 1024,
                0 < h as int <= 1024,
        ;
    }
    let area = w * h;

    // Obstacle grid, one cell per lattice point of the box.
    let mut obstacle: Vec<bool> = Vec::new();
    let mut gy: usize = 0;
    while gy < h
        invariant
            w == x1 - x0 + 1,
            h == y1 - y0 + 1,
            w <= 1024 && h <= 1024,
            area == (w as int) * (h as int),
            forall|k: int| 0 <= k < walls@.len() ==> seg_wf(#[trigger] walls@[k]),
            0 <= gy <= h,
            obstacle@.len() == gy * w,
            forall|ax: int, ay: int|
                0 <= ax < w && 0 <= ay < gy ==> obstacle@[gidx(w as int, ax, ay)] == blocked(
                    walls@,
                    start,
                    end,
                    x0 + ax,
                    y0 + ay,
                ),
        decreases h - gy,
    {
        let mut gx: usize = 0;
        while gx < w
            invariant
                w == x1 - x0 + 1,
                h == y1 - y0 + 1,
                w <= 1024 && h <= 1024,
                area == (w as int) * (h as int),
                forall|k: int| 0 <= k < walls@.len() ==> seg_wf(#[trigger] walls@[k]),
                0 <= gy < h,
                0 <= gx <= w,
                obstacle@.len() == gy * w + gx,
                forall|ax: int, ay: int|
                    0 <= ax < w && 0 <= ay < gy ==> obstacle@[gidx(w as int, ax, ay)] == blocked(
                        walls@,
                        start,
                        end,
                        x0 + ax,
                        y0 + ay,
                    ),
                forall|ax: int|
                    0 <= ax < gx ==> obstacle@[gidx(w as int, ax, gy as int)] == blocked(
                        walls@,
                        start,
                        end,
                        x0 + ax,
                        y0 + gy,
                    ),
            decreases w - gx,
        {
            let px = x0 + gx as i64;
            let py = y0 + gy as i64;
            let on = cell_on_wall(walls, Vec2(px, py));
            let b = on && !(px == start.0 && py == start.1) && !(px == end.0 && py == end.1);
            obstacle.push(b);
            proof {
                assert(obstacle@.len() == gy * w + gx + 1);
                assert forall|ax: int, ay: int|
                    0 <= ax < w && 0 <= ay < gy implies obstacle@[gidx(w as int, ax, ay)]
                    == blocked(walls@, start, end, x0 + ax, y0 + ay) by {
                    assert(gidx(w as int, ax, ay) < gy * w) by (nonlinear_arith)
                        requires
                            0 <= ax < w as int,
                            0 <= ay < gy as int,
                            gidx(w as int, ax, ay) == ay * (w as int) + ax,
                    ;
                }
            }
            gx += 1;
        }
        proof {
            assert((gy + 1) * w == gy * w + w) by (nonlinear_arith);
        }
        gy += 1;
    }
    proof {
        assert((h as int) * (w as int) == (w as int) * (h as int)) by (nonlinear_arith);
        assert(obstacle@.len() == area);
    }

    // The reachable set, one layer at a time.
    let mut cur: Vec<bool> = Vec::new();
    let sgx = (start.0 - x0) as usize;
    let sgy = (start.1 - y0) as usize;
    proof {
        lemma_gidx_bij(w as int, h as int, sgx as int, sgy as int, sgx as int, sgy as int);
        assert(sgy * w + sgx == gidx(w as int, sgx as int, sgy as int)) by (nonlinear_arith);
    }
    let sidx = sgy * w + sgx;
    let mut i: usize = 0;
    while i < area
        invariant
            0 <= i <= area,
            cur@.len() == i,
            sidx == gidx(w as int, sgx as int, sgy as int),
            forall|j: int| 0 <= j < i ==> cur@[j] == (j == sidx),
        decreases area - i,
    {
        cur.push(i == sidx);
        i += 1;
    }
    let mut round: u64 = 0;
    proof {
        lemma_count_le(cur@);
        assert forall|ax: int, ay: int|
            0 <= ax < w && 0 <= ay < h implies cur@[gidx(w as int, ax, ay)] == reach(
            walls@,
            start,
            end,
            x0 as int,
            x1 as int,
            y0 as int,
            y1 as int,
            0,
        ).contains((x0 + ax, y0 + ay)) by {
            lemma_gidx_bij(w as int, h as int, ax, ay, sgx as int, sgy as int);
        }
    }

    // The end point must be inside the box to be reachable at all.
    if end.0 < x0 || end.0 > x1 || end.1 < y0 || end.1 > y1 {
        if start.0 == end.0 && start.1 == end.1 {
            return Some(0);
        }
        proof {
            assert forall|rr: int|
                rr >= 0 implies !(#[trigger] reach(
                walls@,
                start,
                end,
                x0 as int,
                x1 as int,
                y0 as int,
                y1 as int,
                rr,
            ).contains(pt(end))) by {
                lemma_reach_in_bb(walls@, start, end, x0 as int, x1 as int, y0 as int, y1 as int, rr);
            }
        }
        return None;
    }
    let egx = (end.0 - x0) as usize;
    let egy = (end.1 - y0) as usize;
    proof {
        lemma_gidx_bij(w as int, h as int, egx as int, egy as int, egx as int, egy as int);
        assert(egy * w + egx == gidx(w as int, egx as int, egy as int)) by (nonlinear_arith);
    }
    let eidx = egy * w + egx;
    proof {
        lemma_gidx_bij(w as int, h as int, egx as int, egy as int, egx as int, egy as int);
    }

    loop
        invariant
            w == x1 - x0 + 1,
            h == y1 - y0 + 1,
            w <= 1024 && h <= 1024,
            0 < w && 0 < h,
            area == (w as int) * (h as int),
            forall|k: int| 0 <= k < walls@.len() ==> seg_wf(#[trigger] walls@[k]),
            in_bb(x0 as int, x1 as int, y0 as int, y1 as int, start.0 as int, start.1 as int),
            in_bb(x0 as int, x1 as int, y0 as int, y1 as int, end.0 as int, end.1 as int),
            egx < w && egy < h,
            eidx == gidx(w as int, egx as int, egy as int),
            eidx < area,
            x0 + egx == end.0 && y0 + egy == end.1,
            obstacle@.len() == area,
            cur@.len() == area,
            round as int <= count_true(cur@),
            count_true(cur@) <= area as int,
            forall|ax: int, ay: int|
                0 <= ax < w && 0 <= ay < h ==> obstacle@[gidx(w as int, ax, ay)] == blocked(
                    walls@,
                    start,
                    end,
                    x0 + ax,
                    y0 + ay,
                ),
            forall|ax: int, ay: int|
                0 <= ax < w && 0 <= ay < h ==> cur@[gidx(w as int, ax, ay)] == reach(
                    walls@,
                    start,
                    end,
                    x0 as int,
                    x1 as int,
                    y0 as int,
                    y1 as int,
                    round as int,
                ).contains((x0 + ax, y0 + ay)),
            forall|rr: int|
                0 <= rr < round ==> !(#[trigger] reach(
                    walls@,
                    start,
                    end,
                    x0 as int,
                    x1 as int,
                    y0 as int,
                    y1 as int,
                    rr,
                ).contains(pt(end))),
        decreases (area as int) + 1 - count_true(cur@),
    {
        if cur[eidx] {
            return Some(round);
        }
        let (next, changed) = expand_layer(
            walls,
            start,
            end,
            x0,
            x1,
            y0,
            y1,
            w,
            h,
            area,
            &obstacle,
            &cur,
            round,
        );
        if !changed {
            proof {
                let ghost lay = reach(
                    walls@,
                    start,
                    end,
                    x0 as int,
                    x1 as int,
                    y0 as int,
                    y1 as int,
                    round as int,
                );
                let ghost lay1 = reach(
                    walls@,
                    start,
                    end,
                    x0 as int,
                    x1 as int,
                    y0 as int,
                    y1 as int,
                    round as int + 1,
                );
                lemma_reach_in_bb(
                    walls@,
                    start,
                    end,
                    x0 as int,
                    x1 as int,
                    y0 as int,
                    y1 as int,
                    round as int + 1,
                );
                assert(lay1 =~= lay) by {
                    assert forall|p: (int, int)| #[trigger] lay1.contains(p) implies lay.contains(
                        p,
                    ) by {
                        if !lay.contains(p) {
                            assert(in_bb(x0 as int, x1 as int, y0 as int, y1 as int, p.0, p.1));
                            let ax = p.0 - x0;
                            let ay = p.1 - y0;
                            assert(0 <= ax < w && 0 <= ay < h);
                            lemma_gidx_bij(w as int, h as int, ax, ay, ax, ay);
                            assert(next@[gidx(w as int, ax, ay)] == lay1.contains((p.0, p.1)));
                            assert(cur@[gidx(w as int, ax, ay)] == lay.contains((p.0, p.1)));
                            assert(p == (p.0, p.1));
                        }
                    }
                }
                assert forall|rr: int|
                    rr >= 0 implies !(#[trigger] reach(
                    walls@,
                    start,
                    end,
                    x0 as int,
                    x1 as int,
                    y0 as int,
                    y1 as int,
                    rr,
                ).contains(pt(end))) by {
                    if rr >= round {
                        lemma_reach_fixpoint(
                            walls@,
                            start,
                            end,
                            x0 as int,
                            x1 as int,
                            y0 as int,
                            y1 as int,
                            round as int,
                            rr,
                        );
                        assert(!lay.contains((x0 + egx, y0 + egy)));
                    }
                }
            }
            return None;
        }
        proof {
            lemma_count_le(next@);
            assert(!reach(
                walls@,
                start,
                end,
                x0 as int,
                x1 as int,
                y0 as int,
                y1 as int,
                round as int,
            ).contains((x0 + egx, y0 + egy)));
        }
        cur = next;
        round = round + 1;
    }
}

/// The number of `true` cells of a boolean grid.
pub open spec fn count_true(s: Seq<bool>) -> int
    decreases s.len(),
{
    if s.len() == 0 {
        0
    } else {
        count_true(s.drop_last()) + if s.last() {
            1int
        } else {
            0int
        }
    }
}

/// The count of `true` cells never exceeds the grid size.
proof fn lemma_count_le(s: Seq<bool>)
    ensures
        0 <= count_true(s) <= s.len(),
    decreases s.len(),
{
    if s.len() > 0 {
        lemma_count_le(s.drop_last());
    }
}

/// Unfolds the count of a prefix by one cell.
proof fn lemma_count_take_succ(s: Seq<bool>, i: int)
    requires
        0 <= i < s.len(),
    ensures
        count_true(s.take(i + 1)) == count_true(s.take(i)) + if s[i] {
            1int
        } else {
            0int
        },
{
    assert(s.take(i + 1).drop_last() =~= s.take(i));
    assert(s.take(i + 1).last() == s[i]);
}

/// Distinct cells of the grid have distinct linear indices.
proof fn lemma_gidx_bij(w: int, h: int, ax: int, ay: int, bx: int, by: int)
    requires
        0 < w,
        0 <= ax < w,
        0 <= ay < h,
        0 <= bx < w,
        0 <= by < h,
    ensures
        gidx(w, ax, ay) == gidx(w, bx, by) <==> (ax == bx && ay == by),
        0 <= gidx(w, ax, ay) < w * h,
{
    assert((gidx(w, ax, ay) == gidx(w, bx, by) <==> (ax == bx && ay == by)) && 0 <= gidx(w, ax, ay)
        < w * h) by (nonlinear_arith)
        requires
            0 < w,
            0 <= ax < w,
            0 <= ay < h,
            0 <= bx < w,
            0 <= by < h,
            gidx(w, ax, ay) == ay * w + ax,
            gidx(w, bx, by) == by * w + bx,
    ;
}

/// A neighbouring unblocked box point of a reached point is reached one
/// move later.
proof fn lemma_neighbor_reach(
    walls: Seq<Segment>,
    start: Vec2,
    end: Vec2,
    x0: int,
    x1: int,
    y0: int,
    y1: int,
    r: int,
    px: int,
    py: int,
    qx: int,
    qy: int,
)
    requires
        r >= 0,
        reach(walls, start, end, x0, x1, y0, y1, r).contains((px, py)),
        in_bb(x0, x1, y0, y1, qx, qy),
        !blocked(walls, start, end, qx, qy),
        (qx - px == 1 && qy == py) || (px - qx == 1 && qy == py) || (qy - py == 1 && qx == px) || (
        py - qy == 1 && qx == px),
    ensures
        reach(walls, start, end, x0, x1, y0, y1, r + 1).contains((qx, qy)),
{
    assert(reach(walls, start, end, x0, x1, y0, y1, r).contains(((qx, qy).0 - 1, (qx, qy).1))
        || reach(walls, start, end, x0, x1, y0, y1, r).contains(((qx, qy).0 + 1, (qx, qy).1))
        || reach(walls, start, end, x0, x1, y0, y1, r).contains(((qx, qy).0, (qx, qy).1 - 1))
        || reach(walls, start, end, x0, x1, y0, y1, r).contains(((qx, qy).0, (qx, qy).1 + 1)));
}

/// Walking one axis-aligned run whose every traced cell is an unblocked
/// box point extends reachability by the run's length.
proof fn lemma_run_reach(
    walls: Seq<Segment>,
    start: Vec2,
    end: Vec2,
    x0: int,
    x1: int,
    y0: int,
    y1: int,
    p: (int, int),
    v: Vec2,
    r: int,
)
    requires
        r >= 0,
        v.0 == 0 || v.1 == 0,
        reach(walls, start, end, x0, x1, y0, y1, r).contains(p),
        forall|qx: int, qy: int|
            #[trigger] in_box(p, add2(p, pt(v)), qx, qy) ==> in_bb(x0, x1, y0, y1, qx, qy)
                && !blocked(walls, start, end, qx, qy),
    ensures
        reach(walls, start, end, x0, x1, y0, y1, r + vmag(v)).contains(add2(p, pt(v))),
    decreases vmag(v),
{
    if v.0 == 0 && v.1 == 0 {
        assert(add2(p, pt(v)) == p);
    } else {
        let u = Vec2(
            crate::geometry::sgn(v.0 as int) as i64,
            crate::geometry::sgn(v.1 as int) as i64,
        );
        let q = add2(p, pt(u));
        assert(in_box(p, add2(p, pt(v)), q.0, q.1));
        lemma_neighbor_reach(walls, start, end, x0, x1, y0, y1, r, p.0, p.1, q.0, q.1);
        let w = Vec2((v.0 - u.0) as i64, (v.1 - u.1) as i64);
        assert(vmag(w) == vmag(v) - 1);
        assert forall|qx: int, qy: int|
            #[trigger] in_box(q, add2(q, pt(w)), qx, qy) implies in_bb(x0, x1, y0, y1, qx, qy)
            && !blocked(walls, start, end, qx, qy) by {
            assert(in_box(p, add2(p, pt(v)), qx, qy));
        }
        lemma_run_reach(walls, start, end, x0, x1, y0, y1, q, w, r + 1);
        assert(add2(q, pt(w)) == add2(p, pt(v)));
    }
}

/// Every cursor position of a wall-avoiding path that stays inside the
/// box is reached within the path's length so far.
proof fn lemma_path_reach(
    walls: Seq<Segment>,
    end: Vec2,
    x0: int,
    x1: int,
    y0: int,
    y1: int,
    anchor: Vec2,
    steps: Seq<Vec2>,
    j: int,
)
    requires
        0 <= j <= steps.len(),
        steps_wf(steps),
        vmag(anchor) <= 1,
        trace_clear_or_origin(walls, anchor, steps, end),
        in_bb(x0, x1, y0, y1, 0, 0),
        in_bb(x0, x1, y0, y1, anchor.0 as int, anchor.1 as int),
        !blocked(walls, Vec2(0i64, 0i64), end, anchor.0 as int, anchor.1 as int),
        forall|px: int, py: int|
            #[trigger] on_path(anchor, steps, px, py) ==> in_bb(x0, x1, y0, y1, px, py)
                && !blocked(walls, Vec2(0i64, 0i64), end, px, py),
    ensures
        reach(
            walls,
            Vec2(0i64, 0i64),
            end,
            x0,
            x1,
            y0,
            y1,
            vmag(anchor) + mags(steps.take(j)),
        ).contains(posn(anchor, steps, j)),
    decreases j,
{
    let origin = Vec2(0i64, 0i64);
    if j == 0 {
        assert(steps.take(0) =~= Seq::<Vec2>::empty());
        assert(reach(walls, origin, end, x0, x1, y0, y1, 0).contains(pt(origin)));
        if anchor.0 == 0 && anchor.1 == 0 {
            assert(reach(walls, origin, end, x0, x1, y0, y1, vmag(anchor)).contains(pt(anchor)));
        } else {
            lemma_neighbor_reach(
                walls,
                origin,
                end,
                x0,
                x1,
                y0,
                y1,
                0,
                0,
                0,
                anchor.0 as int,
                anchor.1 as int,
            );
        }
        assert(posn(anchor, steps, 0) == pt(anchor));
    } else {
        lemma_path_reach(walls, end, x0, x1, y0, y1, anchor, steps, j - 1);
        lemma_take_succ(steps, j - 1);
        let p = posn(anchor, steps, j - 1);
        let v = steps[j - 1];
        lemma_mags_nonneg(steps.take(j - 1));
        assert forall|qx: int, qy: int|
            #[trigger] in_box(p, add2(p, pt(v)), qx, qy) implies in_bb(x0, x1, y0, y1, qx, qy)
            && !blocked(walls, origin, end, qx, qy) by {
            assert(in_box(posn(anchor, steps, j - 1), posn(anchor, steps, j), qx, qy));
            assert(on_path(anchor, steps, qx, qy));
        }
        lemma_run_reach(
            walls,
            origin,
            end,
            x0,
            x1,
            y0,
            y1,
            p,
            v,
            vmag(anchor) + mags(steps.take(j - 1)),
        );
    }
}

/// No wall-avoiding path that stays inside the search box is shorter
/// than the least layer that reaches the end: the reference optimum is a
/// true lower bound on every path the navigator can return.
pub proof fn lemma_no_shorter_path(
    walls: Seq<Segment>,
    end: Vec2,
    x0: int,
    x1: int,
    y0: int,
    y1: int,
    anchor: Vec2,
    steps: Seq<Vec2>,
    d: int,
)
    requires
        steps_wf(steps),
        vmag(anchor) <= 1,
        add2(pt(anchor), ssum(steps)) == pt(end),
        trace_clear_or_origin(walls, anchor, steps, end),
        in_bb(x0, x1, y0, y1, 0, 0),
        in_bb(x0, x1, y0, y1, anchor.0 as int, anchor.1 as int),
        !blocked(walls, Vec2(0i64, 0i64), end, anchor.0 as int, anchor.1 as int),
        forall|px: int, py: int|
            #[trigger] on_path(anchor, steps, px, py) ==> in_bb(x0, x1, y0, y1, px, py)
                && !blocked(walls, Vec2(0i64, 0i64), end, px, py),
        forall|rr: int|
            0 <= rr < d ==> !(#[trigger] reach(
                walls,
                Vec2(0i64, 0i64),
                end,
                x0,
                x1,
                y0,
                y1,
                rr,
            ).contains(pt(end))),
    ensures
        d <= vmag(anchor) + mags(steps),
{
    lemma_path_reach(walls, end, x0, x1, y0, y1, anchor, steps, steps.len() as int);
    assert(steps.take(steps.len() as int) =~= steps);
    assert(posn(anchor, steps, steps.len() as int) == pt(end));
    lemma_mags_nonneg(steps);
}

} // verus!
