//! A* pathfinding over the tile map: 8-directional moves with
//! corner-cutting prevention, uniform step cost, Manhattan-distance
//! heuristic, and reconstruction of the found path in world coordinates.

use vstd::prelude::*;
use crate::conf::{MAX_DIM, POS_BOUND, SQUARE_SIZE};
use crate::frontier::{pq_model, pq_new, pq_pop, pq_push, Frontier};
use crate::geometry::{GridCell, WorldPos};
use crate::map::{cell_to_world, in_cell_list, TileMap};
use crate::math::{abs_val, dist, distance};

verus! {

/// The marker for a cell that has no recorded cost or parent yet.
pub const UNSET: u32 = 0xFFFF_FFFF;

/// Gets the manhattan distance between two points.
pub fn manhattan_distance(from: &GridCell, to: &GridCell) -> (r: u64)
    ensures
        r == abs_val(from.x as int - to.x as int) + abs_val(from.y as int - to.y as int),
{
    let x_dis: u64 = if from.x >= to.x {
        (from.x - to.x) as u64
    } else {
        (to.x - from.x) as u64
    };
    let y_dis: u64 = if from.y >= to.y {
        (from.y - to.y) as u64
    } else {
        (to.y - from.y) as u64
    };
    x_dis + y_dis
}

/// A single admitted move of the pathfinder: the target cell is walkable and
/// one step away (orthogonally or diagonally), and a diagonal move also
/// needs both flanking orthogonal cells walkable, so that no move cuts a
/// wall corner.
pub open spec fn admitted_move(m: TileMap, ax: int, ay: int, bx: int, by: int) -> bool {
    let dx = bx - ax;
    let dy = by - ay;
    &&& m.walkable(bx, by)
    &&& (dx == 0 || dx == 1 || dx == -1)
    &&& (dy == 0 || dy == 1 || dy == -1)
    &&& !(dx == 0 && dy == 0)
    &&& (dx == 0 || dy == 0 || (m.walkable(ax + dx, ay) && m.walkable(ax, ay + dy)))
}

/// A sequence of cells is a path when it starts at the start cell, ends at
/// the goal cell, and every consecutive pair is an admitted move.
pub open spec fn is_path(m: TileMap, cells: Seq<(int, int)>, sx: int, sy: int, gx: int, gy: int) -> bool {
    &&& cells.len() >= 1
    &&& cells[0] == (sx, sy)
    &&& cells[cells.len() - 1] == (gx, gy)
    &&& forall|i: int|
        0 <= i < cells.len() - 1 ==> admitted_move(
            m,
            (#[trigger] cells[i]).0,
            cells[i].1,
            cells[i + 1].0,
            cells[i + 1].1,
        )
}

/// The goal cell can be reached from the start cell by admitted moves (or
/// equals it).
pub open spec fn reachable(m: TileMap, sx: int, sy: int, gx: int, gy: int) -> bool {
    exists|cells: Seq<(int, int)>| is_path(m, cells, sx, sy, gx, gy)
}

/// A goal that cannot be walked on is unreachable from any other cell: a
/// path of two or more cells would end with an admitted move onto it.
pub proof fn lemma_unwalkable_goal_unreachable(m: TileMap, sx: int, sy: int, gx: int, gy: int)
    requires
        !m.walkable(gx, gy),
        (sx, sy) != (gx, gy),
    ensures
        !reachable(m, sx, sy, gx, gy),
{
    if reachable(m, sx, sy, gx, gy) {
        let cells = choose|cells: Seq<(int, int)>| is_path(m, cells, sx, sy, gx, gy);
        if cells.len() == 1 {
            assert(cells[0] == (sx, sy) && cells[0] == (gx, gy));
        } else {
            let k = cells.len() - 2;
            assert(admitted_move(m, cells[k].0, cells[k].1, cells[k + 1].0, cells[k + 1].1));
            assert(m.walkable(gx, gy));
        }
    }
}

/// Appends the candidate cell one step in the given direction when that
/// step is an admitted move.
fn maybe_push(r: &mut Vec<GridCell>, map: &TileMap, p: GridCell, dx: i64, dy: i64)
    requires
        map.wf(),
        map.in_bounds_spec(p.x as int, p.y as int),
        -1 <= dx <= 1,
        -1 <= dy <= 1,
        !(dx == 0 && dy == 0),
        !in_cell_list(old(r)@, p.x + dx, p.y + dy),
    ensures
        forall|bx: int, by: int|
            in_cell_list(final(r)@, bx, by) <==> (in_cell_list(old(r)@, bx, by) || (admitted_move(
                *map,
                p.x as int,
                p.y as int,
                bx,
                by,
            ) && bx == p.x + dx && by == p.y + dy)),
        (forall|i: int, j: int| 0 <= i < j < old(r)@.len() ==> old(r)@[i] != old(r)@[j]) ==> (
        forall|i: int, j: int| 0 <= i < j < final(r)@.len() ==> final(r)@[i] != final(r)@[j]),
{
    let cx: i64 = p.x as i64 + dx;
    let cy: i64 = p.y as i64 + dy;
    if cx < 0 || cy < 0 {
        return ;
    }
    let cand = GridCell { x: cx as u32, y: cy as u32 };
    let ok: bool = if dx != 0 && dy != 0 {
        map.is_walkable(&cand) && map.is_walkable(&GridCell { x: cand.x, y: p.y })
            && map.is_walkable(&GridCell { x: p.x, y: cand.y })
    } else {
        map.is_walkable(&cand)
    };
    proof {
        assert(ok == admitted_move(*map, p.x as int, p.y as int, p.x + dx, p.y + dy));
    }
    if ok {
        let ghost pre = r@;
        r.push(cand);
        proof {
            assert(r@ == pre.push(cand));
            assert(r@[pre.len() as int] == cand);
            assert forall|bx: int, by: int| in_cell_list(r@, bx, by) implies (in_cell_list(
                pre,
                bx,
                by,
            ) || (bx == cand.x && by == cand.y)) by {
                let i = choose|i: int|
                    0 <= i < r@.len() && (#[trigger] r@[i]).x == bx && r@[i].y == by;
                if i < pre.len() {
                    assert(pre[i] == r@[i]);
                    assert(in_cell_list(pre, bx, by));
                }
            };
            assert forall|bx: int, by: int| (in_cell_list(pre, bx, by) || (bx == cand.x && by
                == cand.y)) implies in_cell_list(r@, bx, by) by {
                if in_cell_list(pre, bx, by) {
                    let i = choose|i: int|
                        0 <= i < pre.len() && (#[trigger] pre[i]).x == bx && pre[i].y == by;
                    assert(r@[i] == pre[i]);
                    assert(in_cell_list(r@, bx, by));
                } else {
                    assert(r@[pre.len() as int].x == bx && r@[pre.len() as int].y == by);
                    assert(in_cell_list(r@, bx, by));
                }
            };
            if forall|i: int, j: int| 0 <= i < j < pre.len() ==> pre[i] != pre[j] {
                assert forall|i: int, j: int| 0 <= i < j < r@.len() implies r@[i] != r@[j] by {
                    if j == pre.len() {
                        assert(r@[j] == cand);
                        assert(r@[i] == pre[i]);
                        if r@[i] == cand {
                            assert(in_cell_list(pre, cand.x as int, cand.y as int));
                            assert(false);
                        }
                    } else {
                        assert(r@[i] == pre[i] && r@[j] == pre[j]);
                    }
                };
            }
        }
    }
}

/// Returns a list of the admitted moves from a cell: the four orthogonal
/// steps onto walkable cells and the four diagonal steps whose target and
/// both flanking cells are walkable.
pub fn neighbors(point: &GridCell, map: &TileMap) -> (r: Vec<GridCell>)
    requires
        map.wf(),
        map.in_bounds_spec(point.x as int, point.y as int),
    ensures
        forall|bx: int, by: int|
            in_cell_list(r@, bx, by) <==> admitted_move(*map, point.x as int, point.y as int, bx, by),
        forall|i: int, j: int| 0 <= i < j < r@.len() ==> r@[i] != r@[j],
{
    let mut r: Vec<GridCell> = Vec::new();
    proof {
        assert forall|bx: int, by: int| !in_cell_list(r@, bx, by) by {
            assert(r@.len() == 0);
        };
    }
    maybe_push(&mut r, map, *point, 0, 1);
    proof {
        assert(!in_cell_list(r@, point.x as int, point.y - 1));
    }
    maybe_push(&mut r, map, *point, 0, -1);
    proof {
        assert(!in_cell_list(r@, point.x + 1, point.y as int));
    }
    maybe_push(&mut r, map, *point, 1, 0);
    proof {
        assert(!in_cell_list(r@, point.x - 1, point.y as int));
    }
    maybe_push(&mut r, map, *point, -1, 0);
    proof {
        assert(!in_cell_list(r@, point.x + 1, point.y + 1));
    }
    maybe_push(&mut r, map, *point, 1, 1);
    proof {
        assert(!in_cell_list(r@, point.x + 1, point.y - 1));
    }
    maybe_push(&mut r, map, *point, 1, -1);
    proof {
        assert(!in_cell_list(r@, point.x - 1, point.y + 1));
    }
    maybe_push(&mut r, map, *point, -1, 1);
    proof {
        assert(!in_cell_list(r@, point.x - 1, point.y - 1));
    }
    maybe_push(&mut r, map, *point, -1, -1);
    proof {
        assert forall|bx: int, by: int| admitted_move(
            *map,
            point.x as int,
            point.y as int,
            bx,
            by,
        ) implies in_cell_list(r@, bx, by) by {
            let dx = bx - point.x;
            let dy = by - point.y;
            assert((dx == 0 || dx == 1 || dx == -1) && (dy == 0 || dy == 1 || dy == -1) && !(dx == 0
                && dy == 0));
        };
    }
    r
}


/// The total truncated Euclidean length of a waypoint list, measured from a
/// starting position through every waypoint in order.
pub open spec fn path_dist(from: WorldPos, path: Seq<WorldPos>) -> int
    decreases path.len(),
{
    if path.len() == 0 {
        0
    } else {
        dist(from.x as int, from.y as int, path[0].x as int, path[0].y as int) + path_dist(
            path[0],
            path.drop_first(),
        )
    }
}

/// Appending a waypoint adds exactly the distance from the previous end.
proof fn lemma_path_dist_push(from: WorldPos, path: Seq<WorldPos>, w: WorldPos)
    ensures
        path_dist(from, path.push(w)) == path_dist(from, path) + (if path.len() == 0 {
            dist(from.x as int, from.y as int, w.x as int, w.y as int)
        } else {
            dist(
                path[path.len() - 1].x as int,
                path[path.len() - 1].y as int,
                w.x as int,
                w.y as int,
            )
        }),
    decreases path.len(),
{
    if path.len() == 0 {
        assert(path.push(w).len() == 1);
        assert(path.push(w)[0] == w);
        assert(path.push(w).drop_first() =~= Seq::<WorldPos>::empty());
        assert(path_dist(w, Seq::<WorldPos>::empty()) == 0);
        assert(path_dist(from, path.push(w)) == dist(
            from.x as int,
            from.y as int,
            w.x as int,
            w.y as int,
        ));
        assert(path_dist(from, path) == 0);
    } else {
        assert(path.push(w).drop_first() =~= path.drop_first().push(w));
        assert(path.push(w)[0] == path[0]);
        assert(path.push(w).len() != 0);
        lemma_path_dist_push(path[0], path.drop_first(), w);
        assert(path_dist(from, path.push(w)) == dist(
            from.x as int,
            from.y as int,
            path[0].x as int,
            path[0].y as int,
        ) + path_dist(path[0], path.drop_first().push(w)));
        assert(path_dist(from, path) == dist(
            from.x as int,
            from.y as int,
            path[0].x as int,
            path[0].y as int,
        ) + path_dist(path[0], path.drop_first()));
        if path.len() > 1 {
            assert(path.drop_first().len() != 0);
            assert(path.drop_first()[path.drop_first().len() - 1] == path[path.len() - 1]);
        } else {
            assert(path.drop_first().len() == 0);
            assert(path[path.len() - 1] == path[0]);
        }
    }
}

/// A path length is never negative.
proof fn lemma_path_dist_nonneg(from: WorldPos, path: Seq<WorldPos>)
    ensures
        path_dist(from, path) >= 0,
    decreases path.len(),
{
    if path.len() > 0 {
        lemma_path_dist_nonneg(path[0], path.drop_first());
    }
}

/// The travel-time estimate is never negative, and appending a waypoint to
/// a path never decreases it.
pub proof fn lemma_path_time_monotone(from: WorldPos, path: Seq<WorldPos>, w: WorldPos, speed: int)
    requires
        speed >= 1,
    ensures
        path_dist(from, path) >= 0,
        path_dist(from, path.push(w)) >= path_dist(from, path),
        path_dist(from, path) * 1000 / speed >= 0,
        path_dist(from, path.push(w)) * 1000 / speed >= path_dist(from, path) * 1000 / speed,
{
    lemma_path_dist_nonneg(from, path);
    lemma_path_dist_push(from, path, w);
    let a = path_dist(from, path);
    let b = path_dist(from, path.push(w));
    assert(a * 1000 / speed >= 0 && b * 1000 / speed >= a * 1000 / speed) by (nonlinear_arith)
        requires
            0 <= a <= b,
            speed >= 1,
    ;
}

/// Calculates the time it takes to travel along a path, in thousandths of a
/// second: the Euclidean length of the path, measured from the current
/// position through every waypoint, divided by the speed in world units per
/// second. An empty path takes no time. A non-positive speed is a caller
/// error, kept out by contract.
pub fn path_time(current_pos: &WorldPos, speed: i64, path: &Vec<WorldPos>) -> (r: u64)
    requires
        speed >= 1,
        -POS_BOUND <= current_pos.x <= POS_BOUND,
        -POS_BOUND <= current_pos.y <= POS_BOUND,
        path@.len() <= 0x10_0000,
        forall|i: int|
            0 <= i < path@.len() ==> -POS_BOUND <= (#[trigger] path@[i]).x <= POS_BOUND
                && -POS_BOUND <= path@[i].y <= POS_BOUND,
    ensures
        r == path_dist(*current_pos, path@) * 1000 / (speed as int),
{
    let mut total: u64 = 0;
    let mut prev: WorldPos = *current_pos;
    let mut i: usize = 0;
    proof {
        assert(path@.take(0) =~= Seq::<WorldPos>::empty());
    }
    while i < path.len()
        invariant
            speed >= 1,
            -POS_BOUND <= current_pos.x <= POS_BOUND,
            -POS_BOUND <= current_pos.y <= POS_BOUND,
            path@.len() <= 0x10_0000,
            forall|k: int|
                0 <= k < path@.len() ==> -POS_BOUND <= (#[trigger] path@[k]).x <= POS_BOUND
                    && -POS_BOUND <= path@[k].y <= POS_BOUND,
            0 <= i <= path@.len(),
            prev == (if i == 0 {
                *current_pos
            } else {
                path@[i - 1]
            }),
            total == path_dist(*current_pos, path@.take(i as int)),
            total <= i * 0x1_0000_0001,
        decreases path@.len() - i,
    {
        let wp = path[i];
        let d = distance(&prev, &wp);
        proof {
            let pre = path@.take(i as int);
            assert(path@.take(i as int + 1) =~= pre.push(wp));
            lemma_path_dist_push(*current_pos, pre, wp);
            if i > 0 {
                assert(pre[pre.len() - 1] == path@[i - 1]);
            }
            assert(i * 0x1_0000_0001 + 0x1_0000_0001 <= 0x10_0000 * 0x1_0000_0001)
                by (nonlinear_arith)
                requires
                    0 <= i as int <= 0x10_0000 - 1,
            ;
        }
        total = total + (d as u64);
        prev = wp;
        i = i + 1;
    }
    proof {
        assert(path@.take(path@.len() as int) =~= path@);
        lemma_path_dist_nonneg(*current_pos, path@);
        assert(total <= 0x10_0000 * 0x1_0000_0001 && total * 1000 <= 0xFFFF_FFFF_FFFF_FFFF)
            by (nonlinear_arith)
            requires
                0 <= total as int <= path@.len() * 0x1_0000_0001,
                path@.len() <= 0x10_0000,
        ;
    }
    let sp: u64 = speed as u64;
    proof {
        assert(sp as int == speed as int);
    }
    let time: u64 = total * 1000 / sp;
    time
}

/// The id of a cell in the row-major order of a grid of width `w`.
pub open spec fn cell_id(x: int, y: int, w: int) -> int {
    y * w + x
}

/// In-bounds cells map to ids below the cell count, and the id determines
/// the cell.
pub proof fn lemma_cell_id_bounds(x: int, y: int, w: int, h: int)
    requires
        0 <= x < w,
        0 <= y < h,
    ensures
        0 <= cell_id(x, y, w) < w * h,
        cell_id(x, y, w) % w == x,
        cell_id(x, y, w) / w == y,
{
    assert(0 <= y * w + x < w * h && (y * w + x) % w == x && (y * w + x) / w == y)
        by (nonlinear_arith)
        requires
            0 <= x < w,
            0 <= y < h,
    ;
}

/// The remaining-cost value of one slot: its cost if set, else the bound.
pub open spec fn rem_val(v: u32, bound: int) -> int {
    if v == UNSET {
        bound
    } else {
        v as int
    }
}

/// Sum of the remaining-cost values of all slots.
pub open spec fn sum_rem(cm: Seq<u32>, bound: int) -> int
    decreases cm.len(),
{
    if cm.len() == 0 {
        0
    } else {
        sum_rem(cm.drop_last(), bound) + rem_val(cm.last(), bound)
    }
}

/// Updating one slot changes the sum by the difference of that slot's
/// remaining-cost values.
pub proof fn lemma_sum_rem_update(cm: Seq<u32>, bound: int, i: int, v: u32)
    requires
        0 <= i < cm.len(),
    ensures
        sum_rem(cm.update(i, v), bound) == sum_rem(cm, bound) - rem_val(cm[i], bound) + rem_val(
            v,
            bound,
        ),
    decreases cm.len(),
{
    let up = cm.update(i, v);
    if i == cm.len() - 1 {
        assert(up.drop_last() =~= cm.drop_last());
        assert(up.last() == v);
    } else {
        assert(up.drop_last() =~= cm.drop_last().update(i, v));
        assert(up.last() == cm.last());
        lemma_sum_rem_update(cm.drop_last(), bound, i, v);
    }
}

/// With a nonnegative bound, every slot value is nonnegative, so the sum is.
pub proof fn lemma_sum_rem_nonneg(cm: Seq<u32>, bound: int)
    requires
        bound >= 0,
    ensures
        sum_rem(cm, bound) >= 0,
    decreases cm.len(),
{
    if cm.len() > 0 {
        lemma_sum_rem_nonneg(cm.drop_last(), bound);
    }
}

/// The number of slots that hold a recorded cost.
pub open spec fn count_set(cm: Seq<u32>) -> int
    decreases cm.len(),
{
    if cm.len() == 0 {
        0
    } else {
        count_set(cm.drop_last()) + (if cm.last() == UNSET {
            0int
        } else {
            1int
        })
    }
}

/// The count of set slots never exceeds the slot count.
pub proof fn lemma_count_set_bounds(cm: Seq<u32>)
    ensures
        0 <= count_set(cm) <= cm.len(),
    decreases cm.len(),
{
    if cm.len() > 0 {
        lemma_count_set_bounds(cm.drop_last());
    }
}

/// Setting an unset slot raises the count by one; lowering a set slot to
/// another set value keeps it.
pub proof fn lemma_count_set_update(cm: Seq<u32>, i: int, v: u32)
    requires
        0 <= i < cm.len(),
        v != UNSET,
    ensures
        cm[i] == UNSET ==> count_set(cm.update(i, v)) == count_set(cm) + 1,
        cm[i] != UNSET ==> count_set(cm.update(i, v)) == count_set(cm),
    decreases cm.len(),
{
    let up = cm.update(i, v);
    if i == cm.len() - 1 {
        assert(up.drop_last() =~= cm.drop_last());
        assert(up.last() == v);
    } else {
        assert(up.drop_last() =~= cm.drop_last().update(i, v));
        assert(up.last() == cm.last());
        lemma_count_set_update(cm.drop_last(), i, v);
    }
}


/// A vector of `n` copies of `v`.
fn filled(n: usize, v: u32) -> (r: Vec<u32>)
    ensures
        r@.len() == n,
        forall|i: int| 0 <= i < n ==> r@[i] == v,
{
    let mut r: Vec<u32> = Vec::new();
    while r.len() < n
        invariant
            r@.len() <= n,
            forall|i: int| 0 <= i < r@.len() ==> r@[i] == v,
        decreases n - r@.len(),
    {
        r.push(v);
    }
    r
}

/// A sequence of all-unset slots has no set slot.
proof fn lemma_count_set_all_unset(cm: Seq<u32>)
    requires
        forall|i: int| 0 <= i < cm.len() ==> cm[i] == UNSET,
    ensures
        count_set(cm) == 0,
    decreases cm.len(),
{
    if cm.len() > 0 {
        lemma_count_set_all_unset(cm.drop_last());
    }
}

/// An id below the cell count decodes to an in-bounds cell.
pub proof fn lemma_id_coords(id: int, w: int, h: int)
    requires
        1 <= w,
        0 <= id < w * h,
    ensures
        0 <= id % w < w,
        0 <= id / w < h,
        cell_id(id % w, id / w, w) == id,
    {
    assert(0 <= id % w < w && 0 <= id / w < h && (id / w) * w + id % w == id) by (nonlinear_arith)
        requires
            1 <= w,
            0 <= id < w * h,
    ;
}

/// The search bookkeeping is consistent: the vectors cover the grid, the
/// start cell has cost zero and is its own parent, costs stay below the
/// number of set slots, and every other set cell is walkable and one
/// admitted move after its parent, whose cost is strictly smaller.
pub open spec fn state_ok(m: TileMap, cm: Seq<u32>, pm: Seq<u32>, sx: int, sy: int) -> bool {
    let w = m.width as int;
    let h = m.height as int;
    let n = w * h;
    let sid = cell_id(sx, sy, w);
    &&& cm.len() == n
    &&& pm.len() == n
    &&& 0 <= sid < n
    &&& cm[sid] == 0
    &&& pm[sid] == sid
    &&& forall|id: int| 0 <= id < n && #[trigger] cm[id] != UNSET ==> cm[id] < count_set(cm)
    &&& forall|id: int| 0 <= id < n ==> ((#[trigger] cm[id] != UNSET) <==> (pm[id] != UNSET))
    &&& forall|id: int|
        0 <= id < n && cm[id] != UNSET && id != sid ==> {
            let p = #[trigger] pm[id] as int;
            &&& m.walkable(id % w, id / w)
            &&& 0 <= p < n
            &&& cm[p] != UNSET
            &&& cm[p] + 1 <= cm[id]
            &&& admitted_move(m, p % w, p / w, id % w, id / w)
        }
}

/// Every admitted move out of the cell leads to a set cell whose cost is at
/// most one more than the cell's own.
pub open spec fn closed(m: TileMap, cm: Seq<u32>, id: int) -> bool {
    let w = m.width as int;
    forall|bx: int, by: int|
        #[trigger] admitted_move(m, id % w, id / w, bx, by) ==> cm[cell_id(bx, by, w)] != UNSET
            && cm[cell_id(bx, by, w)] <= cm[id] + 1
}

/// Every set cell is on the frontier or already expanded with its current
/// cost.
pub open spec fn closure_ok(m: TileMap, cm: Seq<u32>, q: Map<u64, u32>) -> bool {
    let n = m.width as int * m.height as int;
    forall|id: int|
        0 <= id < n && #[trigger] cm[id] != UNSET ==> q.dom().contains(id as u64) || closed(
            m,
            cm,
            id,
        )
}

/// The frontier holds only ids of set, in-grid cells.
pub open spec fn frontier_ok(m: TileMap, cm: Seq<u32>, q: Map<u64, u32>) -> bool {
    let n = m.width as int * m.height as int;
    &&& q.dom().finite()
    &&& forall|j: u64| #[trigger] q.dom().contains(j) ==> 0 <= j < n && cm[j as int] != UNSET
}

/// Along a path from the start, every cell is set, provided every set cell
/// is expanded.
proof fn lemma_path_all_set(
    m: TileMap,
    cm: Seq<u32>,
    cells: Seq<(int, int)>,
    sx: int,
    sy: int,
    i: int,
)
    requires
        m.in_bounds_spec(sx, sy),
        cm.len() == m.width as int * m.height as int,
        cm[cell_id(sx, sy, m.width as int)] != UNSET,
        forall|id: int|
            0 <= id < cm.len() && #[trigger] cm[id] != UNSET ==> closed(m, cm, id),
        cells.len() >= 1,
        cells[0] == (sx, sy),
        forall|k: int|
            0 <= k < cells.len() - 1 ==> admitted_move(
                m,
                (#[trigger] cells[k]).0,
                cells[k].1,
                cells[k + 1].0,
                cells[k + 1].1,
            ),
        0 <= i < cells.len(),
    ensures
        m.in_bounds_spec(cells[i].0, cells[i].1),
        cm[cell_id(cells[i].0, cells[i].1, m.width as int)] != UNSET,
    decreases i,
{
    let w = m.width as int;
    let h = m.height as int;
    if i == 0 {
        lemma_cell_id_bounds(sx, sy, w, h);
    } else {
        lemma_path_all_set(m, cm, cells, sx, sy, i - 1);
        let (px, py) = cells[i - 1];
        let (cx, cy) = cells[i];
        lemma_cell_id_bounds(px, py, w, h);
        let pid = cell_id(px, py, w);
        assert(admitted_move(m, px, py, cx, cy));
        lemma_id_coords(pid, w, h);
        assert(closed(m, cm, pid));
        assert(admitted_move(m, pid % w, pid / w, cx, cy));
        assert(cm[cell_id(cx, cy, w)] != UNSET);
        assert(m.walkable(cx, cy));
        lemma_cell_id_bounds(cx, cy, w, h);
    }
}

/// A reachable goal is the start itself or a walkable cell.
proof fn lemma_reachable_target(m: TileMap, sx: int, sy: int, gx: int, gy: int)
    requires
        reachable(m, sx, sy, gx, gy),
    ensures
        (gx, gy) == (sx, sy) || m.walkable(gx, gy),
{
    let cells = choose|cells: Seq<(int, int)>| is_path(m, cells, sx, sy, gx, gy);
    if cells.len() == 1 {
        assert(cells[0] == (sx, sy) && cells[0] == (gx, gy));
    } else {
        let k = cells.len() - 2;
        assert(admitted_move(m, cells[k].0, cells[k].1, cells[k + 1].0, cells[k + 1].1));
    }
}



/// Along a chain of admitted moves, each coordinate changes by at most one
/// per step, so a cell `i` steps in is at most `i` away on either axis.
pub proof fn lemma_admitted_chain_bound(m: TileMap, cells: Seq<(int, int)>, i: int)
    requires
        0 <= i < cells.len(),
        forall|k: int|
            0 <= k < cells.len() - 1 ==> admitted_move(
                m,
                (#[trigger] cells[k]).0,
                cells[k].1,
                cells[k + 1].0,
                cells[k + 1].1,
            ),
    ensures
        abs_val(cells[i].0 - cells[0].0) <= i,
        abs_val(cells[i].1 - cells[0].1) <= i,
    decreases i,
{
    if i > 0 {
        lemma_admitted_chain_bound(m, cells, i - 1);
        assert(admitted_move(m, cells[i - 1].0, cells[i - 1].1, cells[i].0, cells[i].1));
    }
}

/// A returned waypoint list is valid: every waypoint is the world position
/// of an in-grid cell, it starts at the start cell and ends at the goal
/// cell, and every consecutive pair is an admitted move.
pub open spec fn path_ok(m: TileMap, p: Seq<WorldPos>, sx: int, sy: int, gx: int, gy: int) -> bool {
    let ws = SQUARE_SIZE as int;
    &&& p.len() >= 1
    &&& p[0].x as int == sx * ws && p[0].y as int == sy * ws
    &&& p[p.len() - 1].x as int == gx * ws && p[p.len() - 1].y as int == gy * ws
    &&& forall|i: int|
        0 <= i < p.len() ==> (#[trigger] p[i]).x as int % ws == 0 && p[i].y as int % ws == 0 && 0
            <= p[i].x && 0 <= p[i].y
    &&& forall|i: int|
        0 <= i < p.len() - 1 ==> admitted_move(
            m,
            (#[trigger] p[i]).x as int / ws,
            p[i].y as int / ws,
            p[i + 1].x as int / ws,
            p[i + 1].y as int / ws,
        )
    &&& forall|i: int, j: int| 0 <= i < j < p.len() ==> p[i] != p[j]
}

/// A set sequence with an unset slot has fewer set slots than slots.
proof fn lemma_count_set_missing(cm: Seq<u32>, i: int)
    requires
        0 <= i < cm.len(),
        cm[i] == UNSET,
    ensures
        count_set(cm) <= cm.len() - 1,
    decreases cm.len(),
{
    lemma_count_set_bounds(cm.drop_last());
    if i == cm.len() - 1 {
    } else {
        lemma_count_set_missing(cm.drop_last(), i);
    }
}


/// One relaxation step of the search: recording a better cost and parent
/// for a neighbour of the expanded cell, and putting it on the frontier,
/// keeps every bookkeeping invariant and shrinks the termination measure.
#[verifier::rlimit(100)]
#[verifier::spinoff_prover]
proof fn lemma_expand_update(
    m: TileMap,
    cm: Seq<u32>,
    pm: Seq<u32>,
    q: Map<u64, u32>,
    cm2: Seq<u32>,
    pm2: Seq<u32>,
    q2: Map<u64, u32>,
    sx: int,
    sy: int,
    cx: int,
    cy: int,
    nx: int,
    ny: int,
    ccost: u32,
    prio: u32,
)
    requires
        m.wf(),
        m.in_bounds_spec(sx, sy),
        m.in_bounds_spec(cx, cy),
        state_ok(m, cm, pm, sx, sy),
        frontier_ok(m, cm, q),
        forall|id: int|
            0 <= id < cm.len() && #[trigger] cm[id] != UNSET && id != cell_id(cx, cy, m.width as int)
                ==> q.dom().contains(id as u64) || closed(m, cm, id),
        !q.dom().contains(cell_id(cx, cy, m.width as int) as u64),
        cm[cell_id(cx, cy, m.width as int)] == ccost,
        ccost != UNSET,
        ccost < m.width as int * m.height as int,
        admitted_move(m, cx, cy, nx, ny),
        cm[cell_id(nx, ny, m.width as int)] == UNSET || ccost + 1 < cm[cell_id(
            nx,
            ny,
            m.width as int,
        )],
        cm2 == cm.update(cell_id(nx, ny, m.width as int), (ccost + 1) as u32),
        pm2 == pm.update(
            cell_id(nx, ny, m.width as int),
            cell_id(cx, cy, m.width as int) as u32,
        ),
        q2 == q.insert(cell_id(nx, ny, m.width as int) as u64, prio),
    ensures
        state_ok(m, cm2, pm2, sx, sy),
        frontier_ok(m, cm2, q2),
        forall|id: int|
            0 <= id < cm2.len() && #[trigger] cm2[id] != UNSET && id != cell_id(
                cx,
                cy,
                m.width as int,
            ) ==> q2.dom().contains(id as u64) || closed(m, cm2, id),
        !q2.dom().contains(cell_id(cx, cy, m.width as int) as u64),
        cm2[cell_id(cx, cy, m.width as int)] == ccost,
        2 * sum_rem(cm2, cm.len() as int) + q2.dom().len() <= 2 * sum_rem(cm, cm.len() as int)
            + q.dom().len() - 1,
        forall|id: int|
            0 <= id < cm.len() && #[trigger] cm[id] != UNSET ==> cm2[id] != UNSET && cm2[id]
                <= cm[id],
        cm2[cell_id(nx, ny, m.width as int)] == ccost + 1,
        cm2.len() == cm.len(),
{
    let wi = m.width as int;
    let hi = m.height as int;
    let ni = wi * hi;
    let sid = cell_id(sx, sy, wi);
    let cid = cell_id(cx, cy, wi);
    let nid = cell_id(nx, ny, wi);
    let new_cost: u32 = (ccost + 1) as u32;
    assert(ni <= 0x4000_0000) by (nonlinear_arith)
        requires
            0 <= wi <= MAX_DIM,
            0 <= hi <= MAX_DIM,
            MAX_DIM == 0x8000,
            ni == wi * hi,
    ;
    assert(new_cost == ccost + 1 && new_cost != UNSET);
    lemma_cell_id_bounds(sx, sy, wi, hi);
    lemma_cell_id_bounds(cx, cy, wi, hi);
    assert(m.walkable(nx, ny));
    lemma_cell_id_bounds(nx, ny, wi, hi);
    assert(state_ok(m, cm, pm, sx, sy));
    assert(cm.len() == ni && pm.len() == ni);
    if nid == cid {
        assert(nx == cx && ny == cy);
        assert(false);
    }
    if nid == sid {
        assert(cm[sid] == 0);
        assert(false);
    }
    // counting and the termination measure
    lemma_count_set_update(cm, nid, new_cost);
    lemma_sum_rem_update(cm, ni, nid, new_cost);
    lemma_count_set_bounds(cm);
    if cm[nid] == UNSET {
        lemma_count_set_missing(cm, nid);
        assert(new_cost <= ni - 1);
        assert(rem_val(cm[nid], ni) - rem_val(new_cost, ni) >= 1);
    } else {
        assert(rem_val(cm[nid], ni) - rem_val(new_cost, ni) >= 1);
    }
    vstd::set::axiom_set_insert_len(q.dom(), nid as u64);
    assert(q2.dom() =~= q.dom().insert(nid as u64));
    assert(q2.dom().len() <= q.dom().len() + 1);
    assert(2 * sum_rem(cm2, ni) + q2.dom().len() <= 2 * sum_rem(cm, ni) + q.dom().len() - 1);
    // state_ok
    assert(count_set(cm2) >= count_set(cm));
    assert(cm2[sid] == 0 && pm2[sid] == sid);
    assert forall|id: int| 0 <= id < ni && #[trigger] cm2[id] != UNSET implies cm2[id] < count_set(
        cm2,
    ) by {
        if id != nid {
            assert(cm2[id] == cm[id]);
        } else {
            if cm[nid] == UNSET {
                assert(count_set(cm2) == count_set(cm) + 1);
                assert(ccost < count_set(cm));
            } else {
                assert(new_cost < cm[nid]);
                assert(cm[nid] < count_set(cm));
            }
        }
    };
    assert forall|id: int| 0 <= id < ni && cm2[id] != UNSET && id != sid implies {
        let pp = #[trigger] pm2[id] as int;
        &&& m.walkable(id % wi, id / wi)
        &&& 0 <= pp < ni
        &&& cm2[pp] != UNSET
        &&& cm2[pp] + 1 <= cm2[id]
        &&& admitted_move(m, pp % wi, pp / wi, id % wi, id / wi)
    } by {
        if id == nid {
            lemma_id_coords(cid, wi, hi);
            lemma_id_coords(nid, wi, hi);
            assert(pm2[id] as int == cid);
            assert(cm2[cid] == ccost);
            assert(admitted_move(m, cx, cy, nx, ny));
        } else {
            assert(cm2[id] == cm[id] && pm2[id] == pm[id]);
            let pp = pm[id] as int;
            if pp == nid {
                assert(cm[pp] != UNSET);
                assert(cm2[pp] <= cm[pp]);
            } else {
                assert(cm2[pp] == cm[pp]);
            }
        }
    };
    assert(state_ok(m, cm2, pm2, sx, sy));
    // frontier
    assert forall|jx: u64| #[trigger] q2.dom().contains(jx) implies 0 <= jx < ni && cm2[jx as int]
        != UNSET by {
        if jx != nid as u64 {
            assert(q.dom().contains(jx));
            assert(cm2[jx as int] == cm[jx as int] || jx as int == nid);
        }
    };
    // closure for all set cells but the expanded one
    assert forall|id: int| 0 <= id < ni && #[trigger] cm2[id] != UNSET && id != cid implies
        q2.dom().contains(id as u64) || closed(m, cm2, id) by {
        if id == nid {
            assert(q2.dom().contains(id as u64));
        } else {
            assert(cm[id] == cm2[id]);
            if q.dom().contains(id as u64) {
                assert(q2.dom().contains(id as u64));
            } else {
                assert(closed(m, cm, id));
                assert forall|bx: int, by: int| #[trigger] admitted_move(
                    m,
                    id % wi,
                    id / wi,
                    bx,
                    by,
                ) implies cm2[cell_id(bx, by, wi)] != UNSET && cm2[cell_id(bx, by, wi)] <= cm2[id]
                    + 1 by {
                    let bid = cell_id(bx, by, wi);
                    assert(cm[bid] != UNSET && cm[bid] <= cm[id] + 1);
                    assert(m.walkable(bx, by));
                    lemma_cell_id_bounds(bx, by, wi, hi);
                    if bid == nid {
                        assert(cm2[bid] <= cm[bid]);
                    } else {
                        assert(cm2[bid] == cm[bid]);
                    }
                };
                assert(closed(m, cm2, id));
            }
        }
    };
}


/// Processes one neighbour of the expanded cell: records the better cost
/// and parent and puts the neighbour on the frontier when the step through
/// the expanded cell improves on what is recorded, and in any case leaves
/// the neighbour settled at no more than one step past the expanded cell.
#[verifier::rlimit(100)]
#[verifier::spinoff_prover]
fn relax_neighbor(
    costs: &mut Vec<u32>,
    parents: &mut Vec<u32>,
    q: &mut Frontier,
    map: &TileMap,
    nb: GridCell,
    current: GridCell,
    cid: usize,
    ccost: u32,
    goal: &GridCell,
    Ghost(sx): Ghost<int>,
    Ghost(sy): Ghost<int>,
)
    requires
        map.wf(),
        map.in_bounds_spec(sx, sy),
        map.in_bounds_spec(current.x as int, current.y as int),
        cell_id(current.x as int, current.y as int, map.width as int) == cid as int,
        state_ok(*map, old(costs)@, old(parents)@, sx, sy),
        frontier_ok(*map, old(costs)@, pq_model(*old(q))),
        forall|id: int|
            0 <= id < old(costs)@.len() && #[trigger] old(costs)@[id] != UNSET && id != cid as int
                ==> pq_model(*old(q)).dom().contains(id as u64) || closed(*map, old(costs)@, id),
        !pq_model(*old(q)).dom().contains(cid as u64),
        old(costs)@[cid as int] == ccost,
        ccost != UNSET,
        ccost < map.width as int * map.height as int,
        admitted_move(*map, current.x as int, current.y as int, nb.x as int, nb.y as int),
    ensures
        final(costs)@.len() == old(costs)@.len(),
        final(parents)@.len() == old(parents)@.len(),
        state_ok(*map, final(costs)@, final(parents)@, sx, sy),
        frontier_ok(*map, final(costs)@, pq_model(*final(q))),
        forall|id: int|
            0 <= id < final(costs)@.len() && #[trigger] final(costs)@[id] != UNSET && id
                != cid as int ==> pq_model(*final(q)).dom().contains(id as u64) || closed(
                *map,
                final(costs)@,
                id,
            ),
        !pq_model(*final(q)).dom().contains(cid as u64),
        final(costs)@[cid as int] == ccost,
        2 * sum_rem(final(costs)@, old(costs)@.len() as int) + pq_model(*final(q)).dom().len() <= 2
            * sum_rem(old(costs)@, old(costs)@.len() as int) + pq_model(*old(q)).dom().len(),
        forall|id: int|
            0 <= id < old(costs)@.len() && #[trigger] old(costs)@[id] != UNSET
                ==> final(costs)@[id] != UNSET && final(costs)@[id] <= old(costs)@[id],
        final(costs)@[cell_id(nb.x as int, nb.y as int, map.width as int)] != UNSET,
        final(costs)@[cell_id(nb.x as int, nb.y as int, map.width as int)] <= ccost + 1,
        forall|jx: u64|
            pq_model(*old(q)).dom().contains(jx) ==> pq_model(*final(q)).dom().contains(jx),
        forall|id: int|
            0 <= id < final(costs)@.len() && #[trigger] final(costs)@[id] != UNSET
                ==> (old(costs)@[id] != UNSET || (id == cell_id(
                nb.x as int,
                nb.y as int,
                map.width as int,
            ) && pq_model(*final(q)).dom().contains(id as u64))),
{
    let ghost m = *map;
    let w: usize = map.width;
    let h: usize = map.height;
    let ghost cx = current.x as int;
    let ghost cy = current.y as int;
    proof {
        assert(m.walkable(nb.x as int, nb.y as int));
        lemma_cell_id_bounds(nb.x as int, nb.y as int, w as int, h as int);
        assert(w as int * (h as int) <= 0x4000_0000) by (nonlinear_arith)
            requires
                0 <= w as int <= MAX_DIM,
                0 <= h as int <= MAX_DIM,
                MAX_DIM == 0x8000,
        ;
        assert(old(costs)@.len() == w as int * h as int);
    }
    let nid: usize = nb.y as usize * w + nb.x as usize;
    proof {
        if nid == cid {
            lemma_cell_id_bounds(cx, cy, w as int, h as int);
            assert(nb.x as int == cx && nb.y as int == cy);
            assert(false);
        }
    }
    let new_cost: u32 = ccost + 1;
    let ghost cmp = costs@;
    let ghost pmp = parents@;
    let ghost qp = pq_model(*q);
    let cur_cost: u32 = costs[nid];
    if cur_cost == UNSET || new_cost < cur_cost {
        costs[nid] = new_cost;
        parents[nid] = cid as u32;
        let md: u64 = manhattan_distance(&nb, goal);
        let fscore: u64 = new_cost as u64 + md;
        let prio: u32 = if fscore >= 0xFFFF_FFFF {
            0
        } else {
            0xFFFF_FFFF - (fscore as u32)
        };
        pq_push(q, nid as u64, prio);
        proof {
            let wi = w as int;
            assert(nid as int == cell_id(nb.x as int, nb.y as int, wi));
            assert(costs@ =~= cmp.update(nid as int, new_cost));
            assert(parents@ =~= pmp.update(nid as int, cid as u32));
            assert(pq_model(*q) =~= qp.insert(nid as u64, prio));
            lemma_expand_update(
                m,
                cmp,
                pmp,
                qp,
                costs@,
                parents@,
                pq_model(*q),
                sx,
                sy,
                cx,
                cy,
                nb.x as int,
                nb.y as int,
                ccost,
                prio,
            );
        }
    } else {
        proof {
            assert(costs@[nid as int] != UNSET && costs@[nid as int] <= ccost + 1);
        }
    }
}


/// Expands one popped cell: relaxes every admitted neighbour, leaving the
/// cell closed and every bookkeeping invariant restored, without growing
/// the termination measure.
#[verifier::rlimit(100)]
#[verifier::spinoff_prover]
fn expand_current(
    costs: &mut Vec<u32>,
    parents: &mut Vec<u32>,
    q: &mut Frontier,
    map: &TileMap,
    current: GridCell,
    cid: usize,
    goal: &GridCell,
    Ghost(sx): Ghost<int>,
    Ghost(sy): Ghost<int>,
    Ghost(gx): Ghost<int>,
    Ghost(gy): Ghost<int>,
)
    requires
        map.wf(),
        map.in_bounds_spec(sx, sy),
        map.in_bounds_spec(current.x as int, current.y as int),
        cell_id(current.x as int, current.y as int, map.width as int) == cid as int,
        gx == goal.x as int && gy == goal.y as int,
        state_ok(*map, old(costs)@, old(parents)@, sx, sy),
        frontier_ok(*map, old(costs)@, pq_model(*old(q))),
        forall|id: int|
            0 <= id < old(costs)@.len() && #[trigger] old(costs)@[id] != UNSET && id != cid as int
                ==> pq_model(*old(q)).dom().contains(id as u64) || closed(*map, old(costs)@, id),
        !pq_model(*old(q)).dom().contains(cid as u64),
        old(costs)@[cid as int] != UNSET,
        map.in_bounds_spec(gx, gy) && old(costs)@[cell_id(gx, gy, map.width as int)] != UNSET
            ==> pq_model(*old(q)).dom().contains(cell_id(gx, gy, map.width as int) as u64),
        cell_id(gx, gy, map.width as int) != cid as int || !map.in_bounds_spec(gx, gy),
    ensures
        state_ok(*map, final(costs)@, final(parents)@, sx, sy),
        frontier_ok(*map, final(costs)@, pq_model(*final(q))),
        closure_ok(*map, final(costs)@, pq_model(*final(q))),
        map.in_bounds_spec(gx, gy) && final(costs)@[cell_id(gx, gy, map.width as int)] != UNSET
            ==> pq_model(*final(q)).dom().contains(cell_id(gx, gy, map.width as int) as u64),
        2 * sum_rem(final(costs)@, old(costs)@.len() as int) + pq_model(*final(q)).dom().len() <= 2
            * sum_rem(old(costs)@, old(costs)@.len() as int) + pq_model(*old(q)).dom().len(),
        final(costs)@.len() == old(costs)@.len(),
{
    let ghost m = *map;
    let w: usize = map.width;
    let h: usize = map.height;
    proof {
        assert(w as int * (h as int) <= 0x4000_0000) by (nonlinear_arith)
            requires
                0 <= w as int <= MAX_DIM,
                0 <= h as int <= MAX_DIM,
                MAX_DIM == 0x8000,
        ;
        lemma_cell_id_bounds(current.x as int, current.y as int, w as int, h as int);
    }
    let n: usize = w * h;
        let ghost phi_entry = 2 * sum_rem(costs@, n as int) + pq_model(*q).dom().len();
        let ns = neighbors(&current, map);
        let ccost: u32 = costs[cid];
        proof {
            lemma_count_set_bounds(costs@);
            assert(ccost < n);
        }
        let new_cost: u32 = ccost + 1;
        let ghost cx = current.x as int;
        let ghost cy = current.y as int;
        let mut j: usize = 0;
        while j < ns.len()
            invariant
                map.wf(),
                m == *map,
                w == map.width,
                h == map.height,
                n == w * h,
                gx == goal.x as int,
                gy == goal.y as int,
                map.in_bounds_spec(sx, sy),
                0 <= j <= ns@.len(),
                cx == current.x as int && cy == current.y as int,
                0 <= cx < w && 0 <= cy < h,
                cell_id(cx, cy, w as int) == cid as int,
                cid < n,
                forall|bx: int, by: int|
                    in_cell_list(ns@, bx, by) <==> admitted_move(m, cx, cy, bx, by),
                state_ok(m, costs@, parents@, sx, sy),
                frontier_ok(m, costs@, pq_model(*q)),
                costs@[cid as int] == ccost,
                ccost != UNSET,
                new_cost == ccost + 1,
                ccost < n,
                !pq_model(*q).dom().contains(cid as u64),
                forall|id: int|
                    0 <= id < n && #[trigger] costs@[id] != UNSET && id != cid as int
                        ==> pq_model(*q).dom().contains(id as u64) || closed(m, costs@, id),
                map.in_bounds_spec(gx, gy) && costs@[cell_id(gx, gy, w as int)] != UNSET
                    ==> pq_model(*q).dom().contains(cell_id(gx, gy, w as int) as u64),
                forall|jj: int|
                    0 <= jj < j ==> {
                        let bid = cell_id(
                            (#[trigger] ns@[jj]).x as int,
                            ns@[jj].y as int,
                            w as int,
                        );
                        &&& costs@[bid] != UNSET
                        &&& costs@[bid] <= ccost + 1
                    },
                2 * sum_rem(costs@, n as int) + pq_model(*q).dom().len() <= phi_entry,
            decreases ns@.len() - j,
        {
            let nb = ns[j];
            proof {
                assert((ns@[j as int]).x == nb.x && (ns@[j as int]).y == nb.y);
                assert(in_cell_list(ns@, nb.x as int, nb.y as int));
                assert(admitted_move(m, cx, cy, nb.x as int, nb.y as int));
            }
            let ghost cmp = costs@;
            relax_neighbor(
                costs,
                parents,
                q,
                map,
                nb,
                current,
                cid,
                ccost,
                goal,
                Ghost(sx),
                Ghost(sy),
            );
            proof {
                let wi = w as int;
                if map.in_bounds_spec(gx, gy) && costs@[cell_id(gx, gy, wi)] != UNSET {
                    let gid = cell_id(gx, gy, wi);
                    lemma_cell_id_bounds(gx, gy, wi, h as int);
                    if cmp[gid] != UNSET {
                        assert(pq_model(*q).dom().contains(gid as u64));
                    }
                }
                assert forall|jj: int| 0 <= jj < j + 1 implies {
                    let bid = cell_id((#[trigger] ns@[jj]).x as int, ns@[jj].y as int, wi);
                    &&& costs@[bid] != UNSET
                    &&& costs@[bid] <= ccost + 1
                } by {
                    let bid = cell_id(ns@[jj].x as int, ns@[jj].y as int, wi);
                    if jj < j {
                        assert(cmp[bid] != UNSET && cmp[bid] <= ccost + 1);
                        assert(in_cell_list(ns@, ns@[jj].x as int, ns@[jj].y as int));
                        assert(admitted_move(m, cx, cy, ns@[jj].x as int, ns@[jj].y as int));
                        lemma_cell_id_bounds(ns@[jj].x as int, ns@[jj].y as int, wi, h as int);
                        assert(costs@[bid] != UNSET && costs@[bid] <= cmp[bid]);
                    } else {
                        assert(ns@[jj] == nb);
                    }
                };
            }
            j = j + 1;
        }
        proof {
            // the expanded cell is now closed, restoring the closure invariant
            assert forall|bx: int, by: int|
                #[trigger] admitted_move(m, cid as int % (w as int), cid as int / (w as int), bx, by)
                implies costs@[cell_id(bx, by, w as int)] != UNSET && costs@[cell_id(
                bx,
                by,
                w as int,
            )] <= costs@[cid as int] + 1 by {
                lemma_id_coords(cid as int, w as int, h as int);
                assert(admitted_move(m, cx, cy, bx, by));
                assert(in_cell_list(ns@, bx, by));
                let jj = choose|jj: int|
                    0 <= jj < ns@.len() && (#[trigger] ns@[jj]).x == bx && ns@[jj].y == by;
                assert(cell_id(bx, by, w as int) == cell_id(
                    ns@[jj].x as int,
                    ns@[jj].y as int,
                    w as int,
                ));
            };
            assert(closed(m, costs@, cid as int));
            assert(closure_ok(m, costs@, pq_model(*q)));
        }

}

/// Walks the parent links back from the goal cell, collecting world
/// positions, and returns the forward path from start to goal.
#[verifier::rlimit(100)]
#[verifier::spinoff_prover]
fn reconstruct(
    map: &TileMap,
    costs: &Vec<u32>,
    parents: &Vec<u32>,
    start: &GridCell,
    goal: &GridCell,
) -> (r: Vec<WorldPos>)
    requires
        map.wf(),
        map.in_bounds_spec(start.x as int, start.y as int),
        map.in_bounds_spec(goal.x as int, goal.y as int),
        state_ok(*map, costs@, parents@, start.x as int, start.y as int),
        costs@[cell_id(goal.x as int, goal.y as int, map.width as int)] != UNSET,
    ensures
        path_ok(*map, r@, start.x as int, start.y as int, goal.x as int, goal.y as int),
        reachable(*map, start.x as int, start.y as int, goal.x as int, goal.y as int),
        r@.len() > abs_val(goal.x as int - start.x as int),
        r@.len() > abs_val(goal.y as int - start.y as int),
{
    let ghost m = *map;
    let w: usize = map.width;
    let h: usize = map.height;
    let ghost sx = start.x as int;
    let ghost sy = start.y as int;
    let ghost gx = goal.x as int;
    let ghost gy = goal.y as int;
    let ghost ws = SQUARE_SIZE as int;
    proof {
        lemma_cell_id_bounds(sx, sy, w as int, h as int);
        lemma_cell_id_bounds(gx, gy, w as int, h as int);
    }
    let mut path: Vec<WorldPos> = Vec::new();
    let mut cur: GridCell = *goal;
    let ghost mut rev: Seq<(int, int)> = Seq::empty();
    while !(cur.x == start.x && cur.y == start.y)
        invariant
            map.wf(),
            m == *map,
            w == map.width,
            h == map.height,
            sx == start.x as int,
            sy == start.y as int,
            gx == goal.x as int,
            gy == goal.y as int,
            ws == SQUARE_SIZE as int,
            map.in_bounds_spec(sx, sy),
            state_ok(m, costs@, parents@, sx, sy),
            0 <= cur.x < w && 0 <= cur.y < h,
            costs@[cell_id(cur.x as int, cur.y as int, w as int)] != UNSET,
            rev.len() == path@.len(),
            forall|j: int|
                0 <= j < rev.len() ==> (#[trigger] path@[j]).x as int == rev[j].0 * ws
                    && path@[j].y as int == rev[j].1 * ws,
            forall|j: int| 0 <= j < rev.len() ==> 0 <= (#[trigger] rev[j]).0 < w && 0 <= rev[j].1 < h,
            rev.len() > 0 ==> rev[0] == (gx, gy),
            rev.len() == 0 ==> cur.x == gx && cur.y == gy,
            rev.len() > 0 ==> admitted_move(
                m,
                cur.x as int,
                cur.y as int,
                rev[rev.len() - 1].0,
                rev[rev.len() - 1].1,
            ),
            forall|j: int|
                0 <= j < rev.len() - 1 ==> admitted_move(
                    m,
                    (#[trigger] rev[j + 1]).0,
                    rev[j + 1].1,
                    rev[j].0,
                    rev[j].1,
                ),
            forall|j: int|
                0 <= j < rev.len() ==> costs@[cell_id(
                    (#[trigger] rev[j]).0,
                    rev[j].1,
                    w as int,
                )] > costs@[cell_id(cur.x as int, cur.y as int, w as int)],
            forall|j1: int, j2: int|
                0 <= j1 < j2 < rev.len() ==> costs@[cell_id(
                    (#[trigger] rev[j1]).0,
                    rev[j1].1,
                    w as int,
                )] > costs@[cell_id((#[trigger] rev[j2]).0, rev[j2].1, w as int)],
        decreases costs@[cell_id(cur.x as int, cur.y as int, w as int)],
    {
        let ghost rev0 = rev;
        let wp = cell_to_world(&cur);
        path.push(wp);
        proof {
            rev = rev.push((cur.x as int, cur.y as int));
            assert(rev[rev.len() - 1] == (cur.x as int, cur.y as int));
            assert(forall|j: int| 0 <= j < rev0.len() ==> rev[j] == rev0[j]);
        }
        proof {
            lemma_cell_id_bounds(cur.x as int, cur.y as int, w as int, h as int);
            assert(w as int * (h as int) <= 0x4000_0000) by (nonlinear_arith)
                requires
                    0 <= w as int <= MAX_DIM,
                    0 <= h as int <= MAX_DIM,
                    MAX_DIM == 0x8000,
            ;
        }
        let cid: usize = cur.y as usize * w + cur.x as usize;
        proof {
            let sid = cell_id(sx, sy, w as int);
            if cid as int == sid {
                lemma_cell_id_bounds(sx, sy, w as int, h as int);
                assert(cur.x as int == sx && cur.y as int == sy);
                assert(false);
            }
            assert(costs@[cid as int] != UNSET);
        }
        let pid: u32 = parents[cid];
        proof {
            lemma_id_coords(pid as int, w as int, h as int);
        }
        cur = GridCell { x: (pid as usize % w) as u32, y: (pid as usize / w) as u32 };
        proof {
            assert(cur.x as int == pid as int % (w as int) && cur.y as int == pid as int / (
            w as int));
            assert(admitted_move(
                m,
                cur.x as int,
                cur.y as int,
                rev[rev.len() - 1].0,
                rev[rev.len() - 1].1,
            ));
            assert(costs@[pid as int] < costs@[cid as int]);
            assert(cell_id(cur.x as int, cur.y as int, w as int) == pid as int);
            assert(cell_id(rev[rev.len() - 1].0, rev[rev.len() - 1].1, w as int) == cid as int);
            assert forall|j: int|
                0 <= j < rev.len() implies costs@[cell_id(
                    (#[trigger] rev[j]).0,
                    rev[j].1,
                    w as int,
                )] > costs@[cell_id(cur.x as int, cur.y as int, w as int)] by {
                if j < rev.len() - 1 {
                    assert(rev[j] == rev0[j]);
                }
            };
            assert forall|j1: int, j2: int|
                0 <= j1 < j2 < rev.len() implies costs@[cell_id(
                    (#[trigger] rev[j1]).0,
                    rev[j1].1,
                    w as int,
                )] > costs@[cell_id((#[trigger] rev[j2]).0, rev[j2].1, w as int)] by {
                assert(rev[j1] == rev0[j1]);
                if j2 < rev.len() - 1 {
                    assert(rev[j2] == rev0[j2]);
                }
            };
        }
    }
    let ghost rev0 = rev;
    let wp = cell_to_world(start);
    path.push(wp);
    proof {
        rev = rev.push((sx, sy));
        assert(rev[rev.len() - 1] == (sx, sy));
        assert(forall|j: int| 0 <= j < rev0.len() ==> rev[j] == rev0[j]);
        if rev0.len() > 0 {
            assert(admitted_move(m, sx, sy, rev[rev.len() - 2].0, rev[rev.len() - 2].1));
        }
    }
    let ghost ll = rev.len() as int;
    proof {
        assert(ll == path@.len());
        assert(ll >= 1);
        assert(rev[ll - 1] == (sx, sy));
        assert(cell_id(cur.x as int, cur.y as int, w as int) == cell_id(sx, sy, w as int));
        assert forall|j1: int, j2: int|
            0 <= j1 < j2 < rev.len() implies costs@[cell_id(
                (#[trigger] rev[j1]).0,
                rev[j1].1,
                w as int,
            )] > costs@[cell_id((#[trigger] rev[j2]).0, rev[j2].1, w as int)] by {
            assert(rev[j1] == rev0[j1]);
            if j2 < rev.len() - 1 {
                assert(rev[j2] == rev0[j2]);
            }
        };
        assert forall|j1: int, j2: int| 0 <= j1 < j2 < ll implies #[trigger] rev[j1]
            != #[trigger] rev[j2] by {
            if rev[j1] == rev[j2] {
                assert(costs@[cell_id(rev[j1].0, rev[j1].1, w as int)] == costs@[cell_id(
                    rev[j2].0,
                    rev[j2].1,
                    w as int,
                )]);
                assert(false);
            }
        };
        assert(rev.len() > 1 ==> rev[0] == (gx, gy));
        assert(rev.len() == 1 ==> sx == gx && sy == gy);
        assert(forall|j: int|
            0 <= j < ll - 1 ==> admitted_move(
                m,
                (#[trigger] rev[j + 1]).0,
                rev[j + 1].1,
                rev[j].0,
                rev[j].1,
            ));
    }
    // reverse into the forward path
    let mut fwd: Vec<WorldPos> = Vec::new();
    let mut k: usize = path.len();
    while k > 0
        invariant
            0 <= k <= path@.len(),
            fwd@.len() == path@.len() - k,
            forall|t: int|
                0 <= t < fwd@.len() ==> #[trigger] fwd@[t] == path@[path@.len() - 1 - t],
        decreases k,
    {
        k = k - 1;
        let e = path[k];
        fwd.push(e);
    }
    proof {
        let fc = |i: int| rev[ll - 1 - i];
        assert forall|i: int| 0 <= i < ll implies #[trigger] fwd@[i].x as int == fc(i).0 * ws
            && fwd@[i].y as int == fc(i).1 * ws && 0 <= fc(i).0 < w && 0 <= fc(i).1 < h by {
            assert(fwd@[i] == path@[ll - 1 - i]);
        };
        assert(fwd@[0].x as int == sx * ws && fwd@[0].y as int == sy * ws);
        assert(fwd@[ll - 1].x as int == gx * ws && fwd@[ll - 1].y as int == gy * ws);
        assert forall|i: int| 0 <= i < ll implies (#[trigger] fwd@[i]).x as int % ws == 0
            && fwd@[i].y as int % ws == 0 && 0 <= fwd@[i].x && 0 <= fwd@[i].y by {
            assert(fwd@[i].x as int == fc(i).0 * ws && fwd@[i].y as int == fc(i).1 * ws);
            assert(fc(i).0 * ws % ws == 0 && fc(i).1 * ws % ws == 0) by (nonlinear_arith)
                requires
                    ws > 0,
            ;
            assert(fc(i).0 * ws >= 0 && fc(i).1 * ws >= 0) by (nonlinear_arith)
                requires
                    fc(i).0 >= 0 && fc(i).1 >= 0 && ws > 0,
            ;
        };
        assert forall|i: int| 0 <= i < ll - 1 implies admitted_move(
            m,
            (#[trigger] fwd@[i]).x as int / ws,
            fwd@[i].y as int / ws,
            fwd@[i + 1].x as int / ws,
            fwd@[i + 1].y as int / ws,
        ) by {
            let j = ll - 2 - i;
            assert(admitted_move(m, rev[j + 1].0, rev[j + 1].1, rev[j].0, rev[j].1));
            assert(fc(i) == rev[ll - 1 - i] && fc(i + 1) == rev[j]);
            assert(fwd@[i].x as int == fc(i).0 * ws && fwd@[i].y as int == fc(i).1 * ws);
            assert(fwd@[i + 1].x as int == fc(i + 1).0 * ws && fwd@[i + 1].y as int == fc(i + 1).1
                * ws);
            assert(fc(i).0 * ws / ws == fc(i).0 && fc(i).1 * ws / ws == fc(i).1 && fc(i + 1).0 * ws
                / ws == fc(i + 1).0 && fc(i + 1).1 * ws / ws == fc(i + 1).1) by (nonlinear_arith)
                requires
                    ws > 0,
            ;
        };
        assert forall|i: int, j: int| 0 <= i < j < ll implies #[trigger] fwd@[i] != #[trigger] fwd@[j] by {
            assert(fwd@[i].x as int == fc(i).0 * ws && fwd@[i].y as int == fc(i).1 * ws);
            assert(fwd@[j].x as int == fc(j).0 * ws && fwd@[j].y as int == fc(j).1 * ws);
            if fwd@[i] == fwd@[j] {
                assert(fc(i).0 * ws == fc(j).0 * ws && fc(i).1 * ws == fc(j).1 * ws);
                assert(fc(i) == fc(j));
                assert(rev[ll - 1 - i] == rev[ll - 1 - j]);
                assert(false);
            }
        };
        // the forward cells witness reachability
        let cells = Seq::new(ll as nat, |i: int| fc(i));
        assert(cells[0] == (sx, sy));
        assert(cells[ll - 1] == (gx, gy));
        assert forall|i: int| 0 <= i < cells.len() - 1 implies admitted_move(
            m,
            (#[trigger] cells[i]).0,
            cells[i].1,
            cells[i + 1].0,
            cells[i + 1].1,
        ) by {
            let j = ll - 2 - i;
            assert(cells[i] == rev[j + 1] && cells[i + 1] == rev[j]);
            assert(admitted_move(m, rev[j + 1].0, rev[j + 1].1, rev[j].0, rev[j].1));
        };
        assert(is_path(m, cells, sx, sy, gx, gy));
        lemma_admitted_chain_bound(m, cells, ll - 1);
        assert(cells[ll - 1] == (gx, gy) && cells[0] == (sx, sy));
    }
    fwd
}

/// Returns a path from start to goal using the A* algorithm, or `None` if
/// no path is found. The returned path starts with the start cell's world
/// position, ends with the goal cell's, visits no cell twice, and takes
/// only admitted moves; it is `Some` exactly when the goal is reachable
/// from the start (a path request onto the start cell itself yields the
/// one-waypoint path). The Manhattan-distance heuristic overestimates
/// diagonal travel under the uniform step cost, so a returned path is not
/// guaranteed to have the minimum number of steps, only at least the
/// Chebyshev distance of them.
#[verifier::rlimit(100)]
#[verifier::spinoff_prover]
pub fn astar(start: &GridCell, goal: &GridCell, map: &TileMap) -> (r: Option<Vec<WorldPos>>)
    requires
        map.wf(),
        map.in_bounds_spec(start.x as int, start.y as int),
    ensures
        r is Some <==> reachable(
            *map,
            start.x as int,
            start.y as int,
            goal.x as int,
            goal.y as int,
        ),
        r matches Some(p) ==> path_ok(
            *map,
            p@,
            start.x as int,
            start.y as int,
            goal.x as int,
            goal.y as int,
        ),
        r matches Some(p) ==> p@.len() > abs_val(goal.x as int - start.x as int) && p@.len()
            > abs_val(goal.y as int - start.y as int),
{
    let ghost m = *map;
    let w: usize = map.width;
    let h: usize = map.height;
    let ghost sx = start.x as int;
    let ghost sy = start.y as int;
    let ghost gx = goal.x as int;
    let ghost gy = goal.y as int;
    proof {
        assert(w * h <= 0x4000_0000) by (nonlinear_arith)
            requires
                w <= MAX_DIM,
                h <= MAX_DIM,
                MAX_DIM == 0x8000,
        ;
    }
    let n: usize = w * h;
    let mut costs: Vec<u32> = filled(n, UNSET);
    let mut parents: Vec<u32> = filled(n, UNSET);
    let mut q: Frontier = pq_new();
    proof {
        lemma_cell_id_bounds(sx, sy, w as int, h as int);
    }
    let sid: usize = start.y as usize * w + start.x as usize;
    let ghost cm0 = costs@;
    costs[sid] = 0;
    parents[sid] = sid as u32;
    pq_push(&mut q, sid as u64, 0);
    proof {
        lemma_count_set_all_unset(cm0);
        lemma_count_set_update(cm0, sid as int, 0);
        assert(count_set(costs@) == 1);
        assert(state_ok(m, costs@, parents@, sx, sy));
        assert(pq_model(q).dom() =~= Set::<u64>::empty().insert(sid as u64));
        assert(frontier_ok(m, costs@, pq_model(q)));
        assert(closure_ok(m, costs@, pq_model(q)));
        if map.in_bounds_spec(gx, gy) {
            lemma_cell_id_bounds(gx, gy, w as int, h as int);
        }
    }
    let mut reached = false;
    let mut current: GridCell = *start;
    loop
        invariant_except_break
            !reached,
            closure_ok(m, costs@, pq_model(q)),
            map.in_bounds_spec(gx, gy) && costs@[cell_id(gx, gy, w as int)] != UNSET
                ==> pq_model(q).dom().contains(cell_id(gx, gy, w as int) as u64),
        invariant
            map.wf(),
            m == *map,
            w == map.width,
            h == map.height,
            n == w * h,
            sx == start.x as int,
            sy == start.y as int,
            gx == goal.x as int,
            gy == goal.y as int,
            map.in_bounds_spec(sx, sy),
            state_ok(m, costs@, parents@, sx, sy),
            frontier_ok(m, costs@, pq_model(q)),
        ensures
            map.wf() && m == *map && w == map.width && h == map.height && n == w * h,
            state_ok(m, costs@, parents@, sx, sy),
            reached ==> current.x == goal.x && current.y == goal.y && map.in_bounds_spec(gx, gy)
                && costs@[cell_id(gx, gy, w as int)] != UNSET,
            !reached ==> closure_ok(m, costs@, pq_model(q)) && pq_model(q).dom() =~= Set::<
                u64,
            >::empty() && !(map.in_bounds_spec(gx, gy) && costs@[cell_id(gx, gy, w as int)]
                != UNSET),
        decreases 2 * sum_rem(costs@, n as int) + pq_model(q).dom().len(),
    {
        let ghost q_head = pq_model(q);
        let ghost cm_head = costs@;
        proof {
            lemma_sum_rem_nonneg(costs@, n as int);
        }
        let popped = pq_pop(&mut q);
        let (cid64, _pri) = match popped {
            Some(t) => t,
            None => {
                proof {
                    assert(pq_model(q).dom() =~= Set::<u64>::empty());
                    if map.in_bounds_spec(gx, gy) && costs@[cell_id(gx, gy, w as int)] != UNSET {
                        assert(q_head.dom().contains(cell_id(gx, gy, w as int) as u64));
                        assert(false);
                    }
                }
                break ;
            },
        };
        proof {
            vstd::set::axiom_set_remove_len(q_head.dom(), cid64);
            assert(pq_model(q).dom() =~= q_head.dom().remove(cid64));
            assert(pq_model(q).dom().len() == q_head.dom().len() - 1);
        }
        let cid: usize = cid64 as usize;
        proof {
            lemma_id_coords(cid as int, w as int, h as int);
        }
        current = GridCell { x: (cid % w) as u32, y: (cid / w) as u32 };
        if current.x == goal.x && current.y == goal.y {
            proof {
                assert(cell_id(gx, gy, w as int) == cid as int);
            }
            reached = true;
            break ;
        }
        proof {
            if map.in_bounds_spec(gx, gy) {
                lemma_cell_id_bounds(gx, gy, w as int, h as int);
                if cell_id(gx, gy, w as int) == cid as int {
                    assert(false);
                }
            }
        }
        let ghost phi_entry = 2 * sum_rem(costs@, n as int) + pq_model(q).dom().len();
        expand_current(
            &mut costs,
            &mut parents,
            &mut q,
            map,
            current,
            cid,
            goal,
            Ghost(sx),
            Ghost(sy),
            Ghost(gx),
            Ghost(gy),
        );
        proof {
            lemma_sum_rem_nonneg(costs@, n as int);
            assert(2 * sum_rem(costs@, n as int) + pq_model(q).dom().len() <= phi_entry);
            assert(phi_entry < 2 * sum_rem(cm_head, n as int) + q_head.dom().len());
        }
    }
    if reached {
        let p = reconstruct(map, &costs, &parents, start, goal);
        return Some(p);
    }
    proof {
        if reachable(m, sx, sy, gx, gy) {
            lemma_reachable_target(m, sx, sy, gx, gy);
            let cells = choose|cells: Seq<(int, int)>| is_path(m, cells, sx, sy, gx, gy);
            assert forall|id: int|
                0 <= id < costs@.len() && #[trigger] costs@[id] != UNSET implies closed(
                m,
                costs@,
                id,
            ) by {
                assert(!pq_model(q).dom().contains(id as u64));
            };
            lemma_cell_id_bounds(sx, sy, w as int, h as int);
            lemma_path_all_set(m, costs@, cells, sx, sy, cells.len() - 1);
            assert(map.in_bounds_spec(gx, gy));
            assert(costs@[cell_id(gx, gy, w as int)] != UNSET);
            assert(false);
        }
    }
    None
}

} // verus!
