//! Multi-source breadth-first distance from every cell to the nearest
//! opponent cell.
use vstd::prelude::*;
use crate::grid::{cell, in_board, is_own_symbol, is_rect, owns_symbol};
use std::collections::VecDeque;

verus! {

/// The value of a cell that no opponent cell can reach.
pub const UNREACHABLE: i32 = i32::MAX;

/// Number of unit steps between two cells when moving up, down, left or right.
pub open spec fn manhattan(x1: int, y1: int, x2: int, y2: int) -> int {
    (if x1 >= x2 { x1 - x2 } else { x2 - x1 }) + (if y1 >= y2 { y1 - y2 } else { y2 - y1 })
}

/// `(x, y)` is a cell of the board holding a symbol of `opp`.
pub open spec fn is_opp_cell(board: Seq<String>, opp: char, x: int, y: int) -> bool {
    in_board(board, x, y) && owns_symbol(opp, cell(board, x, y))
}

/// The board holds at least one cell of `opp`.
pub open spec fn has_opp(board: Seq<String>, opp: char) -> bool {
    exists|ox: int, oy: int| #[trigger] is_opp_cell(board, opp, ox, oy)
}

/// The nearest cell of `opp` is exactly `d` steps away from `(x, y)`. On a
/// full rectangular grid every cell can be walked to, so the 4-directional
/// graph distance is the Manhattan distance.
pub open spec fn nearest_is(board: Seq<String>, opp: char, x: int, y: int, d: int) -> bool {
    &&& exists|ox: int, oy: int| #[trigger]
        is_opp_cell(board, opp, ox, oy) && manhattan(x, y, ox, oy) == d
    &&& forall|ox: int, oy: int| #[trigger]
        is_opp_cell(board, opp, ox, oy) ==> manhattan(x, y, ox, oy) >= d
}

/// The entry of a distance map at column `x` of row `y`.
pub open spec fn dv(dist: Seq<Vec<i32>>, x: int, y: int) -> int {
    dist[y]@[x] as int
}

/// `dist` has `h` rows of `w` entries.
pub open spec fn map_shape(dist: Seq<Vec<i32>>, w: int, h: int) -> bool {
    &&& dist.len() == h
    &&& forall|y: int| 0 <= y < h ==> #[trigger] dist[y]@.len() == w
}

/// `dist` is the distance map of `board` towards `opp`: each cell holds the
/// distance to the nearest opponent cell, or `UNREACHABLE` when there is none.
pub open spec fn is_distance_map(board: Seq<String>, opp: char, w: int, dist: Seq<Vec<i32>>) -> bool {
    &&& map_shape(dist, w, board.len() as int)
    &&& forall|x: int, y: int|
        0 <= x < w && 0 <= y < board.len() ==> if has_opp(board, opp) {
            nearest_is(board, opp, x, y, #[trigger] dv(dist, x, y))
        } else {
            dv(dist, x, y) == UNREACHABLE as int
        }
}

/// Number of unreached entries of a row.
spec fn row_unreached_count(r: Seq<i32>) -> nat
    decreases r.len(),
{
    if r.len() == 0 {
        0
    } else {
        row_unreached_count(r.drop_last()) + if r.last() == UNREACHABLE { 1nat } else { 0nat }
    }
}

/// Number of unreached entries of a map.
spec fn unreached_count(dist: Seq<Vec<i32>>) -> nat
    decreases dist.len(),
{
    if dist.len() == 0 {
        0
    } else {
        unreached_count(dist.drop_last()) + row_unreached_count(dist.last()@)
    }
}

proof fn lemma_row_unreached_update(r: Seq<i32>, i: int, v: i32)
    requires
        0 <= i < r.len(),
        r[i] == UNREACHABLE,
        v != UNREACHABLE,
    ensures
        row_unreached_count(r.update(i, v)) + 1 == row_unreached_count(r),
    decreases r.len(),
{
    let u = r.update(i, v);
    if i < r.len() - 1 {
        assert(u.drop_last() =~= r.drop_last().update(i, v));
        lemma_row_unreached_update(r.drop_last(), i, v);
    } else {
        assert(u.drop_last() =~= r.drop_last());
    }
}

proof fn lemma_unreached_update(d: Seq<Vec<i32>>, y: int, row: Vec<i32>)
    requires
        0 <= y < d.len(),
    ensures
        unreached_count(d.update(y, row)) + row_unreached_count(d[y]@) == unreached_count(d) + row_unreached_count(row@),
    decreases d.len(),
{
    let u = d.update(y, row);
    if y < d.len() - 1 {
        assert(u.drop_last() =~= d.drop_last().update(y, row));
        lemma_unreached_update(d.drop_last(), y, row);
    } else {
        assert(u.drop_last() =~= d.drop_last());
    }
}

/// The in-grid neighbours of `(x, y)` are all reached.
#[verifier::opaque]
spec fn neighbours_reached(dist: Seq<Vec<i32>>, w: int, h: int, x: int, y: int) -> bool {
    &&& (y + 1 < h ==> dv(dist, x, y + 1) != UNREACHABLE as int)
    &&& (x + 1 < w ==> dv(dist, x + 1, y) != UNREACHABLE as int)
    &&& (y > 0 ==> dv(dist, x, y - 1) != UNREACHABLE as int)
    &&& (x > 0 ==> dv(dist, x - 1, y) != UNREACHABLE as int)
}

spec fn queued(q: Seq<(usize, usize)>, x: int, y: int) -> bool {
    exists|i: int| 0 <= i < q.len() && #[trigger] q[i] == (x as usize, y as usize)
}

spec fn qd(dist: Seq<Vec<i32>>, q: Seq<(usize, usize)>, i: int) -> int {
    dv(dist, q[i].0 as int, q[i].1 as int)
}

/// Facts that hold at every step of the search.
spec fn search_common(
    board: Seq<String>,
    opp: char,
    w: int,
    h: int,
    dist: Seq<Vec<i32>>,
    q: Seq<(usize, usize)>,
) -> bool {
    &&& board.len() == h
    &&& 0 <= w <= usize::MAX
    &&& 0 <= h <= usize::MAX
    &&& is_rect(board, w)
    &&& map_shape(dist, w, h)
    &&& forall|x: int, y: int|
        0 <= x < w && 0 <= y < h && #[trigger] dv(dist, x, y) != UNREACHABLE as int
            ==> nearest_is(board, opp, x, y, dv(dist, x, y))
    &&& forall|x: int, y: int|
        is_opp_cell(board, opp, x, y) ==> #[trigger] dv(dist, x, y) != UNREACHABLE as int
    &&& forall|i: int|
        0 <= i < q.len() ==> (#[trigger] q[i]).0 < w && q[i].1 < h && qd(dist, q, i)
            != UNREACHABLE as int
    &&& forall|i: int, j: int| 0 <= i < j < q.len() ==> #[trigger] qd(dist, q, i) <= #[trigger] qd(dist, q, j)
}

/// Every reached cell that is not waiting in the queue has had its
/// neighbours reached, except possibly the cell `(fx, fy)`.
spec fn settled_except(
    dist: Seq<Vec<i32>>,
    q: Seq<(usize, usize)>,
    w: int,
    h: int,
    fx: int,
    fy: int,
) -> bool {
    forall|x: int, y: int|
        0 <= x < w && 0 <= y < h && #[trigger] dv(dist, x, y) != UNREACHABLE as int && !queued(
            q,
            x,
            y,
        ) && !(x == fx && y == fy) ==> neighbours_reached(dist, w, h, x, y)
}

/// Every cell within `d` steps of some opponent cell is reached.
spec fn reached_within(board: Seq<String>, opp: char, w: int, h: int, dist: Seq<Vec<i32>>, d: int) -> bool {
    forall|x: int, y: int, ox: int, oy: int|
        0 <= x < w && 0 <= y < h && #[trigger] is_opp_cell(board, opp, ox, oy) && manhattan(
            x,
            y,
            ox,
            oy,
        ) <= d ==> #[trigger] dv(dist, x, y) != UNREACHABLE as int
}

/// The state of the search between two pops.
spec fn search_inv(
    board: Seq<String>,
    opp: char,
    w: int,
    h: int,
    dist: Seq<Vec<i32>>,
    q: Seq<(usize, usize)>,
) -> bool {
    &&& search_common(board, opp, w, h, dist, q)
    &&& forall|i: int| 0 <= i < q.len() ==> #[trigger] qd(dist, q, i) <= qd(dist, q, 0) + 1
    &&& q.len() > 0 ==> reached_within(board, opp, w, h, dist, qd(dist, q, 0))
    &&& settled_except(dist, q, w, h, -1, -1)
}

/// The state of the search while the cell `(fx, fy)`, at distance `d0`, has
/// been popped and its neighbours are being relaxed.
spec fn relax_inv(
    board: Seq<String>,
    opp: char,
    w: int,
    h: int,
    dist: Seq<Vec<i32>>,
    q: Seq<(usize, usize)>,
    fx: int,
    fy: int,
    d0: int,
) -> bool {
    &&& search_common(board, opp, w, h, dist, q)
    &&& 0 <= fx < w && 0 <= fy < h
    &&& dv(dist, fx, fy) == d0
    &&& d0 != UNREACHABLE as int
    &&& forall|i: int| 0 <= i < q.len() ==> d0 <= #[trigger] qd(dist, q, i) <= d0 + 1
    &&& reached_within(board, opp, w, h, dist, d0)
    &&& settled_except(dist, q, w, h, fx, fy)
}

/// Gives the cell `(nx, ny)`, a neighbour of the popped cell, the distance
/// `next` when that improves on what it holds, and queues it.
fn relax(
    dist: &mut Vec<Vec<i32>>,
    queue: &mut VecDeque<(usize, usize)>,
    nx: usize,
    ny: usize,
    next: i32,
    Ghost(board): Ghost<Seq<String>>,
    Ghost(opp): Ghost<char>,
    Ghost(w): Ghost<int>,
    Ghost(h): Ghost<int>,
    Ghost(fx): Ghost<int>,
    Ghost(fy): Ghost<int>,
)
    requires
        relax_inv(board, opp, w, h, old(dist)@, old(queue)@, fx, fy, next - 1),
        nx < w,
        ny < h,
        manhattan(nx as int, ny as int, fx, fy) == 1,
        0 < next < UNREACHABLE,
    ensures
        relax_inv(board, opp, w, h, final(dist)@, final(queue)@, fx, fy, next - 1),
        dv(final(dist)@, nx as int, ny as int) != UNREACHABLE as int,
        forall|x: int, y: int|
            0 <= x < w && 0 <= y < h && #[trigger] dv(old(dist)@, x, y) != UNREACHABLE as int
                ==> dv(final(dist)@, x, y) == dv(old(dist)@, x, y),
        (unreached_count(final(dist)@) + 1 == unreached_count(old(dist)@) && final(queue)@.len()
            == old(queue)@.len() + 1) || (unreached_count(final(dist)@) == unreached_count(old(dist)@)
            && final(queue)@.len() == old(queue)@.len()),
{
    let ghost d0 = next - 1;
    let ghost od = dist@;
    let ghost oq = queue@;
    proof {
        // the popped cell has a nearest opponent cell at d0; the neighbour is
        // at most one step further from it
        assert(dv(od, fx, fy) != UNREACHABLE as int);
        assert(nearest_is(board, opp, fx, fy, d0));
        let (ox, oy) = choose|ox: int, oy: int|
            is_opp_cell(board, opp, ox, oy) && manhattan(fx, fy, ox, oy) == d0;
        assert(is_opp_cell(board, opp, ox, oy));
        assert(manhattan(nx as int, ny as int, ox, oy) <= d0 + 1);
        if dv(od, nx as int, ny as int) != UNREACHABLE as int {
            assert(nearest_is(board, opp, nx as int, ny as int, dv(od, nx as int, ny as int)));
            assert(dv(od, nx as int, ny as int) <= next);
        }
    }
    if dist[ny][nx] > next {
        dist[ny][nx] = next;
        queue.push_back((nx, ny));
        proof {
            let nd = dist@;
            assert forall|x: int, y: int|
                0 <= x < w && 0 <= y < h && !(x == nx && y == ny) implies dv(nd, x, y) == dv(
                od,
                x,
                y,
            ) by {
                if y != ny {
                    assert(nd[y] == od[y]);
                }
            }
            lemma_relax_set(board, opp, w, h, od, oq, nd, queue@, fx, fy, nx as int, ny as int, d0);
        }
    }
}

/// What follows from giving the unreached neighbour `(nx, ny)` the distance
/// `d0 + 1` and queueing it.
proof fn lemma_relax_set(
    board: Seq<String>,
    opp: char,
    w: int,
    h: int,
    od: Seq<Vec<i32>>,
    oq: Seq<(usize, usize)>,
    nd: Seq<Vec<i32>>,
    nq: Seq<(usize, usize)>,
    fx: int,
    fy: int,
    nx: int,
    ny: int,
    d0: int,
)
    requires
        relax_inv(board, opp, w, h, od, oq, fx, fy, d0),
        0 <= nx < w,
        0 <= ny < h,
        nx <= usize::MAX,
        ny <= usize::MAX,
        manhattan(nx, ny, fx, fy) == 1,
        dv(od, nx, ny) == UNREACHABLE as int,
        d0 + 1 < UNREACHABLE as int,
        map_shape(nd, w, h),
        dv(nd, nx, ny) == d0 + 1,
        forall|x: int, y: int|
            0 <= x < w && 0 <= y < h && !(x == nx && y == ny) ==> dv(nd, x, y) == dv(od, x, y),
        nq == oq.push((nx as usize, ny as usize)),
        od.len() == nd.len(),
        nd[ny]@ == od[ny]@.update(nx, (d0 + 1) as i32),
        forall|y: int| 0 <= y < h && y != ny ==> nd[y] == od[y],
    ensures
        relax_inv(board, opp, w, h, nd, nq, fx, fy, d0),
        unreached_count(nd) + 1 == unreached_count(od),
{
    let next = d0 + 1;
    assert(dv(od, fx, fy) != UNREACHABLE as int);
    assert(nearest_is(board, opp, fx, fy, d0));
    let (ox, oy) = choose|ox: int, oy: int|
        is_opp_cell(board, opp, ox, oy) && manhattan(fx, fy, ox, oy) == d0;
    assert(is_opp_cell(board, opp, ox, oy));
    assert(manhattan(nx, ny, ox, oy) <= next);
    assert forall|px: int, py: int| #[trigger]
        is_opp_cell(board, opp, px, py) implies manhattan(nx, ny, px, py) >= next by {
        if manhattan(nx, ny, px, py) <= d0 {
            assert(dv(od, nx, ny) != UNREACHABLE as int);
        }
    }
    assert(nearest_is(board, opp, nx, ny, next));
    assert(nq[nq.len() - 1] == (nx as usize, ny as usize));
    assert(queued(nq, nx, ny));
    assert forall|i: int| 0 <= i < oq.len() implies #[trigger] qd(nd, nq, i) == qd(od, oq, i) by {
        assert(nq[i] == oq[i]);
        assert(oq[i] != (nx as usize, ny as usize));
    }
    assert(qd(nd, nq, oq.len() as int) == next);
    assert forall|x: int, y: int|
        0 <= x < w && 0 <= y < h && queued(oq, x, y) implies queued(nq, x, y) by {
        let i = choose|i: int| 0 <= i < oq.len() && #[trigger] oq[i] == (x as usize, y as usize);
        assert(nq[i] == oq[i]);
    }
    lemma_row_unreached_update(od[ny]@, nx, next as i32);
    lemma_unreached_update(od, ny, nd[ny]);
    assert(od.update(ny, nd[ny]) =~= nd);
    lemma_relax_common(board, opp, w, h, od, oq, nd, nq, nx, ny, d0);
}

proof fn lemma_relax_common(
    board: Seq<String>,
    opp: char,
    w: int,
    h: int,
    od: Seq<Vec<i32>>,
    oq: Seq<(usize, usize)>,
    nd: Seq<Vec<i32>>,
    nq: Seq<(usize, usize)>,
    nx: int,
    ny: int,
    d0: int,
)
    requires
        search_common(board, opp, w, h, od, oq),
        0 <= nx < w,
        0 <= ny < h,
        dv(od, nx, ny) == UNREACHABLE as int,
        map_shape(nd, w, h),
        dv(nd, nx, ny) == d0 + 1,
        d0 + 1 < UNREACHABLE as int,
        nearest_is(board, opp, nx, ny, d0 + 1),
        forall|x: int, y: int|
            0 <= x < w && 0 <= y < h && !(x == nx && y == ny) ==> dv(nd, x, y) == dv(od, x, y),
        nq == oq.push((nx as usize, ny as usize)),
        nx <= usize::MAX,
        ny <= usize::MAX,
        forall|i: int| 0 <= i < oq.len() ==> #[trigger] qd(nd, nq, i) == qd(od, oq, i),
        forall|i: int| 0 <= i < oq.len() ==> #[trigger] qd(od, oq, i) <= d0 + 1,
        forall|x: int, y: int|
            0 <= x < w && 0 <= y < h && queued(oq, x, y) ==> queued(nq, x, y),
        queued(nq, nx, ny),
        reached_within(board, opp, w, h, od, d0),
        settled_except(od, oq, w, h, -1, -1) || true,
    ensures
        search_common(board, opp, w, h, nd, nq),
        reached_within(board, opp, w, h, nd, d0),
        forall|fx: int, fy: int|
            settled_except(od, oq, w, h, fx, fy) ==> settled_except(nd, nq, w, h, fx, fy),
{
    let n = oq.len() as int;
    assert(qd(nd, nq, n) == d0 + 1);
    assert forall|fx: int, fy: int| settled_except(od, oq, w, h, fx, fy) implies settled_except(
        nd,
        nq,
        w,
        h,
        fx,
        fy,
    ) by {
        assert forall|x: int, y: int|
            0 <= x < w && 0 <= y < h && #[trigger] dv(nd, x, y) != UNREACHABLE as int && !queued(
                nq,
                x,
                y,
            ) && !(x == fx && y == fy) implies neighbours_reached(nd, w, h, x, y) by {
            assert(!(x == nx && y == ny));
            assert(dv(od, x, y) != UNREACHABLE as int);
            assert(!queued(oq, x, y));
            assert(neighbours_reached(od, w, h, x, y));
            reveal(neighbours_reached);
        }
    }
    assert forall|i: int| 0 <= i < nq.len() implies (#[trigger] nq[i]).0 < w && nq[i].1 < h
        && qd(nd, nq, i) != UNREACHABLE as int by {
        if i < n {
            assert(nq[i] == oq[i]);
        }
    }
    assert forall|i: int, j: int| 0 <= i < j < nq.len() implies #[trigger] qd(nd, nq, i)
        <= #[trigger] qd(nd, nq, j) by {
        if j < n {
            assert(qd(od, oq, i) <= qd(od, oq, j));
        }
    }
}

/// A cell one step closer to `(ox, oy)` than `(x, y)`, which is not `(ox, oy)`.
spec fn step_toward(x: int, y: int, ox: int, oy: int) -> (int, int) {
    if x < ox {
        (x + 1, y)
    } else if x > ox {
        (x - 1, y)
    } else if y < oy {
        (x, y + 1)
    } else {
        (x, y - 1)
    }
}

/// A settled cell `p` next to `(x, y)` reaches it.
proof fn lemma_neighbour_of_step(dist: Seq<Vec<i32>>, w: int, h: int, x: int, y: int, ox: int, oy: int)
    requires
        !(x == ox && y == oy),
        0 <= x < w && 0 <= y < h,
        neighbours_reached(dist, w, h, step_toward(x, y, ox, oy).0, step_toward(x, y, ox, oy).1),
        0 <= step_toward(x, y, ox, oy).0 < w,
        0 <= step_toward(x, y, ox, oy).1 < h,
    ensures
        dv(dist, x, y) != UNREACHABLE as int,
{
    reveal(neighbours_reached);
}

/// Popping the front of the queue leaves the state in which its neighbours
/// are relaxed.
proof fn lemma_pop(
    board: Seq<String>,
    opp: char,
    w: int,
    h: int,
    dist: Seq<Vec<i32>>,
    oq: Seq<(usize, usize)>,
    nq: Seq<(usize, usize)>,
)
    requires
        search_inv(board, opp, w, h, dist, oq),
        oq.len() > 0,
        nq == oq.subrange(1, oq.len() as int),
    ensures
        relax_inv(board, opp, w, h, dist, nq, oq[0].0 as int, oq[0].1 as int, qd(dist, oq, 0)),
        qd(dist, oq, 0) <= w + h - 2,
{
    let fx = oq[0].0 as int;
    let fy = oq[0].1 as int;
    let d0 = qd(dist, oq, 0);
    assert(qd(dist, oq, 0) != UNREACHABLE as int);
    assert(dv(dist, fx, fy) != UNREACHABLE as int);
    assert(nearest_is(board, opp, fx, fy, d0));
    let (ox, oy) = choose|ox: int, oy: int|
        is_opp_cell(board, opp, ox, oy) && manhattan(fx, fy, ox, oy) == d0;
    assert(board[oy]@.len() == w);
    assert forall|i: int| 0 <= i < nq.len() implies #[trigger] qd(dist, nq, i) == qd(dist, oq, i + 1) by {
        assert(nq[i] == oq[i + 1]);
    }
    assert forall|i: int| 0 <= i < nq.len() implies (#[trigger] nq[i]).0 < w && nq[i].1 < h
        && qd(dist, nq, i) != UNREACHABLE as int by {
        assert(nq[i] == oq[i + 1]);
    }
    assert forall|i: int, j: int| 0 <= i < j < nq.len() implies #[trigger] qd(dist, nq, i)
        <= #[trigger] qd(dist, nq, j) by {
        assert(qd(dist, oq, i + 1) <= qd(dist, oq, j + 1));
    }
    assert forall|i: int| 0 <= i < nq.len() implies d0 <= #[trigger] qd(dist, nq, i) <= d0 + 1 by {
        assert(qd(dist, oq, 0) <= qd(dist, oq, i + 1));
        assert(qd(dist, oq, i + 1) <= qd(dist, oq, 0) + 1);
    }
    assert forall|x: int, y: int|
        0 <= x < w && 0 <= y < h && #[trigger] dv(dist, x, y) != UNREACHABLE as int && !queued(
            nq,
            x,
            y,
        ) && !(x == fx && y == fy) implies neighbours_reached(dist, w, h, x, y) by {
        if queued(oq, x, y) {
            let i = choose|i: int| 0 <= i < oq.len() && #[trigger] oq[i] == (x as usize, y as usize);
            assert(i != 0);
            assert(nq[i - 1] == oq[i]);
        }
    }
}

/// Once the popped cell's neighbours are all reached, the state is again
/// the one between two pops.
proof fn lemma_round_done(
    board: Seq<String>,
    opp: char,
    w: int,
    h: int,
    dist: Seq<Vec<i32>>,
    q: Seq<(usize, usize)>,
    fx: int,
    fy: int,
    d0: int,
)
    requires
        relax_inv(board, opp, w, h, dist, q, fx, fy, d0),
        neighbours_reached(dist, w, h, fx, fy),
    ensures
        search_inv(board, opp, w, h, dist, q),
{
    if q.len() > 0 {
        let d1 = qd(dist, q, 0);
        assert forall|i: int| 0 <= i < q.len() implies #[trigger] qd(dist, q, i) <= qd(dist, q, 0) + 1 by {
        }
        if d1 > d0 {
            assert forall|x: int, y: int, ox: int, oy: int|
                0 <= x < w && 0 <= y < h && #[trigger] is_opp_cell(board, opp, ox, oy) && manhattan(
                    x,
                    y,
                    ox,
                    oy,
                ) <= d1 implies #[trigger] dv(dist, x, y) != UNREACHABLE as int by {
                if manhattan(x, y, ox, oy) > d0 {
                    let (px, py) = step_toward(x, y, ox, oy);
                    assert(board[oy]@.len() == w);
                    assert(manhattan(px, py, ox, oy) == d0);
                    assert(dv(dist, px, py) != UNREACHABLE as int);
                    assert(nearest_is(board, opp, px, py, dv(dist, px, py)));
                    assert(dv(dist, px, py) <= d0);
                    if queued(q, px, py) {
                        let i = choose|i: int|
                            0 <= i < q.len() && #[trigger] q[i] == (px as usize, py as usize);
                        assert(qd(dist, q, i) >= d1) by {
                            if i > 0 {
                                assert(qd(dist, q, 0) <= qd(dist, q, i));
                            }
                        }
                    }
                    if !(px == fx && py == fy) {
                        assert(neighbours_reached(dist, w, h, px, py));
                    }
                    lemma_neighbour_of_step(dist, w, h, x, y, ox, oy);
                }
            }
        }
    }
}

/// With the queue empty, every cell is reached when some opponent cell exists.
proof fn lemma_all_reached(
    board: Seq<String>,
    opp: char,
    w: int,
    h: int,
    dist: Seq<Vec<i32>>,
    q: Seq<(usize, usize)>,
    ox: int,
    oy: int,
    x: int,
    y: int,
)
    requires
        search_inv(board, opp, w, h, dist, q),
        q.len() == 0,
        is_opp_cell(board, opp, ox, oy),
        0 <= x < w && 0 <= y < h,
    ensures
        dv(dist, x, y) != UNREACHABLE as int,
    decreases manhattan(x, y, ox, oy),
{
    assert(board[oy]@.len() == w);
    if x == ox && y == oy {
        assert(dv(dist, ox, oy) != UNREACHABLE as int);
    } else {
        let (px, py) = step_toward(x, y, ox, oy);
        lemma_all_reached(board, opp, w, h, dist, q, ox, oy, px, py);
        assert(!queued(q, px, py));
        lemma_neighbour_of_step(dist, w, h, x, y, ox, oy);
    }
}

/// The number of symbols in the first row, or 0 for an empty board.
pub open spec fn board_width(board: Seq<String>) -> int {
    if board.len() == 0 {
        0
    } else {
        board[0]@.len() as int
    }
}

/// The state right after the opponent cells were queued.
proof fn lemma_start(
    board: Seq<String>,
    opp: char,
    w: int,
    h: int,
    dist: Seq<Vec<i32>>,
    q: Seq<(usize, usize)>,
)
    requires
        board.len() == h,
        0 <= w <= usize::MAX,
        0 <= h <= usize::MAX,
        is_rect(board, w),
        map_shape(dist, w, h),
        forall|x: int, y: int|
            0 <= x < w && 0 <= y < h ==> #[trigger] dv(dist, x, y) == if is_opp_cell(
                board,
                opp,
                x,
                y,
            ) {
                0
            } else {
                UNREACHABLE as int
            },
        forall|x: int, y: int|
            0 <= x < w && 0 <= y < h && #[trigger] is_opp_cell(board, opp, x, y) ==> queued(q, x, y),
        forall|i: int|
            0 <= i < q.len() ==> (#[trigger] q[i]).0 < w && q[i].1 < h && is_opp_cell(
                board,
                opp,
                q[i].0 as int,
                q[i].1 as int,
            ),
    ensures
        search_inv(board, opp, w, h, dist, q),
{
    assert forall|x: int, y: int|
        0 <= x < w && 0 <= y < h && #[trigger] dv(dist, x, y) != UNREACHABLE as int implies nearest_is(
        board,
        opp,
        x,
        y,
        dv(dist, x, y),
    ) by {
        assert(is_opp_cell(board, opp, x, y) && manhattan(x, y, x, y) == 0);
    }
    assert forall|i: int| 0 <= i < q.len() implies #[trigger] qd(dist, q, i) == 0 by {
        assert(is_opp_cell(board, opp, q[i].0 as int, q[i].1 as int));
    }
    assert forall|i: int, j: int| 0 <= i < j < q.len() implies #[trigger] qd(dist, q, i)
        <= #[trigger] qd(dist, q, j) by {
        assert(qd(dist, q, i) == 0 && qd(dist, q, j) == 0);
    }
    if q.len() > 0 {
        assert(qd(dist, q, 0) == 0);
        assert forall|x: int, y: int, ox: int, oy: int|
            0 <= x < w && 0 <= y < h && #[trigger] is_opp_cell(board, opp, ox, oy) && manhattan(
                x,
                y,
                ox,
                oy,
            ) <= qd(dist, q, 0) implies #[trigger] dv(dist, x, y) != UNREACHABLE as int by {
            assert(x == ox && y == oy);
        }
    }
    assert forall|x: int, y: int|
        0 <= x < w && 0 <= y < h && #[trigger] dv(dist, x, y) != UNREACHABLE as int && !queued(
            q,
            x,
            y,
        ) && !(x == -1 && y == -1) implies neighbours_reached(dist, w, h, x, y) by {
        assert(is_opp_cell(board, opp, x, y));
    }
}

/// Breadth-first search from every cell of `opp_char`: each cell gets the
/// number of up/down/left/right steps to the nearest opponent cell, or
/// `UNREACHABLE` when the board holds none.
pub fn build_distance_map(board: &[String], opp_char: char) -> (r: Vec<Vec<i32>>)
    requires
        is_rect(board@, board_width(board@)),
        board@.len() + board_width(board@) < UNREACHABLE,
    ensures
        is_distance_map(board@, opp_char, board_width(board@), r@),
{
    let h: usize = board.len();
    if h == 0 {
        let empty: Vec<Vec<i32>> = Vec::new();
        return empty;
    }
    let w: usize = board[0].as_str().unicode_len();
    let ghost b = board@;
    let mut dist: Vec<Vec<i32>> = Vec::new();
    let mut queue: VecDeque<(usize, usize)> = VecDeque::new();
    let mut y: usize = 0;
    while y < h
        invariant
            b == board@,
            h == b.len(),
            w == board_width(b),
            is_rect(b, w as int),
            y <= h,
            map_shape(dist@, w as int, y as int),
            forall|x: int, yy: int|
                0 <= x < w && 0 <= yy < y ==> #[trigger] dv(dist@, x, yy) == if is_opp_cell(
                    b,
                    opp_char,
                    x,
                    yy,
                ) {
                    0
                } else {
                    UNREACHABLE as int
                },
            forall|x: int, yy: int|
                0 <= x < w && 0 <= yy < y && #[trigger] is_opp_cell(b, opp_char, x, yy) ==> queued(
                    queue@,
                    x,
                    yy,
                ),
            forall|i: int|
                0 <= i < queue@.len() ==> (#[trigger] queue@[i]).0 < w && queue@[i].1 < y
                    && is_opp_cell(b, opp_char, queue@[i].0 as int, queue@[i].1 as int),
        decreases h - y,
    {
        let row: &str = board[y].as_str();
        let mut line: Vec<i32> = Vec::new();
        let ghost q0 = queue@;
        let mut x: usize = 0;
        while x < w
            invariant
                b == board@,
                h == b.len(),
                y < h,
                row@ == b[y as int]@,
                row@.len() == w,
                x <= w,
                line@.len() == x,
                forall|xx: int|
                    0 <= xx < x ==> #[trigger] line@[xx] as int == if is_opp_cell(
                        b,
                        opp_char,
                        xx,
                        y as int,
                    ) {
                        0
                    } else {
                        UNREACHABLE as int
                    },
                forall|xx: int|
                    0 <= xx < x && #[trigger] is_opp_cell(b, opp_char, xx, y as int) ==> queued(
                        queue@,
                        xx,
                        y as int,
                    ),
                forall|x2: int, yy: int|
                    0 <= x2 < w && 0 <= yy < y && #[trigger] is_opp_cell(b, opp_char, x2, yy)
                        ==> queued(q0, x2, yy),
                queue@.len() >= q0.len(),
                forall|i: int| 0 <= i < q0.len() ==> #[trigger] queue@[i] == q0[i],
                forall|i: int|
                    0 <= i < queue@.len() ==> (#[trigger] queue@[i]).0 < w && queue@[i].1 <= y
                        && is_opp_cell(b, opp_char, queue@[i].0 as int, queue@[i].1 as int),
            decreases w - x,
        {
            let c: char = row.get_char(x);
            let ghost pq = queue@;
            if is_own_symbol(opp_char, c) {
                line.push(0);
                queue.push_back((x, y));
                proof {
                    assert(queue@[pq.len() as int] == (x, y));
                    assert forall|i: int| 0 <= i < pq.len() implies #[trigger] queue@[i] == pq[i] by {
                    }
                    assert forall|xx: int|
                        0 <= xx < x + 1 && #[trigger] is_opp_cell(b, opp_char, xx, y as int)
                            implies queued(queue@, xx, y as int) by {
                        if xx < x {
                            let i = choose|i: int|
                                0 <= i < pq.len() && #[trigger] pq[i] == (xx as usize, y);
                            assert(queue@[i] == pq[i]);
                        }
                    }
                }
            } else {
                line.push(UNREACHABLE);
            }
            x = x + 1;
        }
        proof {
            assert forall|x2: int, yy: int|
                0 <= x2 < w && 0 <= yy < y && #[trigger] is_opp_cell(b, opp_char, x2, yy)
                    implies queued(queue@, x2, yy) by {
                let i = choose|i: int| 0 <= i < q0.len() && #[trigger] q0[i] == (x2 as usize, yy as usize);
                assert(queue@[i] == q0[i]);
            }
        }
        let ghost pd = dist@;
        dist.push(line);
        proof {
            assert forall|yy: int| 0 <= yy < y implies #[trigger] dist@[yy] == pd[yy] by {}
            assert(dist@[y as int] == line);
            assert forall|x: int, yy: int| 0 <= x < w && 0 <= yy < y + 1 implies #[trigger] dv(
                dist@,
                x,
                yy,
            ) == if is_opp_cell(b, opp_char, x, yy) {
                0
            } else {
                UNREACHABLE as int
            } by {
                if yy == y {
                    assert(dv(dist@, x, yy) == line@[x] as int);
                } else {
                    assert(dv(dist@, x, yy) == dv(pd, x, yy));
                }
            }
        }
        y = y + 1;
    }
    proof {
        lemma_start(b, opp_char, w as int, h as int, dist@, queue@);
    }
    while queue.len() > 0
        invariant
            b == board@,
            h == b.len(),
            w == board_width(b),
            h + w < UNREACHABLE,
            search_inv(b, opp_char, w as int, h as int, dist@, queue@),
        decreases unreached_count(dist@), queue@.len(),
    {
        let ghost c0 = unreached_count(dist@);
        let ghost l0 = queue@.len();
        let ghost oq = queue@;
        let (x, y) = queue.pop_front().unwrap();
        proof {
            lemma_pop(b, opp_char, w as int, h as int, dist@, oq, queue@);
        }
        let current: i32 = dist[y][x];
        let next: i32 = current + 1;
        let ghost gb = b;
        if y + 1 < h {
            relax(&mut dist, &mut queue, x, y + 1, next, Ghost(gb), Ghost(opp_char), Ghost(w as int), Ghost(h as int), Ghost(x as int), Ghost(y as int));
        }
        assert(unreached_count(dist@) + queue@.len() + 1 == c0 + l0 && queue@.len() + 1 >= l0);
        if x + 1 < w {
            relax(&mut dist, &mut queue, x + 1, y, next, Ghost(gb), Ghost(opp_char), Ghost(w as int), Ghost(h as int), Ghost(x as int), Ghost(y as int));
        }
        assert(unreached_count(dist@) + queue@.len() + 1 == c0 + l0 && queue@.len() + 1 >= l0);
        if y > 0 {
            relax(&mut dist, &mut queue, x, y - 1, next, Ghost(gb), Ghost(opp_char), Ghost(w as int), Ghost(h as int), Ghost(x as int), Ghost(y as int));
        }
        assert(unreached_count(dist@) + queue@.len() + 1 == c0 + l0 && queue@.len() + 1 >= l0);
        if x > 0 {
            relax(&mut dist, &mut queue, x - 1, y, next, Ghost(gb), Ghost(opp_char), Ghost(w as int), Ghost(h as int), Ghost(x as int), Ghost(y as int));
        }
        assert(unreached_count(dist@) + queue@.len() + 1 == c0 + l0 && queue@.len() + 1 >= l0);
        proof {
            reveal(neighbours_reached);
            lemma_round_done(b, opp_char, w as int, h as int, dist@, queue@, x as int, y as int, current as int);
        }
    }
    proof {
        assert forall|x: int, y: int| 0 <= x < w && 0 <= y < h implies if has_opp(b, opp_char) {
            nearest_is(b, opp_char, x, y, #[trigger] dv(dist@, x, y))
        } else {
            dv(dist@, x, y) == UNREACHABLE as int
        } by {
            if has_opp(b, opp_char) {
                let (ox, oy) = choose|ox: int, oy: int| #[trigger] is_opp_cell(b, opp_char, ox, oy);
                lemma_all_reached(b, opp_char, w as int, h as int, dist@, queue@, ox, oy, x, y);
            } else if dv(dist@, x, y) != UNREACHABLE as int {
                assert(nearest_is(b, opp_char, x, y, dv(dist@, x, y)));
            }
        }
    }
    dist
}

} // verus!
