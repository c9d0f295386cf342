//! The two ways of proposing origins for the piece.
use vstd::prelude::*;

verus! {

/// Placing star `s` on the owned cell `t` needs no negative coordinate and
/// keeps the piece's box within the limits.
pub open spec fn anchor_fits(t: (usize, usize), s: (usize, usize), limx: int, limy: int) -> bool {
    t.0 >= s.0 && t.1 >= s.1 && t.0 - s.0 <= limx && t.1 - s.1 <= limy
}

/// The origin that puts star `s` on cell `t`.
pub open spec fn anchor_origin(t: (usize, usize), s: (usize, usize)) -> (usize, usize) {
    ((t.0 - s.0) as usize, (t.1 - s.1) as usize)
}

/// `acc` with `o` appended unless it is already there.
pub open spec fn add_unique(acc: Seq<(usize, usize)>, o: (usize, usize)) -> Seq<(usize, usize)> {
    if acc.contains(o) {
        acc
    } else {
        acc.push(o)
    }
}

/// `acc` extended with the origins that anchor each star on `t`.
pub open spec fn add_anchors(
    acc: Seq<(usize, usize)>,
    t: (usize, usize),
    stars: Seq<(usize, usize)>,
    limx: int,
    limy: int,
) -> Seq<(usize, usize)>
    decreases stars.len(),
{
    if stars.len() == 0 {
        acc
    } else {
        let a = add_anchors(acc, t, stars.drop_last(), limx, limy);
        if anchor_fits(t, stars.last(), limx, limy) {
            add_unique(a, anchor_origin(t, stars.last()))
        } else {
            a
        }
    }
}

/// The origins that anchor some star on some owned cell, each once, in the
/// order in which they are first met.
pub open spec fn anchored(
    terr: Seq<(usize, usize)>,
    stars: Seq<(usize, usize)>,
    limx: int,
    limy: int,
) -> Seq<(usize, usize)>
    decreases terr.len(),
{
    if terr.len() == 0 {
        Seq::empty()
    } else {
        add_anchors(anchored(terr.drop_last(), stars, limx, limy), terr.last(), stars, limx, limy)
    }
}

/// The origins of row `y`, left to right, `nx` of them.
pub open spec fn grid_row(y: int, nx: int) -> Seq<(usize, usize)> {
    Seq::new(nx as nat, |x: int| (x as usize, y as usize))
}

/// All origins with `x < nx` and `y < ny`, row by row.
pub open spec fn grid_seq(nx: int, ny: int) -> Seq<(usize, usize)>
    decreases ny,
{
    if ny <= 0 {
        Seq::empty()
    } else {
        grid_seq(nx, ny - 1) + grid_row(ny - 1, nx)
    }
}

proof fn lemma_add_unique(acc: Seq<(usize, usize)>, o: (usize, usize), p: (usize, usize))
    ensures
        add_unique(acc, o).contains(p) <==> (acc.contains(p) || p == o),
        acc.no_duplicates() ==> add_unique(acc, o).no_duplicates(),
{
    if !acc.contains(o) {
        let n = acc.push(o);
        assert(n[acc.len() as int] == o);
        if n.contains(p) && p != o {
            let i = choose|i: int| 0 <= i < n.len() && n[i] == p;
            assert(acc[i] == p);
        }
        if acc.contains(p) {
            let i = choose|i: int| 0 <= i < acc.len() && acc[i] == p;
            assert(n[i] == p);
        }
    }
}

proof fn lemma_add_anchors(
    acc: Seq<(usize, usize)>,
    t: (usize, usize),
    stars: Seq<(usize, usize)>,
    limx: int,
    limy: int,
    p: (usize, usize),
)
    ensures
        add_anchors(acc, t, stars, limx, limy).contains(p) <==> (acc.contains(p) || exists|j: int|
            0 <= j < stars.len() && anchor_fits(t, #[trigger] stars[j], limx, limy) && p
                == anchor_origin(t, stars[j])),
        acc.no_duplicates() ==> add_anchors(acc, t, stars, limx, limy).no_duplicates(),
    decreases stars.len(),
{
    if stars.len() > 0 {
        let d = stars.drop_last();
        let a = add_anchors(acc, t, d, limx, limy);
        lemma_add_anchors(acc, t, d, limx, limy, p);
        let s = stars.last();
        lemma_add_unique(a, anchor_origin(t, s), p);
        if exists|j: int|
            0 <= j < d.len() && anchor_fits(t, #[trigger] d[j], limx, limy) && p == anchor_origin(t, d[j]) {
            let j = choose|j: int|
                0 <= j < d.len() && anchor_fits(t, #[trigger] d[j], limx, limy) && p == anchor_origin(t, d[j]);
            assert(stars[j] == d[j]);
        }
        if exists|j: int|
            0 <= j < stars.len() && anchor_fits(t, #[trigger] stars[j], limx, limy) && p == anchor_origin(t, stars[j]) {
            let j = choose|j: int|
                0 <= j < stars.len() && anchor_fits(t, #[trigger] stars[j], limx, limy) && p == anchor_origin(t, stars[j]);
            if j < d.len() {
                assert(d[j] == stars[j]);
            }
        }
    }
}

/// The anchored origins are exactly those that put some star on some owned
/// cell within the limits, each listed once.
pub proof fn lemma_anchored_members(
    terr: Seq<(usize, usize)>,
    stars: Seq<(usize, usize)>,
    limx: int,
    limy: int,
    p: (usize, usize),
)
    ensures
        anchored(terr, stars, limx, limy).contains(p) <==> exists|i: int, j: int|
            0 <= i < terr.len() && 0 <= j < stars.len() && anchor_fits(
                #[trigger] terr[i],
                #[trigger] stars[j],
                limx,
                limy,
            ) && p == anchor_origin(terr[i], stars[j]),
        anchored(terr, stars, limx, limy).no_duplicates(),
    decreases terr.len(),
{
    if terr.len() > 0 {
        let d = terr.drop_last();
        let t = terr.last();
        lemma_anchored_members(d, stars, limx, limy, p);
        lemma_add_anchors(anchored(d, stars, limx, limy), t, stars, limx, limy, p);
        if exists|i: int, j: int|
            0 <= i < terr.len() && 0 <= j < stars.len() && anchor_fits(
                #[trigger] terr[i],
                #[trigger] stars[j],
                limx,
                limy,
            ) && p == anchor_origin(terr[i], stars[j]) {
            let (i, j) = choose|i: int, j: int|
                0 <= i < terr.len() && 0 <= j < stars.len() && anchor_fits(
                    #[trigger] terr[i],
                    #[trigger] stars[j],
                    limx,
                    limy,
                ) && p == anchor_origin(terr[i], stars[j]);
            if i < d.len() {
                assert(d[i] == terr[i]);
            }
        }
        if exists|i: int, j: int|
            0 <= i < d.len() && 0 <= j < stars.len() && anchor_fits(
                #[trigger] d[i],
                #[trigger] stars[j],
                limx,
                limy,
            ) && p == anchor_origin(d[i], stars[j]) {
            let (i, j) = choose|i: int, j: int|
                0 <= i < d.len() && 0 <= j < stars.len() && anchor_fits(
                    #[trigger] d[i],
                    #[trigger] stars[j],
                    limx,
                    limy,
                ) && p == anchor_origin(d[i], stars[j]);
            assert(terr[i] == d[i]);
        }
    }
}

/// The full grid lists exactly the origins below the limits.
pub proof fn lemma_grid_members(nx: int, ny: int, p: (usize, usize))
    requires
        0 <= nx <= usize::MAX + 1,
        0 <= ny <= usize::MAX + 1,
    ensures
        grid_seq(nx, ny).contains(p) <==> (p.0 < nx && p.1 < ny),
    decreases ny,
{
    if ny > 0 {
        lemma_grid_members(nx, ny - 1, p);
        let a = grid_seq(nx, ny - 1);
        let r = grid_row(ny - 1, nx);
        let all = a + r;
        if all.contains(p) {
            let i = choose|i: int| 0 <= i < all.len() && all[i] == p;
            if i < a.len() {
                assert(a[i] == p);
            } else {
                assert(r[i - a.len()] == p);
            }
        }
        if a.contains(p) {
            let i = choose|i: int| 0 <= i < a.len() && a[i] == p;
            assert(all[i] == p);
        }
        if p.0 < nx && p.1 == ny - 1 {
            assert(r[p.0 as int] == p);
            assert(all[a.len() + p.0] == p);
        }
    }
}

/// Whether `v` already holds `o`.
fn holds_origin(v: &Vec<(usize, usize)>, o: (usize, usize)) -> (r: bool)
    ensures
        r == v@.contains(o),
{
    let mut i: usize = 0;
    while i < v.len()
        invariant
            i <= v@.len(),
            forall|j: int| 0 <= j < i ==> v@[j] != o,
        decreases v@.len() - i,
    {
        if v[i].0 == o.0 && v[i].1 == o.1 {
            assert(v@[i as int] == o);
            return true;
        }
        i = i + 1;
    }
    false
}

/// Origins that put some star of the piece on some owned cell while the
/// piece's `piece_w` by `piece_h` box stays on the board; each origin once,
/// in the order in which it is first met.
pub fn territory_candidates(
    territory: &[(usize, usize)],
    stars: &[(usize, usize)],
    board_w: usize,
    board_h: usize,
    piece_w: usize,
    piece_h: usize,
) -> (r: Vec<(usize, usize)>)
    requires
        piece_w <= board_w,
        piece_h <= board_h,
    ensures
        r@ == anchored(territory@, stars@, board_w - piece_w, board_h - piece_h),
{
    let limx: usize = board_w - piece_w;
    let limy: usize = board_h - piece_h;
    let mut out: Vec<(usize, usize)> = Vec::new();
    let mut i: usize = 0;
    while i < territory.len()
        invariant
            i <= territory@.len(),
            limx == board_w - piece_w,
            limy == board_h - piece_h,
            out@ == anchored(territory@.take(i as int), stars@, limx as int, limy as int),
        decreases territory@.len() - i,
    {
        let (x, y) = territory[i];
        let ghost base = out@;
        let mut j: usize = 0;
        while j < stars.len()
            invariant
                j <= stars@.len(),
                i < territory@.len(),
                (x, y) == territory@[i as int],
                out@ == add_anchors(base, (x, y), stars@.take(j as int), limx as int, limy as int),
            decreases stars@.len() - j,
        {
            let (dx, dy) = stars[j];
            assert(stars@.take(j as int + 1).drop_last() =~= stars@.take(j as int));
            if x >= dx && y >= dy {
                let x0: usize = x - dx;
                let y0: usize = y - dy;
                if x0 <= limx && y0 <= limy {
                    if !holds_origin(&out, (x0, y0)) {
                        out.push((x0, y0));
                    }
                }
            }
            j = j + 1;
        }
        assert(stars@.take(stars@.len() as int) =~= stars@);
        assert(territory@.take(i as int + 1).drop_last() =~= territory@.take(i as int));
        i = i + 1;
    }
    assert(territory@.take(territory@.len() as int) =~= territory@);
    out
}

/// Every origin `(x, y)` with `x <= board_w - piece_w` and
/// `y <= board_h - piece_h`, row by row.
pub fn grid_candidates(board_w: usize, board_h: usize, piece_w: usize, piece_h: usize) -> (r: Vec<(usize, usize)>)
    requires
        piece_w <= board_w,
        piece_h <= board_h,
        board_w - piece_w < usize::MAX,
        board_h - piece_h < usize::MAX,
    ensures
        r@ == grid_seq(board_w - piece_w + 1, board_h - piece_h + 1),
{
    let nx: usize = board_w - piece_w + 1;
    let ny: usize = board_h - piece_h + 1;
    let mut out: Vec<(usize, usize)> = Vec::new();
    let mut y: usize = 0;
    while y < ny
        invariant
            y <= ny,
            nx == board_w - piece_w + 1,
            ny == board_h - piece_h + 1,
            out@ == grid_seq(nx as int, y as int),
        decreases ny - y,
    {
        let ghost base = out@;
        let mut x: usize = 0;
        while x < nx
            invariant
                x <= nx,
                y < ny,
                out@ == base + grid_row(y as int, nx as int).take(x as int),
            decreases nx - x,
        {
            out.push((x, y));
            assert(grid_row(y as int, nx as int).take(x as int + 1) =~= grid_row(y as int, nx as int).take(x as int).push((x, y)));
            x = x + 1;
        }
        assert(grid_row(y as int, nx as int).take(nx as int) =~= grid_row(y as int, nx as int));
        y = y + 1;
    }
    out
}

} // verus!
