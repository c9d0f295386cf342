//! One turn: from the board and the piece to the chosen origin.
use vstd::prelude::*;
use crate::candidates::{
    anchor_fits,
    anchor_origin,
    anchored,
    grid_candidates,
    grid_seq,
    lemma_anchored_members,
    lemma_grid_members,
    territory_candidates,
};
use crate::distance::{
    board_width,
    build_distance_map,
    has_opp,
    is_distance_map,
    nearest_is,
    dv,
    UNREACHABLE,
};
use crate::grid::{
    get_player_territory,
    in_board,
    is_rect,
    lemma_territory_members,
    opponent_char,
    opponent_of,
    owns_symbol,
    cell,
    territory,
};
use crate::placement::{covers_own, is_legal, own_count, rows_view, score_of};
use crate::select::{best_of, lemma_best_of, select_best};

verus! {

/// The filled cells (`'O'`) of row `y` of a piece, left to right.
pub open spec fn row_stars(row: Seq<char>, y: int) -> Seq<(usize, usize)>
    decreases row.len(),
{
    if row.len() == 0 {
        Seq::empty()
    } else {
        let rest = row_stars(row.drop_last(), y);
        if row.last() == 'O' {
            rest.push(((row.len() - 1) as usize, y as usize))
        } else {
            rest
        }
    }
}

/// The filled cells of a piece as `(dx, dy)`, row by row.
pub open spec fn stars_of(piece: Seq<String>) -> Seq<(usize, usize)>
    decreases piece.len(),
{
    if piece.len() == 0 {
        Seq::empty()
    } else {
        stars_of(piece.drop_last()) + row_stars(piece.last()@, piece.len() - 1)
    }
}

/// The offsets of the filled cells (`'O'`) of a piece, row by row, each row
/// left to right.
pub fn piece_stars(piece: &[String]) -> (r: Vec<(usize, usize)>)
    ensures
        r@ == stars_of(piece@),
{
    let mut out: Vec<(usize, usize)> = Vec::new();
    let mut y: usize = 0;
    while y < piece.len()
        invariant
            y <= piece@.len(),
            out@ == stars_of(piece@.take(y as int)),
        decreases piece@.len() - y,
    {
        let row: &str = piece[y].as_str();
        let n: usize = row.unicode_len();
        let ghost before = out@;
        let mut x: usize = 0;
        while x < n
            invariant
                x <= n,
                n == row@.len(),
                row@ == piece@[y as int]@,
                y < piece@.len(),
                out@ == before + row_stars(row@.take(x as int), y as int),
            decreases n - x,
        {
            let c: char = row.get_char(x);
            assert(row@.take(x as int + 1).drop_last() =~= row@.take(x as int));
            if c == 'O' {
                out.push((x, y));
            }
            assert(out@ =~= before + row_stars(row@.take(x as int + 1), y as int));
            x = x + 1;
        }
        assert(row@.take(n as int) =~= row@);
        assert(piece@.take(y as int + 1).drop_last() =~= piece@.take(y as int));
        y = y + 1;
    }
    assert(piece@.take(piece@.len() as int) =~= piece@);
    out
}

/// `v`, or `usize::MAX` when it is larger.
pub open spec fn capped(v: int) -> int {
    if v > usize::MAX {
        usize::MAX as int
    } else {
        v
    }
}

/// The product `a * b * c`, held at `usize::MAX` when it is larger.
pub fn estimate_cost(a: usize, b: usize, c: usize) -> (r: usize)
    ensures
        r as int == capped(a * b * c),
{
    match a.checked_mul(b) {
        Some(ab) => match ab.checked_mul(c) {
            Some(v) => v,
            None => usize::MAX,
        },
        None => {
            if c == 0 {
                assert(a * b * c == 0) by (nonlinear_arith)
                    requires c == 0;
                0
            } else {
                assert(a * b * c >= a * b) by (nonlinear_arith)
                    requires c >= 1, a >= 0, b >= 0;
                usize::MAX
            }
        },
    }
}

/// The anchored search is estimated to be cheaper than scanning every origin.
pub open spec fn prefers_territory(n_own: int, n_stars: int, bw: int, bh: int, pw: int, ph: int) -> bool {
    capped(n_own * n_stars * n_stars) < capped((bh - ph + 1) * (bw - pw + 1) * n_stars)
}

/// The distance from `(x, y)` to the nearest cell of `opp`, or `UNREACHABLE`.
pub open spec fn nearest(board: Seq<String>, opp: char, x: int, y: int) -> int {
    if has_opp(board, opp) {
        choose|d: int| nearest_is(board, opp, x, y, d)
    } else {
        UNREACHABLE as int
    }
}

/// The distance map of `board` towards `opp`, row by row.
pub open spec fn distance_rows(board: Seq<String>, opp: char) -> Seq<Seq<i32>> {
    Seq::new(
        board.len(),
        |y: int| Seq::new(board_width(board) as nat, |x: int| nearest(board, opp, x, y) as i32),
    )
}

/// The origins that the turn examines, under the strategy that the cost
/// estimate picks.
pub open spec fn turn_candidates(
    board: Seq<String>,
    bw: int,
    bh: int,
    stars: Seq<(usize, usize)>,
    pw: int,
    ph: int,
    player: char,
) -> Seq<(usize, usize)> {
    let terr = territory(board, player);
    if prefers_territory(terr.len() as int, stars.len() as int, bw, bh, pw, ph) {
        anchored(terr, stars, bw - pw, bh - ph)
    } else {
        grid_seq(bw - pw + 1, bh - ph + 1)
    }
}

/// The move of a turn: no move when the piece's box is larger than the
/// board or the piece has no filled cell; otherwise the cheapest legal
/// candidate, the first one met on a tie.
pub open spec fn chosen_move(
    board: Seq<String>,
    bw: int,
    bh: int,
    piece: Seq<String>,
    pw: int,
    ph: int,
    player: char,
) -> Option<(usize, usize)> {
    let stars = stars_of(piece);
    if bh < ph || bw < pw || stars.len() == 0 {
        None
    } else {
        best_of(
            board,
            stars,
            player,
            bh,
            bw,
            distance_rows(board, opponent_of(player)),
            turn_candidates(board, bw, bh, stars, pw, ph, player),
        )
    }
}

/// A distance map is determined by the board.
proof fn lemma_map_unique(board: Seq<String>, opp: char, dist: Seq<Vec<i32>>)
    requires
        is_distance_map(board, opp, board_width(board), dist),
    ensures
        rows_view(dist) == distance_rows(board, opp),
{
    let w = board_width(board);
    let a = rows_view(dist);
    let b = distance_rows(board, opp);
    assert forall|y: int| 0 <= y < board.len() implies #[trigger] a[y] == b[y] by {
        assert forall|x: int| 0 <= x < w implies a[y][x] == b[y][x] by {
            let d = dv(dist, x, y);
            if has_opp(board, opp) {
                assert(nearest_is(board, opp, x, y, d));
                let e = choose|e: int| nearest_is(board, opp, x, y, e);
                let (o1x, o1y) = choose|ox: int, oy: int|
                    crate::distance::is_opp_cell(board, opp, ox, oy) && crate::distance::manhattan(x, y, ox, oy) == d;
                let (o2x, o2y) = choose|ox: int, oy: int|
                    crate::distance::is_opp_cell(board, opp, ox, oy) && crate::distance::manhattan(x, y, ox, oy) == e;
                assert(crate::distance::is_opp_cell(board, opp, o1x, o1y));
                assert(crate::distance::is_opp_cell(board, opp, o2x, o2y));
                assert(d == e);
            }
        }
        assert(a[y] =~= b[y]);
    }
    assert(a =~= b);
}

/// Picks the origin at which to place the piece this turn, or `None` when
/// there is no legal move. The piece is given by its lines, `'O'` marking
/// filled cells, and its box is `piece_w` by `piece_h`.
pub fn choose_move(
    board: &[String],
    board_w: usize,
    board_h: usize,
    piece: &[String],
    piece_w: usize,
    piece_h: usize,
    player_char: char,
) -> (r: Option<(usize, usize)>)
    requires
        board@.len() == board_h,
        is_rect(board@, board_w as int),
        board_h + board_w < UNREACHABLE,
        stars_of(piece@).len() <= u32::MAX,
    ensures
        r == chosen_move(
            board@,
            board_w as int,
            board_h as int,
            piece@,
            piece_w as int,
            piece_h as int,
            player_char,
        ),
{
    if board_h < piece_h || board_w < piece_w {
        return None;
    }
    let stars: Vec<(usize, usize)> = piece_stars(piece);
    let our_pieces: Vec<(usize, usize)> = get_player_territory(board, player_char);
    let n_our: usize = our_pieces.len();
    let n_stars: usize = stars.len();
    if n_stars == 0 {
        return None;
    }
    assert(board_h > 0 ==> board@[0]@.len() == board_w);
    let dist_map: Vec<Vec<i32>> = build_distance_map(board, opponent_char(player_char));
    proof {
        lemma_map_unique(board@, opponent_of(player_char), dist_map@);
    }
    let cost_territory: usize = estimate_cost(n_our, n_stars, n_stars);
    let cost_grid: usize = estimate_cost(board_h - piece_h + 1, board_w - piece_w + 1, n_stars);
    let candidates: Vec<(usize, usize)> = if cost_territory < cost_grid {
        territory_candidates(&our_pieces, &stars, board_w, board_h, piece_w, piece_h)
    } else {
        grid_candidates(board_w, board_h, piece_w, piece_h)
    };
    assert(dist_map@.len() == board_h);
    select_best(board, &stars, &candidates, player_char, board_h, board_w, &dist_map)
}

/// Some star covers a cell of `player` when the count of such stars is not zero.
proof fn lemma_own_witness(board: Seq<String>, stars: Seq<(usize, usize)>, x: int, y: int, player: char)
    requires
        own_count(board, stars, x, y, player) > 0,
    ensures
        exists|j: int| 0 <= j < stars.len() && covers_own(board, #[trigger] stars[j], x, y, player),
    decreases stars.len(),
{
    let d = stars.drop_last();
    if covers_own(board, stars.last(), x, y, player) {
        assert(covers_own(board, stars[stars.len() - 1], x, y, player));
    } else {
        lemma_own_witness(board, d, x, y, player);
        let j = choose|j: int| 0 <= j < d.len() && covers_own(board, #[trigger] d[j], x, y, player);
        assert(stars[j] == d[j]);
    }
}

/// The cost of a chosen origin, 0 for no origin.
pub open spec fn option_cost(
    stars: Seq<(usize, usize)>,
    h: int,
    w: int,
    dist: Seq<Seq<i32>>,
    m: Option<(usize, usize)>,
) -> int {
    match m {
        Some(p) => score_of(stars, p.0 as int, p.1 as int, h, w, dist),
        None => 0,
    }
}

/// A legal origin within the box limits is among the anchored candidates.
proof fn lemma_legal_is_anchored(
    board: Seq<String>,
    bw: int,
    bh: int,
    stars: Seq<(usize, usize)>,
    pw: int,
    ph: int,
    player: char,
    o: (usize, usize),
)
    requires
        board.len() == bh,
        is_rect(board, bw),
        bw <= usize::MAX,
        bh <= usize::MAX,
        o.0 <= bw - pw,
        o.1 <= bh - ph,
        is_legal(board, stars, o.0 as int, o.1 as int, player),
    ensures
        anchored(territory(board, player), stars, bw - pw, bh - ph).contains(o),
{
    let terr = territory(board, player);
    lemma_own_witness(board, stars, o.0 as int, o.1 as int, player);
    let j = choose|j: int|
        0 <= j < stars.len() && covers_own(board, #[trigger] stars[j], o.0 as int, o.1 as int, player);
    let s = stars[j];
    let tx = o.0 + s.0;
    let ty = o.1 + s.1;
    assert(in_board(board, tx, ty));
    assert(board[ty]@.len() == bw);
    let t = (tx as usize, ty as usize);
    assert(forall|yy: int| 0 <= yy < board.len() ==> #[trigger] board[yy]@.len() <= usize::MAX);
    lemma_territory_members(board, player, t);
    assert(terr.contains(t));
    let i = choose|i: int| 0 <= i < terr.len() && terr[i] == t;
    assert(anchor_fits(terr[i], stars[j], bw - pw, bh - ph));
    assert(anchor_origin(terr[i], stars[j]) == o);
    lemma_anchored_members(terr, stars, bw - pw, bh - ph, o);
}

/// The anchored search and the scan of every origin agree: both find no
/// legal placement, or both find one of the same, least, cost; and when a
/// single legal origin has that cost, both pick it.
pub proof fn lemma_strategies_agree(
    board: Seq<String>,
    bw: int,
    bh: int,
    piece: Seq<String>,
    pw: int,
    ph: int,
    player: char,
)
    requires
        board.len() == bh,
        is_rect(board, bw),
        bw <= usize::MAX,
        bh <= usize::MAX,
        0 <= pw <= bw,
        0 <= ph <= bh,
    ensures
        ({
            let stars = stars_of(piece);
            let dist = distance_rows(board, opponent_of(player));
            let a = best_of(
                board,
                stars,
                player,
                bh,
                bw,
                dist,
                anchored(territory(board, player), stars, bw - pw, bh - ph),
            );
            let g = best_of(board, stars, player, bh, bw, dist, grid_seq(bw - pw + 1, bh - ph + 1));
            &&& (a is None <==> g is None)
            &&& option_cost(stars, bh, bw, dist, a) == option_cost(stars, bh, bw, dist, g)
            &&& (forall|u: (usize, usize), v: (usize, usize)|
                is_legal(board, stars, u.0 as int, u.1 as int, player) && u.0 <= bw - pw && u.1
                    <= bh - ph && is_legal(board, stars, v.0 as int, v.1 as int, player) && v.0
                    <= bw - pw && v.1 <= bh - ph && score_of(stars, u.0 as int, u.1 as int, bh, bw, dist)
                    == option_cost(stars, bh, bw, dist, a) && score_of(stars, v.0 as int, v.1 as int, bh, bw, dist)
                    == option_cost(stars, bh, bw, dist, a) ==> u == v) ==> a == g
        }),
{
    let stars = stars_of(piece);
    let dist = distance_rows(board, opponent_of(player));
    let terr = territory(board, player);
    let ca = anchored(terr, stars, bw - pw, bh - ph);
    let cg = grid_seq(bw - pw + 1, bh - ph + 1);
    assert forall|o: (usize, usize)| is_legal(board, stars, o.0 as int, o.1 as int, player) implies (
    ca.contains(o) <==> cg.contains(o)) by {
        lemma_grid_members(bw - pw + 1, bh - ph + 1, o);
        lemma_anchored_members(terr, stars, bw - pw, bh - ph, o);
        if cg.contains(o) {
            lemma_legal_is_anchored(board, bw, bh, stars, pw, ph, player, o);
        }
    }
    assert forall|o: (usize, usize)| ca.contains(o) implies o.0 <= bw - pw && o.1 <= bh - ph by {
        lemma_anchored_members(terr, stars, bw - pw, bh - ph, o);
    }
    lemma_best_of(board, stars, player, bh, bw, dist, ca);
    lemma_best_of(board, stars, player, bh, bw, dist, cg);
    let a = best_of(board, stars, player, bh, bw, dist, ca);
    let g = best_of(board, stars, player, bh, bw, dist, cg);
    if a is Some && g is Some {
        let p = a->0;
        let q = g->0;
        assert(cg.contains(p));
        assert(ca.contains(q));
        lemma_grid_members(bw - pw + 1, bh - ph + 1, q);
    }
}

/// With no cell of the player on the board no placement is legal, so the
/// turn has no move, whichever strategy the cost estimate picks.
pub proof fn lemma_no_territory_no_move(
    board: Seq<String>,
    bw: int,
    bh: int,
    piece: Seq<String>,
    pw: int,
    ph: int,
    player: char,
)
    requires
        board.len() == bh,
        is_rect(board, bw),
        bw <= usize::MAX,
        bh <= usize::MAX,
        territory(board, player).len() == 0,
    ensures
        forall|x: int, y: int| !is_legal(board, stars_of(piece), x, y, player),
        chosen_move(board, bw, bh, piece, pw, ph, player) is None,
{
    let stars = stars_of(piece);
    assert forall|x: int, y: int| !is_legal(board, stars, x, y, player) by {
        if is_legal(board, stars, x, y, player) {
            lemma_own_witness(board, stars, x, y, player);
            let j = choose|j: int| 0 <= j < stars.len() && covers_own(board, #[trigger] stars[j], x, y, player);
            let tx = x + stars[j].0;
            let ty = y + stars[j].1;
            assert(board[ty]@.len() == bw);
            let t = (tx as usize, ty as usize);
            assert(forall|yy: int| 0 <= yy < board.len() ==> #[trigger] board[yy]@.len() <= usize::MAX);
            lemma_territory_members(board, player, t);
            assert(territory(board, player).contains(t));
        }
    }
    if !(bh < ph || bw < pw || stars.len() == 0) {
        lemma_best_of(
            board,
            stars,
            player,
            bh,
            bw,
            distance_rows(board, opponent_of(player)),
            turn_candidates(board, bw, bh, stars, pw, ph, player),
        );
    }
}

} // verus!
