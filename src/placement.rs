//! Whether a piece may be placed at an origin, and what the placement costs.
use vstd::prelude::*;
use crate::distance::UNREACHABLE;
use crate::grid::{cell, in_board, is_own_symbol, owns_symbol};

verus! {

/// Cost of a covered cell that is off the map or that no opponent cell reaches.
pub const PENALTY: i64 = 1_000_000;

/// The board cell that the star `s` covers when the piece's origin is `(x, y)`.
pub open spec fn cover_x(s: (usize, usize), x: int) -> int {
    x + s.0
}

pub open spec fn cover_y(s: (usize, usize), y: int) -> int {
    y + s.1
}

/// The star `s` covers a cell of `player`.
pub open spec fn covers_own(board: Seq<String>, s: (usize, usize), x: int, y: int, player: char) -> bool {
    in_board(board, cover_x(s, x), cover_y(s, y)) && owns_symbol(
        player,
        cell(board, cover_x(s, x), cover_y(s, y)),
    )
}

/// The star `s` covers a cell that is off the board, or holds neither a
/// symbol of `player` nor the empty mark `'.'` (opponent cells included).
pub open spec fn covers_foreign(board: Seq<String>, s: (usize, usize), x: int, y: int, player: char) -> bool {
    !in_board(board, cover_x(s, x), cover_y(s, y)) || (!owns_symbol(
        player,
        cell(board, cover_x(s, x), cover_y(s, y)),
    ) && cell(board, cover_x(s, x), cover_y(s, y)) != '.')
}

/// How many stars cover cells of `player`.
pub open spec fn own_count(board: Seq<String>, stars: Seq<(usize, usize)>, x: int, y: int, player: char) -> nat
    decreases stars.len(),
{
    if stars.len() == 0 {
        0
    } else {
        own_count(board, stars.drop_last(), x, y, player) + if covers_own(
            board,
            stars.last(),
            x,
            y,
            player,
        ) {
            1nat
        } else {
            0nat
        }
    }
}

/// How many stars cover foreign or missing cells.
pub open spec fn foreign_count(board: Seq<String>, stars: Seq<(usize, usize)>, x: int, y: int, player: char) -> nat
    decreases stars.len(),
{
    if stars.len() == 0 {
        0
    } else {
        foreign_count(board, stars.drop_last(), x, y, player) + if covers_foreign(
            board,
            stars.last(),
            x,
            y,
            player,
        ) {
            1nat
        } else {
            0nat
        }
    }
}

/// The piece at `(x, y)` is a legal move: every star lands on the board, on
/// an empty cell or one of `player`, and exactly one lands on `player`'s.
pub open spec fn is_legal(board: Seq<String>, stars: Seq<(usize, usize)>, x: int, y: int, player: char) -> bool {
    &&& forall|i: int| 0 <= i < stars.len() ==> !covers_foreign(board, #[trigger] stars[i], x, y, player)
    &&& own_count(board, stars, x, y, player) == 1
}

/// A piece covers no foreign cell exactly when no star does.
proof fn lemma_foreign_zero(board: Seq<String>, stars: Seq<(usize, usize)>, x: int, y: int, player: char)
    ensures
        foreign_count(board, stars, x, y, player) == 0 <==> forall|i: int|
            0 <= i < stars.len() ==> !covers_foreign(board, #[trigger] stars[i], x, y, player),
    decreases stars.len(),
{
    if stars.len() > 0 {
        let p = stars.drop_last();
        lemma_foreign_zero(board, p, x, y, player);
        if foreign_count(board, stars, x, y, player) == 0 {
            assert forall|i: int| 0 <= i < stars.len() implies !covers_foreign(
                board,
                #[trigger] stars[i],
                x,
                y,
                player,
            ) by {
                if i < p.len() {
                    assert(p[i] == stars[i]);
                }
            }
        }
        if forall|i: int|
            0 <= i < stars.len() ==> !covers_foreign(board, #[trigger] stars[i], x, y, player) {
            assert forall|i: int| 0 <= i < p.len() implies !covers_foreign(
                board,
                #[trigger] p[i],
                x,
                y,
                player,
            ) by {
                assert(p[i] == stars[i]);
            }
            assert(!covers_foreign(board, stars[stars.len() - 1], x, y, player));
        }
    }
}

/// A placement is legal exactly when it covers one cell of the player and
/// no cell of the opponent, no other symbol and nothing off the board.
pub proof fn lemma_legal_counts(board: Seq<String>, stars: Seq<(usize, usize)>, x: int, y: int, player: char)
    ensures
        is_legal(board, stars, x, y, player) <==> (own_count(board, stars, x, y, player) == 1
            && foreign_count(board, stars, x, y, player) == 0),
{
    lemma_foreign_zero(board, stars, x, y, player);
}

/// Whether the piece with filled cells `stars`, placed with its top-left
/// corner at `(x, y)`, is a legal move for `player_char`.
pub fn is_valid_placement(
    board: &[String],
    stars: &[(usize, usize)],
    x: usize,
    y: usize,
    player_char: char,
) -> (r: bool)
    ensures
        r == is_legal(board@, stars@, x as int, y as int, player_char),
{
    let mut overlap_count: usize = 0;
    let mut i: usize = 0;
    while i < stars.len()
        invariant
            i <= stars@.len(),
            overlap_count == own_count(board@, stars@.take(i as int), x as int, y as int, player_char),
            overlap_count <= i,
            forall|j: int|
                0 <= j < i ==> !covers_foreign(board@, #[trigger] stars@[j], x as int, y as int, player_char),
        decreases stars@.len() - i,
    {
        let (dx, dy) = stars[i];
        assert(stars@.take(i as int + 1).drop_last() =~= stars@.take(i as int));
        if dy >= board.len() || y >= board.len() - dy {
            return false;
        }
        let by: usize = y + dy;
        let row: &str = board[by].as_str();
        let n: usize = row.unicode_len();
        if dx >= n || x >= n - dx {
            return false;
        }
        let bx: usize = x + dx;
        let c: char = row.get_char(bx);
        if is_own_symbol(player_char, c) {
            overlap_count = overlap_count + 1;
        } else if c != '.' {
            return false;
        }
        i = i + 1;
    }
    assert(stars@.take(stars@.len() as int) =~= stars@);
    overlap_count == 1
}

/// What the cell covered by star `s` adds to a placement's cost: its
/// distance, or `PENALTY` when it is off the map or unreached.
pub open spec fn cell_cost(s: (usize, usize), x: int, y: int, h: int, w: int, dist: Seq<Seq<i32>>) -> int {
    let bx = cover_x(s, x);
    let by = cover_y(s, y);
    if by < h && bx < w {
        if dist[by][bx] == UNREACHABLE {
            PENALTY as int
        } else {
            dist[by][bx] as int
        }
    } else {
        PENALTY as int
    }
}

/// Sum of the costs of the covered cells.
pub open spec fn score_of(stars: Seq<(usize, usize)>, x: int, y: int, h: int, w: int, dist: Seq<Seq<i32>>) -> int
    decreases stars.len(),
{
    if stars.len() == 0 {
        0
    } else {
        score_of(stars.drop_last(), x, y, h, w, dist) + cell_cost(stars.last(), x, y, h, w, dist)
    }
}

/// The rows of a distance map as sequences.
pub open spec fn rows_view(d: Seq<Vec<i32>>) -> Seq<Seq<i32>> {
    d.map_values(|r: Vec<i32>| r@)
}

proof fn lemma_score_bound(stars: Seq<(usize, usize)>, x: int, y: int, h: int, w: int, dist: Seq<Seq<i32>>)
    ensures
        -(stars.len() as int) * 0x8000_0000 <= score_of(stars, x, y, h, w, dist) <= (stars.len() as int) * 0x8000_0000,
    decreases stars.len(),
{
    if stars.len() > 0 {
        lemma_score_bound(stars.drop_last(), x, y, h, w, dist);
        assert((stars.len() as int) * 0x8000_0000 == (stars.len() - 1) as int * 0x8000_0000 + 0x8000_0000) by (nonlinear_arith);
    }
}

/// Cost of placing the piece at `(x, y)`: the sum over its stars of the
/// distance map at the covered cell, where a cell off the map or unreached
/// adds `PENALTY`.
pub fn placement_score(
    stars: &[(usize, usize)],
    x: usize,
    y: usize,
    board_h: usize,
    board_w: usize,
    dist_map: &[Vec<i32>],
) -> (r: i64)
    requires
        dist_map@.len() == board_h,
        forall|j: int| 0 <= j < board_h ==> (#[trigger] dist_map@[j])@.len() == board_w,
        stars@.len() <= u32::MAX,
    ensures
        r as int == score_of(stars@, x as int, y as int, board_h as int, board_w as int, rows_view(dist_map@)),
{
    let ghost dv = rows_view(dist_map@);
    let mut score: i64 = 0;
    let mut i: usize = 0;
    while i < stars.len()
        invariant
            i <= stars@.len(),
            stars@.len() <= u32::MAX,
            dv == rows_view(dist_map@),
            dist_map@.len() == board_h,
            forall|j: int| 0 <= j < board_h ==> (#[trigger] dist_map@[j])@.len() == board_w,
            score as int == score_of(stars@.take(i as int), x as int, y as int, board_h as int, board_w as int, dv),
        decreases stars@.len() - i,
    {
        let (dx, dy) = stars[i];
        let ghost t = stars@.take(i as int + 1);
        assert(t.drop_last() =~= stars@.take(i as int));
        proof {
            lemma_score_bound(t, x as int, y as int, board_h as int, board_w as int, dv);
            assert((t.len() as int) * 0x8000_0000 <= 0x1_0000_0000 * 0x8000_0000) by (nonlinear_arith)
                requires t.len() <= 0x1_0000_0000;
        }
        if dy < board_h && y < board_h - dy && dx < board_w && x < board_w - dx {
            let d: i32 = dist_map[y + dy][x + dx];
            assert(dv[(y + dy) as int][(x + dx) as int] == d);
            if d == UNREACHABLE {
                score = score + PENALTY;
            } else {
                score = score + d as i64;
            }
        } else {
            score = score + PENALTY;
        }
        i = i + 1;
    }
    assert(stars@.take(stars@.len() as int) =~= stars@);
    score
}

} // verus!
