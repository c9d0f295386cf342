//! Picking the cheapest legal placement among the candidates.
use vstd::prelude::*;
use crate::placement::{is_legal, is_valid_placement, placement_score, rows_view, score_of};

verus! {

/// Scanning `cands` in order, the legal candidate of least cost; an earlier
/// one wins a tie. `None` when no candidate is legal.
pub open spec fn best_of(
    board: Seq<String>,
    stars: Seq<(usize, usize)>,
    player: char,
    h: int,
    w: int,
    dist: Seq<Seq<i32>>,
    cands: Seq<(usize, usize)>,
) -> Option<(usize, usize)>
    decreases cands.len(),
{
    if cands.len() == 0 {
        None
    } else {
        let prev = best_of(board, stars, player, h, w, dist, cands.drop_last());
        let c = cands.last();
        let better = match prev {
            None => true,
            Some(p) => score_of(stars, c.0 as int, c.1 as int, h, w, dist) < score_of(
                stars,
                p.0 as int,
                p.1 as int,
                h,
                w,
                dist,
            ),
        };
        if is_legal(board, stars, c.0 as int, c.1 as int, player) && better {
            Some(c)
        } else {
            prev
        }
    }
}

/// The choice is `None` exactly when no candidate is legal; otherwise it is
/// a legal candidate whose cost no legal candidate undercuts.
pub proof fn lemma_best_of(
    board: Seq<String>,
    stars: Seq<(usize, usize)>,
    player: char,
    h: int,
    w: int,
    dist: Seq<Seq<i32>>,
    cands: Seq<(usize, usize)>,
)
    ensures
        best_of(board, stars, player, h, w, dist, cands) is None <==> forall|o: (usize, usize)|
            cands.contains(o) ==> !is_legal(board, stars, o.0 as int, o.1 as int, player),
        best_of(board, stars, player, h, w, dist, cands) matches Some(b) ==> {
            &&& cands.contains(b)
            &&& is_legal(board, stars, b.0 as int, b.1 as int, player)
            &&& forall|o: (usize, usize)|
                cands.contains(o) && is_legal(board, stars, o.0 as int, o.1 as int, player)
                    ==> score_of(stars, b.0 as int, b.1 as int, h, w, dist) <= score_of(
                    stars,
                    o.0 as int,
                    o.1 as int,
                    h,
                    w,
                    dist,
                )
        },
    decreases cands.len(),
{
    if cands.len() > 0 {
        let d = cands.drop_last();
        let c = cands.last();
        lemma_best_of(board, stars, player, h, w, dist, d);
        assert(cands[cands.len() - 1] == c);
        assert forall|o: (usize, usize)| cands.contains(o) implies (d.contains(o) || o == c) by {
            let i = choose|i: int| 0 <= i < cands.len() && cands[i] == o;
            if i < d.len() {
                assert(d[i] == o);
            }
        }
        assert forall|o: (usize, usize)| d.contains(o) implies cands.contains(o) by {
            let i = choose|i: int| 0 <= i < d.len() && d[i] == o;
            assert(cands[i] == o);
        }
        assert(cands.contains(c));
    } else {
        assert forall|o: (usize, usize)| !cands.contains(o) by {}
    }
}

/// The candidate that `best_of` describes, found by testing each for
/// legality and keeping the cheapest.
pub fn select_best(
    board: &[String],
    stars: &[(usize, usize)],
    candidates: &[(usize, usize)],
    player_char: char,
    board_h: usize,
    board_w: usize,
    dist_map: &[Vec<i32>],
) -> (r: Option<(usize, usize)>)
    requires
        dist_map@.len() == board_h,
        forall|j: int| 0 <= j < board_h ==> (#[trigger] dist_map@[j])@.len() == board_w,
        stars@.len() <= u32::MAX,
    ensures
        r == best_of(
            board@,
            stars@,
            player_char,
            board_h as int,
            board_w as int,
            rows_view(dist_map@),
            candidates@,
        ),
{
    let ghost dv = rows_view(dist_map@);
    let mut best: Option<(usize, usize)> = None;
    let mut best_score: i64 = 0;
    let mut i: usize = 0;
    while i < candidates.len()
        invariant
            i <= candidates@.len(),
            dist_map@.len() == board_h,
            forall|j: int| 0 <= j < board_h ==> (#[trigger] dist_map@[j])@.len() == board_w,
            stars@.len() <= u32::MAX,
            dv == rows_view(dist_map@),
            best == best_of(
                board@,
                stars@,
                player_char,
                board_h as int,
                board_w as int,
                dv,
                candidates@.take(i as int),
            ),
            best matches Some(b) ==> best_score as int == score_of(
                stars@,
                b.0 as int,
                b.1 as int,
                board_h as int,
                board_w as int,
                dv,
            ),
        decreases candidates@.len() - i,
    {
        let (x, y) = candidates[i];
        assert(candidates@.take(i as int + 1).drop_last() =~= candidates@.take(i as int));
        if is_valid_placement(board, stars, x, y, player_char) {
            let score: i64 = placement_score(stars, x, y, board_h, board_w, dist_map);
            if best.is_none() || score < best_score {
                best = Some((x, y));
                best_score = score;
            }
        }
        i = i + 1;
    }
    assert(candidates@.take(candidates@.len() as int) =~= candidates@);
    best
}

} // verus!
