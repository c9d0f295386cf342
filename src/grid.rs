//! The board as rows of characters, and who owns which cell.
use vstd::prelude::*;

verus! {

/// Whether `c` is one of the two symbols that mark territory of `player`.
/// The first player is written `'@'` (cells `'@'` and `'a'`); any other
/// player character stands for the second player (cells `'$'` and `'s'`).
pub open spec fn owns_symbol(player: char, c: char) -> bool {
    if player == '@' {
        c == '@' || c == 'a'
    } else {
        c == '$' || c == 's'
    }
}

/// The character of the other player.
pub open spec fn opponent_of(player: char) -> char {
    if player == '@' {
        '$'
    } else {
        '@'
    }
}

/// The symbol at column `x` of row `y`.
pub open spec fn cell(board: Seq<String>, x: int, y: int) -> char {
    board[y]@[x]
}

/// `(x, y)` names a cell of the board.
pub open spec fn in_board(board: Seq<String>, x: int, y: int) -> bool {
    0 <= y < board.len() && 0 <= x < board[y]@.len()
}

/// Every row holds exactly `w` symbols.
pub open spec fn is_rect(board: Seq<String>, w: int) -> bool {
    forall|y: int| 0 <= y < board.len() ==> #[trigger] board[y]@.len() == w
}

/// The cells of `row` (row number `y`) that `player` owns, left to right.
pub open spec fn row_territory(row: Seq<char>, y: int, player: char) -> Seq<(usize, usize)>
    decreases row.len(),
{
    if row.len() == 0 {
        Seq::empty()
    } else {
        let rest = row_territory(row.drop_last(), y, player);
        if owns_symbol(player, row.last()) {
            rest.push(((row.len() - 1) as usize, y as usize))
        } else {
            rest
        }
    }
}

/// The cells that `player` owns, row by row, each row left to right.
pub open spec fn territory(board: Seq<String>, player: char) -> Seq<(usize, usize)>
    decreases board.len(),
{
    if board.len() == 0 {
        Seq::empty()
    } else {
        territory(board.drop_last(), player) + row_territory(
            board.last()@,
            board.len() - 1,
            player,
        )
    }
}

/// A row's territory lists exactly its cells of `player`.
proof fn lemma_row_territory_members(row: Seq<char>, y: int, player: char, t: (usize, usize))
    requires
        0 <= y <= usize::MAX,
        row.len() <= usize::MAX,
    ensures
        row_territory(row, y, player).contains(t) <==> (t.1 == y && t.0 < row.len()
            && owns_symbol(player, row[t.0 as int])),
    decreases row.len(),
{
    if row.len() > 0 {
        let rest = row_territory(row.drop_last(), y, player);
        lemma_row_territory_members(row.drop_last(), y, player, t);
        if owns_symbol(player, row.last()) {
            let p = ((row.len() - 1) as usize, y as usize);
            if t == p {
                assert(rest.push(p)[rest.len() as int] == p);
            }
            if rest.push(p).contains(t) && t != p {
                let i = choose|i: int| 0 <= i < rest.push(p).len() && rest.push(p)[i] == t;
                assert(rest[i] == t);
            }
            if rest.contains(t) {
                let i = choose|i: int| 0 <= i < rest.len() && rest[i] == t;
                assert(rest.push(p)[i] == t);
            }
        }
    }
}

/// The territory lists exactly the owned cells of the board.
pub proof fn lemma_territory_members(board: Seq<String>, player: char, t: (usize, usize))
    requires
        board.len() <= usize::MAX,
        forall|y: int| 0 <= y < board.len() ==> #[trigger] board[y]@.len() <= usize::MAX,
    ensures
        territory(board, player).contains(t) <==> (in_board(board, t.0 as int, t.1 as int)
            && owns_symbol(player, cell(board, t.0 as int, t.1 as int))),
    decreases board.len(),
{
    if board.len() > 0 {
        let n = board.len() - 1;
        let front = territory(board.drop_last(), player);
        let back = row_territory(board.last()@, n, player);
        lemma_territory_members(board.drop_last(), player, t);
        lemma_row_territory_members(board.last()@, n, player, t);
        let all = front + back;
        if all.contains(t) {
            let i = choose|i: int| 0 <= i < all.len() && all[i] == t;
            if i < front.len() {
                assert(front[i] == t);
            } else {
                assert(back[i - front.len()] == t);
            }
        }
        if front.contains(t) {
            let i = choose|i: int| 0 <= i < front.len() && front[i] == t;
            assert(all[i] == t);
        }
        if back.contains(t) {
            let i = choose|i: int| 0 <= i < back.len() && back[i] == t;
            assert(all[i + front.len()] == t);
        }
    }
}

/// Whether `c` is a territory symbol of `player`.
pub fn is_own_symbol(player: char, c: char) -> (r: bool)
    ensures
        r == owns_symbol(player, c),
{
    if player == '@' {
        c == '@' || c == 'a'
    } else {
        c == '$' || c == 's'
    }
}

/// The cells of the board that `player` owns, as `(x, y)`, in row-major order.
pub fn get_player_territory(board: &[String], player_char: char) -> (r: Vec<(usize, usize)>)
    ensures
        r@ == territory(board@, player_char),
        forall|t: (usize, usize)|
            #![trigger r@.contains(t)]
            r@.contains(t) <==> (in_board(board@, t.0 as int, t.1 as int) && owns_symbol(
                player_char,
                cell(board@, t.0 as int, t.1 as int),
            )),
{
    let mut out: Vec<(usize, usize)> = Vec::new();
    let mut y: usize = 0;
    while y < board.len()
        invariant
            y <= board@.len(),
            out@ == territory(board@.take(y as int), player_char),
            forall|j: int| 0 <= j < y ==> #[trigger] board@[j]@.len() <= usize::MAX,
        decreases board@.len() - y,
    {
        let row: &str = board[y].as_str();
        let n: usize = row.unicode_len();
        let ghost before = out@;
        let mut x: usize = 0;
        while x < n
            invariant
                x <= n,
                n == row@.len(),
                row@ == board@[y as int]@,
                y < board@.len(),
                out@ == before + row_territory(row@.take(x as int), y as int, player_char),
                forall|j: int| 0 <= j < y ==> #[trigger] board@[j]@.len() <= usize::MAX,
            decreases n - x,
        {
            let c: char = row.get_char(x);
            assert(row@.take(x as int + 1).drop_last() =~= row@.take(x as int));
            if is_own_symbol(player_char, c) {
                out.push((x, y));
                assert(out@ =~= before + row_territory(
                    row@.take(x as int + 1),
                    y as int,
                    player_char,
                ));
            } else {
                assert(out@ =~= before + row_territory(
                    row@.take(x as int + 1),
                    y as int,
                    player_char,
                ));
            }
            x = x + 1;
        }
        assert(row@.take(n as int) =~= row@);
        assert(board@.take(y as int + 1).drop_last() =~= board@.take(y as int));
        y = y + 1;
    }
    assert(board@.take(board@.len() as int) =~= board@);
    proof {
        assert forall|t: (usize, usize)|
            #![trigger out@.contains(t)]
            out@.contains(t) <==> (in_board(board@, t.0 as int, t.1 as int) && owns_symbol(
                player_char,
                cell(board@, t.0 as int, t.1 as int),
            )) by {
            lemma_territory_members(board@, player_char, t);
        }
    }
    out
}

/// The character of the other player: `'$'` for `'@'`, `'@'` for anything else.
pub fn opponent_char(player: char) -> (r: char)
    ensures
        r == opponent_of(player),
{
    if player == '@' {
        '$'
    } else {
        '@'
    }
}

/// Swapping sides twice gives back the player, for both player characters.
pub proof fn lemma_opponent_involutive(player: char)
    requires
        player == '@' || player == '$',
    ensures
        opponent_of(opponent_of(player)) == player,
        opponent_of(player) != player,
{
}

} // verus!
