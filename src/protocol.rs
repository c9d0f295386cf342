//! The values that the turn protocol's text lines carry: the sizes in the
//! `Anfield` and `Piece` headers, and the board rows behind their labels.
use vstd::prelude::*;
use crate::distance::UNREACHABLE;
use crate::grid::is_rect;

verus! {

pub open spec fn is_digit(c: char) -> bool {
    '0' <= c && c <= '9'
}

pub open spec fn all_digits(s: Seq<char>) -> bool {
    forall|i: int| 0 <= i < s.len() ==> is_digit(#[trigger] s[i])
}

/// The number that the decimal digits `s` write.
pub open spec fn digits_value(s: Seq<char>) -> int
    decreases s.len(),
{
    if s.len() == 0 {
        0
    } else {
        digits_value(s.drop_last()) * 10 + (s.last() as u32 - '0' as u32)
    }
}

/// `s` without the one `'+'` that may lead it.
pub open spec fn unsigned_digits(s: Seq<char>) -> Seq<char> {
    if s.len() > 0 && s[0] == '+' {
        s.subrange(1, s.len() as int)
    } else {
        s
    }
}

/// The count that a header field reads as: its decimal value when it is a
/// number that fits in `usize`, otherwise 0.
pub open spec fn count_value(s: Seq<char>) -> int {
    let d = unsigned_digits(s);
    if d.len() > 0 && all_digits(d) && digits_value(d) <= usize::MAX {
        digits_value(d)
    } else {
        0
    }
}

/// `s` without the colons that end it.
pub open spec fn without_trailing_colons(s: Seq<char>) -> Seq<char>
    decreases s.len(),
{
    if s.len() > 0 && s.last() == ':' {
        without_trailing_colons(s.drop_last())
    } else {
        s
    }
}

proof fn lemma_digits_grow(s: Seq<char>, k: int)
    requires
        all_digits(s),
        0 <= k <= s.len(),
    ensures
        digits_value(s) >= digits_value(s.take(k)),
        digits_value(s.take(k)) >= 0,
    decreases s.len(),
{
    if k < s.len() {
        let d = s.drop_last();
        assert(all_digits(d)) by {
            assert forall|i: int| 0 <= i < d.len() implies is_digit(#[trigger] d[i]) by {
                assert(d[i] == s[i]);
            }
        }
        lemma_digits_grow(d, k);
        assert(d.take(k) =~= s.take(k));
        assert(is_digit(s[s.len() - 1]));
    } else {
        assert(s.take(k) =~= s);
        if s.len() > 0 {
            let d = s.drop_last();
            assert(all_digits(d)) by {
                assert forall|i: int| 0 <= i < d.len() implies is_digit(#[trigger] d[i]) by {
                    assert(d[i] == s[i]);
                }
            }
            lemma_digits_grow(d, d.len() as int);
            assert(d.take(d.len() as int) =~= d);
            assert(is_digit(s[s.len() - 1]));
        }
    }
}

/// Reads a header field as a count: its decimal value, after one optional
/// `'+'`, or 0 when it is not a number or does not fit in `usize`.
pub fn parse_count(token: &str) -> (r: usize)
    ensures
        r as int == count_value(token@),
{
    let n: usize = token.unicode_len();
    let mut start: usize = 0;
    if n > 0 && token.get_char(0) == '+' {
        start = 1;
    }
    let ghost d = unsigned_digits(token@);
    assert(d =~= token@.subrange(start as int, n as int));
    if start >= n {
        return 0;
    }
    let mut value: usize = 0;
    let mut i: usize = start;
    while i < n
        invariant
            n == token@.len(),
            d == token@.subrange(start as int, n as int),
            d == unsigned_digits(token@),
            start <= i <= n,
            start < n,
            all_digits(d.take(i - start)),
            value as int == digits_value(d.take(i - start)),
        decreases n - i,
    {
        let c: char = token.get_char(i);
        let ghost k = i - start;
        assert(d[k] == c);
        if !('0' <= c && c <= '9') {
            assert(!all_digits(d));
            return 0;
        }
        let digit: usize = (c as u32 - '0' as u32) as usize;
        assert(d.take(k + 1).drop_last() =~= d.take(k));
        assert(all_digits(d.take(k + 1))) by {
            assert forall|j: int| 0 <= j < k + 1 implies is_digit(#[trigger] d.take(k + 1)[j]) by {
                if j < k {
                    assert(d.take(k + 1)[j] == d.take(k)[j]);
                }
            }
        }
        let next: Option<usize> = match value.checked_mul(10) {
            Some(m) => m.checked_add(digit),
            None => None,
        };
        match next {
            Some(v) => {
                value = v;
            },
            None => {
                proof {
                    if all_digits(d) {
                        lemma_digits_grow(d, k + 1);
                    }
                }
                return 0;
            },
        }
        i = i + 1;
    }
    assert(d.take(n - start) =~= d);
    value
}

/// The field without the colons that end it (`"15:"` reads as `"15"`).
pub fn trim_colons(token: &str) -> (r: &str)
    ensures
        r@ == without_trailing_colons(token@),
{
    let mut end: usize = token.unicode_len();
    assert(token@.take(end as int) =~= token@);
    while end > 0 && token.get_char(end - 1) == ':'
        invariant
            end <= token@.len(),
            without_trailing_colons(token@.take(end as int)) == without_trailing_colons(token@),
        decreases end,
    {
        assert(token@.take(end as int).drop_last() =~= token@.take(end as int - 1));
        end = end - 1;
    }
    assert(without_trailing_colons(token@.take(end as int)) == token@.take(end as int));
    token.substring_char(0, end)
}

/// Reads the `Anfield` or `Piece` header fields that give the width and
/// the height; a colon may end the height.
pub fn header_dims(width_field: &str, height_field: &str) -> (r: (usize, usize))
    ensures
        r.0 as int == count_value(width_field@),
        r.1 as int == count_value(without_trailing_colons(height_field@)),
{
    (parse_count(width_field), parse_count(trim_colons(height_field)))
}

/// The board symbols of a board line: what follows its four-character
/// label, or `None` when the line is shorter than the label.
pub fn board_row(line: &str) -> (r: Option<String>)
    ensures
        line@.len() < 4 ==> r is None,
        line@.len() >= 4 ==> (r matches Some(s) && s@ == line@.subrange(4, line@.len() as int)),
{
    let n: usize = line.unicode_len();
    if n < 4 {
        None
    } else {
        Some(line.substring_char(4, n).to_owned())
    }
}

/// Whether the board read for a turn can be searched: as many rows as the
/// header gave, each as wide as it gave, and small enough for distances to
/// fit in an `i32`.
pub fn board_matches(board: &[String], board_w: usize, board_h: usize) -> (r: bool)
    ensures
        r == (board@.len() == board_h && is_rect(board@, board_w as int) && board_h + board_w
            < UNREACHABLE),
{
    if board.len() != board_h || board_h >= UNREACHABLE as usize || board_w >= UNREACHABLE as usize - board_h {
        return false;
    }
    let mut y: usize = 0;
    while y < board.len()
        invariant
            y <= board@.len(),
            forall|j: int| 0 <= j < y ==> #[trigger] board@[j]@.len() == board_w,
        decreases board@.len() - y,
    {
        if board[y].as_str().unicode_len() != board_w {
            return false;
        }
        y = y + 1;
    }
    true
}

} // verus!
