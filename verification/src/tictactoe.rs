//! Tic-tac-toe referee: deciding the winner of a board and applying moves.

use vstd::prelude::*;
use crate::seqs::{lemma_split_first, lemma_trim_bounds, split_by, trim_by};
use crate::text::chars_of;

verus! {

/// The mark of the first player.
pub const MARK_X: u8 = 120;

/// The mark of the second player.
pub const MARK_O: u8 = 111;

/// Number of cells of `row` that hold `mark`.
pub open spec fn count_mark(row: Seq<u8>, mark: u8) -> nat
    decreases row.len(),
{
    if row.len() == 0 {
        0
    } else {
        count_mark(row.drop_last(), mark) + if row.last() == mark { 1nat } else { 0nat }
    }
}

/// Every cell of the row holds `mark`.
pub open spec fn row_filled_by(row: [u8; 3], mark: u8) -> bool {
    forall|j: int| 0 <= j < 3 ==> #[trigger] row@[j] == mark
}

/// The winner read off the rows in order: the first row completely held by
/// one player decides.
pub open spec fn first_row_winner(rows: Seq<[u8; 3]>) -> Option<u8>
    decreases rows.len(),
{
    if rows.len() == 0 {
        None
    } else if row_filled_by(rows[0], MARK_X) {
        Some(MARK_X)
    } else if row_filled_by(rows[0], MARK_O) {
        Some(MARK_O)
    } else {
        first_row_winner(rows.drop_first())
    }
}

proof fn lemma_count_three(row: [u8; 3], mark: u8)
    ensures
        count_mark(row@, mark) == 3 <==> row_filled_by(row, mark),
{
    reveal_with_fuel(count_mark, 4);
    assert(row@.drop_last().drop_last().drop_last() =~= Seq::<u8>::empty());
    assert(row@.drop_last().drop_last().last() == row@[0]);
    assert(row@.drop_last().last() == row@[1]);
    assert(row@.last() == row@[2]);
}

/// Decides whether some row of the board is held entirely by one player.
/// Only rows are examined; the first such row, in order, gives the winner.
pub fn check_for_win(game: &[[u8; 3]]) -> (winner: Option<u8>)
    ensures
        winner == first_row_winner(game@),
{
    let mut i: usize = 0;
    assert(game@.skip(0) =~= game@);
    while i < game.len()
        invariant
            0 <= i <= game@.len(),
            first_row_winner(game@) == first_row_winner(game@.skip(i as int)),
        decreases game@.len() - i,
    {
        let row: [u8; 3] = game[i];
        let mut count: [i32; 2] = [0, 0];
        let mut j: usize = 0;
        while j < 3
            invariant
                0 <= j <= 3,
                i < game@.len(),
                row == game@[i as int],
                0 <= count@[0] <= j,
                0 <= count@[1] <= j,
                count@[0] == count_mark(row@.take(j as int), MARK_X),
                count@[1] == count_mark(row@.take(j as int), MARK_O),
            decreases 3 - j,
        {
            let ch: u8 = row[j];
            assert(row@.take(j + 1).drop_last() =~= row@.take(j as int));
            if ch == MARK_X {
                count[0] = count[0] + 1;
            }
            if ch == MARK_O {
                count[1] = count[1] + 1;
            }
            j = j + 1;
        }
        assert(row@.take(3) =~= row@);
        proof {
            lemma_count_three(row, MARK_X);
            lemma_count_three(row, MARK_O);
            assert(game@.skip(i as int)[0] == row);
            assert(game@.skip(i as int).drop_first() =~= game@.skip(i + 1));
        }
        if count[0] == 3 {
            return Some(MARK_X);
        } else if count[1] == 3 {
            return Some(MARK_O);
        }
        i = i + 1;
    }
    None
}

/// The winner of a board is one of the two players, and owns a whole row;
/// there is no winner exactly when no row is held entirely by one player.
pub proof fn lemma_winner_owns_a_row(rows: Seq<[u8; 3]>)
    ensures
        first_row_winner(rows) matches Some(p) ==> {
            &&& (p == MARK_X || p == MARK_O)
            &&& exists|i: int| 0 <= i < rows.len() && row_filled_by(#[trigger] rows[i], p)
        },
        first_row_winner(rows) is None <==> forall|i: int|
            0 <= i < rows.len() ==> !row_filled_by(#[trigger] rows[i], MARK_X) && !row_filled_by(
                rows[i],
                MARK_O,
            ),
    decreases rows.len(),
{
    if rows.len() > 0 {
        let rest = rows.drop_first();
        lemma_winner_owns_a_row(rest);
        assert forall|i: int| 0 < i < rows.len() implies #[trigger] rows[i] == rest[i - 1] by {}
        if let Some(p) = first_row_winner(rows) {
            if !row_filled_by(rows[0], MARK_X) && !row_filled_by(rows[0], MARK_O) {
                let k = choose|k: int| 0 <= k < rest.len() && row_filled_by(#[trigger] rest[k], p);
                assert(rows[k + 1] == rest[k]);
            }
        }
    }
}

/// Every cell of the row, at positions 0, 1 and 2, holds `mark`.
pub open spec fn three_in_row(row: [u8; 3], mark: u8) -> bool {
    row@[0] == mark && row@[1] == mark && row@[2] == mark
}

/// The board is won by `p` exactly when `p` is a player's mark, some row
/// holds `p` in all three cells, and no earlier row is all `x` or all `o`;
/// there is no winner exactly when no row is all `x` or all `o`.
pub proof fn lemma_winner_is_first_full_row(rows: Seq<[u8; 3]>)
    ensures
        first_row_winner(rows) matches Some(p) ==> {
            &&& (p == 120u8 || p == 111u8)
            &&& exists|i: int|
                0 <= i < rows.len() && #[trigger] three_in_row(rows[i], p) && forall|j: int|
                    0 <= j < i ==> !three_in_row(#[trigger] rows[j], 120u8) && !three_in_row(
                        rows[j],
                        111u8,
                    )
        },
        first_row_winner(rows) is None <==> forall|i: int|
            0 <= i < rows.len() ==> !three_in_row(#[trigger] rows[i], 120u8) && !three_in_row(
                rows[i],
                111u8,
            ),
    decreases rows.len(),
{
    if rows.len() > 0 {
        let rest = rows.drop_first();
        lemma_winner_is_first_full_row(rest);
        assert forall|i: int| 0 < i < rows.len() implies #[trigger] rows[i] == rest[i - 1] by {}
        assert forall|m: u8| #[trigger] row_filled_by(rows[0], m) == three_in_row(rows[0], m) by {
            if three_in_row(rows[0], m) {
                assert forall|j: int| 0 <= j < 3 implies #[trigger] rows[0]@[j] == m by {
                    if j == 0 {
                    } else if j == 1 {
                    } else {
                    }
                }
            }
        }
        assert(row_filled_by(rows[0], MARK_X) == three_in_row(rows[0], 120u8));
        assert(row_filled_by(rows[0], MARK_O) == three_in_row(rows[0], 111u8));
        if let Some(p) = first_row_winner(rows) {
            if !three_in_row(rows[0], 120u8) && !three_in_row(rows[0], 111u8) {
                let k = choose|k: int|
                    0 <= k < rest.len() && #[trigger] three_in_row(rest[k], p) && forall|j: int|
                        0 <= j < k ==> !three_in_row(#[trigger] rest[j], 120u8) && !three_in_row(
                            rest[j],
                            111u8,
                        );
                assert(three_in_row(rows[k + 1], p));
                assert forall|j: int| 0 <= j < k + 1 implies !three_in_row(#[trigger] rows[j], 120u8)
                    && !three_in_row(rows[j], 111u8) by {
                    if j > 0 {
                        assert(rows[j] == rest[j - 1]);
                    }
                }
            } else {
                assert(three_in_row(rows[0], p));
            }
        }
        if forall|i: int| 0 <= i < rows.len() ==> !three_in_row(#[trigger] rows[i], 120u8)
            && !three_in_row(rows[i], 111u8) {
            assert forall|i: int| 0 <= i < rest.len() implies !three_in_row(#[trigger] rest[i], 120u8)
                && !three_in_row(rest[i], 111u8) by {
                assert(rest[i] == rows[i + 1]);
            }
        }
    }
}

/// The mark placed on turn `turn`: the first player moves on even turns.
pub fn mark_for_turn(turn: u64) -> (mark: u8)
    ensures
        mark == if turn % 2 == 0 { MARK_X } else { MARK_O },
{
    match turn % 2 {
        0 => MARK_X,
        1 => MARK_O,
        _ => 46,
    }
}

/// Consecutive turns belong to different players.
pub proof fn lemma_turns_alternate(turn: u64)
    requires
        turn < u64::MAX,
    ensures
        (if turn % 2 == 0 { MARK_X } else { MARK_O }) != (if (turn + 1) % 2 == 0 {
            MARK_X
        } else {
            MARK_O
        }),
{
}

/// Writes the mark of turn `turn` into cell (`row`, `col`), whatever it held.
pub fn place_mark(game: &mut [[u8; 3]; 3], row: usize, col: usize, turn: u64)
    requires
        row < 3,
        col < 3,
    ensures
        forall|i: int, j: int|
            0 <= i < 3 && 0 <= j < 3 ==> #[trigger] final(game)@[i]@[j] == if i == row && j == col {
                if turn % 2 == 0 { MARK_X } else { MARK_O }
            } else {
                old(game)@[i]@[j]
            },
{
    let mark = mark_for_turn(turn);
    let mut line: [u8; 3] = game[row];
    line[col] = mark;
    game[row] = line;
}

/// Unicode `White_Space` characters, the ones that trimming a line removes.
pub open spec fn is_white_space(c: char) -> bool {
    let u = c as u32;
    ||| 9 <= u <= 13
    ||| u == 32
    ||| u == 0x85
    ||| u == 0xA0
    ||| u == 0x1680
    ||| 0x2000 <= u <= 0x200A
    ||| u == 0x2028
    ||| u == 0x2029
    ||| u == 0x202F
    ||| u == 0x205F
    ||| u == 0x3000
}

/// The line with white space removed at both ends.
pub open spec fn trim_line(s: Seq<char>) -> Seq<char> {
    trim_by(s, |c: char| is_white_space(c))
}

pub open spec fn is_digit(c: char) -> bool {
    '0' <= c <= '9'
}

/// A non-empty run of decimal digits.
pub open spec fn is_digits(s: Seq<char>) -> bool {
    s.len() > 0 && forall|k: int| 0 <= k < s.len() ==> is_digit(#[trigger] s[k])
}

/// The number written by a run of decimal digits.
pub open spec fn digits_value(s: Seq<char>) -> int
    decreases s.len(),
{
    if s.len() == 0 {
        0
    } else {
        10 * digits_value(s.drop_last()) + (s.last() as int - '0' as int)
    }
}

/// Text of an unsigned decimal number: an optional `+`, then digits.
pub open spec fn is_unsigned_text(s: Seq<char>) -> bool {
    is_digits(s) || (s.len() > 0 && s[0] == '+' && is_digits(s.drop_first()))
}

/// The number written by an unsigned decimal text.
pub open spec fn unsigned_text_value(s: Seq<char>) -> int {
    if s.len() > 0 && s[0] == '+' {
        digits_value(s.drop_first())
    } else {
        digits_value(s)
    }
}

/// A board coordinate as typed by a player, counting from one: the
/// zero-based index it names.
pub open spec fn coordinate_of(s: Seq<char>) -> Option<usize> {
    if is_unsigned_text(s) && 1 <= unsigned_text_value(s) <= 3 {
        Some((unsigned_text_value(s) - 1) as usize)
    } else {
        None
    }
}

/// The cell named by a move line: the trimmed line split at single spaces,
/// its first two pieces giving row and column.
pub open spec fn move_of(line: Seq<char>) -> Option<(usize, usize)> {
    let parts = split_by(trim_line(line), ' ');
    if parts.len() >= 2 {
        match (coordinate_of(parts[0]), coordinate_of(parts[1])) {
            (Some(r), Some(c)) => Some((r, c)),
            _ => None,
        }
    } else {
        None
    }
}

/// A parsed move always names a cell of the board.
pub proof fn lemma_move_on_board(line: Seq<char>)
    ensures
        move_of(line) matches Some((r, c)) ==> r < 3 && c < 3,
{
}

fn is_white_space_char(c: char) -> (b: bool)
    ensures
        b == is_white_space(c),
{
    let u = c as u32;
    (9 <= u && u <= 13) || u == 32 || u == 0x85 || u == 0xA0 || u == 0x1680 || (0x2000 <= u && u
        <= 0x200A) || u == 0x2028 || u == 0x2029 || u == 0x202F || u == 0x205F || u == 0x3000
}

proof fn lemma_digits_value_nonneg(s: Seq<char>)
    requires
        forall|k: int| 0 <= k < s.len() ==> is_digit(#[trigger] s[k]),
    ensures
        digits_value(s) >= 0,
    decreases s.len(),
{
    if s.len() > 0 {
        let t = s.drop_last();
        assert forall|k: int| 0 <= k < t.len() implies is_digit(#[trigger] t[k]) by {
            assert(t[k] == s[k]);
        }
        lemma_digits_value_nonneg(t);
    }
}

/// The coordinate written in `s[lo..hi]`.
fn coordinate_in(s: &Vec<char>, lo: usize, hi: usize) -> (res: Option<usize>)
    requires
        lo <= hi <= s@.len(),
    ensures
        res == coordinate_of(s@.subrange(lo as int, hi as int)),
{
    let ghost t = s@.subrange(lo as int, hi as int);
    let mut start = lo;
    if lo < hi && s[lo] == '+' {
        start = lo + 1;
    }
    let ghost d = s@.subrange(start as int, hi as int);
    proof {
        if start > lo {
            assert(t.drop_first() =~= d);
        } else {
            assert(t =~= d);
        }
    }
    if start == hi {
        return None;
    }
    // the value of the digits read so far, or 4 once it exceeds 3
    let mut capped: usize = 0;
    let mut k = start;
    while k < hi
        invariant
            lo <= start <= k <= hi <= s@.len(),
            d == s@.subrange(start as int, hi as int),
            t == s@.subrange(lo as int, hi as int),
            start > lo ==> start == lo + 1 && s@[lo as int] == '+',
            start == lo ==> !(lo < hi && s@[lo as int] == '+'),
            forall|m: int| start <= m < k ==> is_digit(#[trigger] s@[m]),
            capped <= 4,
            capped < 4 ==> capped == digits_value(s@.subrange(start as int, k as int)),
            capped == 4 ==> digits_value(s@.subrange(start as int, k as int)) >= 4,
        decreases hi - k,
    {
        let c = s[k];
        if !('0' <= c && c <= '9') {
            proof {
                assert(!is_digit(d[k - start]));
                if start > lo {
                    assert(t[0] == s@[lo as int]);
                    assert(t.drop_first() =~= d);
                } else {
                    assert(t =~= d);
                }
            }
            return None;
        }
        let ghost prev = s@.subrange(start as int, k as int);
        let ghost next = s@.subrange(start as int, k + 1);
        assert(next.drop_last() =~= prev);
        assert(next.last() == c);
        proof {
            lemma_digits_value_nonneg(prev);
        }
        let digit = (c as u32 - '0' as u32) as usize;
        if capped < 4 {
            let v = capped * 10 + digit;
            capped = if v > 3 { 4 } else { v };
        }
        k = k + 1;
    }
    assert(d =~= s@.subrange(start as int, k as int));
    assert(is_digits(d));
    if capped >= 1 && capped <= 3 {
        Some(capped - 1)
    } else {
        None
    }
}

/// The zero-based cell (row, column) named by a line typed by a player, or
/// `None` where the line names no cell of the board.
pub fn parse_move(line: &str) -> (res: Option<(usize, usize)>)
    ensures
        res == move_of(line@),
{
    let cs = chars_of(line);
    let n = cs.len();
    let ghost p = |c: char| is_white_space(c);
    let mut i: usize = 0;
    while i < n && is_white_space_char(cs[i])
        invariant
            i <= n == cs@.len(),
            forall|k: int| 0 <= k < i ==> is_white_space(#[trigger] cs@[k]),
        decreases n - i,
    {
        i = i + 1;
    }
    let mut j: usize = n;
    while j > i && is_white_space_char(cs[j - 1])
        invariant
            i <= j <= n == cs@.len(),
            forall|k: int| j <= k < n ==> is_white_space(#[trigger] cs@[k]),
        decreases j,
    {
        j = j - 1;
    }
    let ghost t = cs@.subrange(i as int, j as int);
    proof {
        lemma_trim_bounds(cs@, p, i as int, j as int);
        assert(trim_line(line@) == t);
    }
    // the first space of the trimmed line
    let mut a = i;
    while a < j && cs[a] != ' '
        invariant
            i <= a <= j <= n == cs@.len(),
            forall|k: int| i <= k < a ==> #[trigger] cs@[k] != ' ',
        decreases j - a,
    {
        a = a + 1;
    }
    proof {
        assert forall|k: int| 0 <= k < a - i implies #[trigger] t[k] != ' ' by {
            assert(t[k] == cs@[k + i]);
        }
        lemma_split_first(t, ' ', a - i);
        assert(t.take(a - i) =~= cs@.subrange(i as int, a as int));
    }
    if a == j {
        return None;
    }
    // the end of the second piece
    let mut b = a + 1;
    while b < j && cs[b] != ' '
        invariant
            a < b <= j <= n == cs@.len(),
            forall|k: int| a < k < b ==> #[trigger] cs@[k] != ' ',
        decreases j - b,
    {
        b = b + 1;
    }
    let ghost u = t.skip(a - i + 1);
    proof {
        assert forall|k: int| 0 <= k < b - a - 1 implies #[trigger] u[k] != ' ' by {
            assert(u[k] == cs@[k + a + 1]);
        }
        if b < j {
            assert(u[b - a - 1] == cs@[b as int]);
        }
        lemma_split_first(u, ' ', b - a - 1);
        assert(u.take(b - a - 1) =~= cs@.subrange(a + 1, b as int));
        let parts = split_by(t, ' ');
        assert(parts[1] == parts.drop_first()[0]);
    }
    let row = coordinate_in(&cs, i, a);
    let col = coordinate_in(&cs, a + 1, b);
    match (row, col) {
        (Some(r), Some(c)) => Some((r, c)),
        _ => None,
    }
}

} // verus!
