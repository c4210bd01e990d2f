//! The text representation of boards and moves: a board renders as a
//! 19x19 grid of glyphs with row and column labels, and a move is read
//! from the token "pass" (case-insensitive) or a column letter followed
//! by a 1-based row number.

use vstd::prelude::*;
use vstd::string::StrSliceExecFns;
use vstd::string::StringExecFns;
use crate::board::{Board, Move, Position, Stone, SIZE, cell};

verus! {

/// The two glyph characters a cell renders as: a space, then `.` for
/// an empty cell, `*` for Black and `o` for White.
pub open spec fn glyph(c: Option<Stone>) -> Seq<char> {
    match c {
        None => " ."@,
        Some(Stone::Black) => " *"@,
        Some(Stone::White) => " o"@,
    }
}

/// The 1-based decimal label of row `y`.
pub open spec fn row_label(y: int) -> Seq<char> {
    if y == 0 {
        "1"@
    } else if y == 1 {
        "2"@
    } else if y == 2 {
        "3"@
    } else if y == 3 {
        "4"@
    } else if y == 4 {
        "5"@
    } else if y == 5 {
        "6"@
    } else if y == 6 {
        "7"@
    } else if y == 7 {
        "8"@
    } else if y == 8 {
        "9"@
    } else if y == 9 {
        "10"@
    } else if y == 10 {
        "11"@
    } else if y == 11 {
        "12"@
    } else if y == 12 {
        "13"@
    } else if y == 13 {
        "14"@
    } else if y == 14 {
        "15"@
    } else if y == 15 {
        "16"@
    } else if y == 16 {
        "17"@
    } else if y == 17 {
        "18"@
    } else {
        "19"@
    }
}

/// The footer label of column `x`: a space, then its letter.
pub open spec fn col_label(x: int) -> Seq<char> {
    if x == 0 {
        " A"@
    } else if x == 1 {
        " B"@
    } else if x == 2 {
        " C"@
    } else if x == 3 {
        " D"@
    } else if x == 4 {
        " E"@
    } else if x == 5 {
        " F"@
    } else if x == 6 {
        " G"@
    } else if x == 7 {
        " H"@
    } else if x == 8 {
        " I"@
    } else if x == 9 {
        " J"@
    } else if x == 10 {
        " K"@
    } else if x == 11 {
        " L"@
    } else if x == 12 {
        " M"@
    } else if x == 13 {
        " N"@
    } else if x == 14 {
        " O"@
    } else if x == 15 {
        " P"@
    } else if x == 16 {
        " Q"@
    } else if x == 17 {
        " R"@
    } else {
        " S"@
    }
}

/// The glyphs of the first `n` cells of row `y`, left to right.
pub open spec fn cells_text(v: Seq<Option<Stone>>, y: int, n: int) -> Seq<char>
    decreases n,
{
    if n <= 0 {
        Seq::empty()
    } else {
        cells_text(v, y, n - 1) + glyph(v[y * SIZE + (n - 1)])
    }
}

/// One rendered row: its cells, its label, a line break.
pub open spec fn row_text(v: Seq<Option<Stone>>, y: int) -> Seq<char> {
    cells_text(v, y, SIZE as int) + row_label(y) + "\n"@
}

/// The first `n` rendered rows.
pub open spec fn rows_text(v: Seq<Option<Stone>>, n: int) -> Seq<char>
    decreases n,
{
    if n <= 0 {
        Seq::empty()
    } else {
        rows_text(v, n - 1) + row_text(v, n - 1)
    }
}

/// The footer: the labels of the first `n` columns.
pub open spec fn cols_text(n: int) -> Seq<char>
    decreases n,
{
    if n <= 0 {
        Seq::empty()
    } else {
        cols_text(n - 1) + col_label(n - 1)
    }
}

/// The full rendering of a grid: every row, then the column footer.
pub open spec fn board_text(v: Seq<Option<Stone>>) -> Seq<char> {
    rows_text(v, SIZE as int) + cols_text(SIZE as int)
}

/// Append the decimal label of row `y`.
fn push_row_label(s: &mut String, y: usize)
    requires
        y < SIZE,
    ensures
        final(s)@ == old(s)@ + row_label(y as int),
{
    match y {
        0 => s.append("1"),
        1 => s.append("2"),
        2 => s.append("3"),
        3 => s.append("4"),
        4 => s.append("5"),
        5 => s.append("6"),
        6 => s.append("7"),
        7 => s.append("8"),
        8 => s.append("9"),
        9 => s.append("10"),
        10 => s.append("11"),
        11 => s.append("12"),
        12 => s.append("13"),
        13 => s.append("14"),
        14 => s.append("15"),
        15 => s.append("16"),
        16 => s.append("17"),
        17 => s.append("18"),
        _ => s.append("19"),
    }
}

/// Append the footer label of column `x`.
fn push_col_label(s: &mut String, x: usize)
    requires
        x < SIZE,
    ensures
        final(s)@ == old(s)@ + col_label(x as int),
{
    match x {
        0 => s.append(" A"),
        1 => s.append(" B"),
        2 => s.append(" C"),
        3 => s.append(" D"),
        4 => s.append(" E"),
        5 => s.append(" F"),
        6 => s.append(" G"),
        7 => s.append(" H"),
        8 => s.append(" I"),
        9 => s.append(" J"),
        10 => s.append(" K"),
        11 => s.append(" L"),
        12 => s.append(" M"),
        13 => s.append(" N"),
        14 => s.append(" O"),
        15 => s.append(" P"),
        16 => s.append(" Q"),
        17 => s.append(" R"),
        _ => s.append(" S"),
    }
}

/// Render a board as 19 labelled rows of glyphs over a column footer;
/// every possible board state renders to a distinct string.
#[verifier::loop_isolation(false)]
pub fn format_board(board: &Board) -> (s: String)
    requires
        board.wf(),
    ensures
        s@ == board_text(board@),
{
    let mut s = String::new();
    let mut y: usize = 0;
    while y < SIZE
        invariant
            y <= SIZE,
            s@ == rows_text(board@, y as int),
        decreases SIZE - y,
    {
        let mut x: usize = 0;
        while x < SIZE
            invariant
                x <= SIZE,
                y < SIZE,
                s@ == rows_text(board@, y as int) + cells_text(board@, y as int, x as int),
            decreases SIZE - x,
        {
            let ghost s0 = s@;
            match board.get(Position { x, y }) {
                None => s.append(" ."),
                Some(Stone::Black) => s.append(" *"),
                Some(Stone::White) => s.append(" o"),
            }
            proof {
                assert(cell(board@, Position { x, y }) == board@[y * SIZE + x]);
                assert(s@ =~= rows_text(board@, y as int) + cells_text(
                    board@,
                    y as int,
                    x as int + 1,
                ));
            }
            x = x + 1;
        }
        push_row_label(&mut s, y);
        s.append("\n");
        proof {
            assert(s@ =~= rows_text(board@, y as int + 1));
        }
        y = y + 1;
    }
    let mut x: usize = 0;
    while x < SIZE
        invariant
            x <= SIZE,
            s@ == rows_text(board@, SIZE as int) + cols_text(x as int),
        decreases SIZE - x,
    {
        push_col_label(&mut s, x);
        proof {
            assert(s@ =~= rows_text(board@, SIZE as int) + cols_text(x as int + 1));
        }
        x = x + 1;
    }
    s
}

/// An ASCII whitespace character; the reader strips these around a move.
pub open spec fn is_space(c: char) -> bool {
    c == ' ' || c == '\t' || c == '\n' || c == '\r'
}

/// `s` without its leading whitespace.
pub open spec fn trim_front(s: Seq<char>) -> Seq<char>
    decreases s.len(),
{
    if s.len() > 0 && is_space(s[0]) {
        trim_front(s.drop_first())
    } else {
        s
    }
}

/// `s` without its trailing whitespace.
pub open spec fn trim_back(s: Seq<char>) -> Seq<char>
    decreases s.len(),
{
    if s.len() > 0 && is_space(s.last()) {
        trim_back(s.drop_last())
    } else {
        s
    }
}

/// `s` without surrounding whitespace.
pub open spec fn trim_spec(s: Seq<char>) -> Seq<char> {
    trim_back(trim_front(s))
}

/// The token "pass", in any capitalisation.
pub open spec fn is_pass_token(t: Seq<char>) -> bool {
    t.len() == 4 && (t[0] == 'p' || t[0] == 'P') && (t[1] == 'a' || t[1] == 'A') && (t[2] == 's'
        || t[2] == 'S') && (t[3] == 's' || t[3] == 'S')
}

/// Zero-based index of a column letter A to Z in either case, or -1
/// for any other character.
pub open spec fn letter_index(c: char) -> int {
    match c {
        'A' | 'a' => 0,
        'B' | 'b' => 1,
        'C' | 'c' => 2,
        'D' | 'd' => 3,
        'E' | 'e' => 4,
        'F' | 'f' => 5,
        'G' | 'g' => 6,
        'H' | 'h' => 7,
        'I' | 'i' => 8,
        'J' | 'j' => 9,
        'K' | 'k' => 10,
        'L' | 'l' => 11,
        'M' | 'm' => 12,
        'N' | 'n' => 13,
        'O' | 'o' => 14,
        'P' | 'p' => 15,
        'Q' | 'q' => 16,
        'R' | 'r' => 17,
        'S' | 's' => 18,
        'T' | 't' => 19,
        'U' | 'u' => 20,
        'V' | 'v' => 21,
        'W' | 'w' => 22,
        'X' | 'x' => 23,
        'Y' | 'y' => 24,
        'Z' | 'z' => 25,
        _ => -1,
    }
}

/// Numeric value of a decimal digit, or -1.
pub open spec fn digit_value(c: char) -> int {
    match c {
        '0' => 0,
        '1' => 1,
        '2' => 2,
        '3' => 3,
        '4' => 4,
        '5' => 5,
        '6' => 6,
        '7' => 7,
        '8' => 8,
        '9' => 9,
        _ => -1,
    }
}

/// Zero-based row named by a decimal token "1" to "26", or -1.
pub open spec fn row_index(t: Seq<char>) -> int {
    if t.len() == 1 {
        if 1 <= digit_value(t[0]) {
            digit_value(t[0]) - 1
        } else {
            -1
        }
    } else if t.len() == 2 {
        if 1 <= digit_value(t[0]) && 0 <= digit_value(t[1]) && digit_value(t[0]) * 10
            + digit_value(t[1]) <= 26 {
            digit_value(t[0]) * 10 + digit_value(t[1]) - 1
        } else {
            -1
        }
    } else {
        -1
    }
}

/// Index of the first space in `t`, or -1 when there is none.
pub open spec fn find_space(t: Seq<char>) -> int
    decreases t.len(),
{
    if t.len() == 0 {
        -1
    } else if t[0] == ' ' {
        0
    } else if find_space(t.drop_first()) < 0 {
        -1
    } else {
        find_space(t.drop_first()) + 1
    }
}

/// What `parse_move` returns for an input: after trimming, either the
/// token "pass" (case-insensitive), or a single column letter and a
/// 1-based row number separated by exactly one space, mapped to a
/// zero-based position.  Anything else is rejected.
pub open spec fn parse_spec(s: Seq<char>) -> Result<Move, ()> {
    let t = trim_spec(s);
    if is_pass_token(t) {
        Result::Ok(Move::Pass)
    } else {
        let k = find_space(t);
        if k < 0 {
            Result::Err(())
        } else {
            let second = t.subrange(k + 1, t.len() as int);
            if find_space(second) >= 0 {
                Result::Err(())
            } else {
                let c = if k == 1 {
                    letter_index(t[0])
                } else {
                    -1
                };
                let r = row_index(second);
                if c >= 0 && r >= 0 {
                    Result::Ok(Move::Placement(Position { x: c as usize, y: r as usize }))
                } else {
                    Result::Err(())
                }
            }
        }
    }
}

proof fn lemma_trim_front_prefix(s: Seq<char>, i: int)
    requires
        0 <= i <= s.len(),
        forall|j: int| 0 <= j < i ==> is_space(s[j]),
        i == s.len() || !is_space(s[i]),
    ensures
        trim_front(s) == s.subrange(i, s.len() as int),
    decreases i,
{
    if i == 0 {
        assert(trim_front(s) =~= s.subrange(0, s.len() as int));
    } else {
        let d = s.drop_first();
        assert forall|j: int| 0 <= j < i - 1 implies is_space(d[j]) by {
            assert(d[j] == s[j + 1]);
        }
        lemma_trim_front_prefix(d, i - 1);
        assert(d.subrange(i - 1, d.len() as int) =~= s.subrange(i, s.len() as int));
    }
}

proof fn lemma_trim_back_suffix(s: Seq<char>, e: int)
    requires
        0 <= e <= s.len(),
        forall|j: int| e <= j < s.len() ==> is_space(s[j]),
        e == 0 || !is_space(s[e - 1]),
    ensures
        trim_back(s) == s.subrange(0, e),
    decreases s.len() - e,
{
    if e == s.len() {
        assert(trim_back(s) =~= s.subrange(0, e));
    } else {
        let d = s.drop_last();
        lemma_trim_back_suffix(d, e);
        assert(d.subrange(0, e) =~= s.subrange(0, e));
    }
}

proof fn lemma_find_space_none(t: Seq<char>)
    requires
        forall|j: int| 0 <= j < t.len() ==> t[j] != ' ',
    ensures
        find_space(t) == -1,
    decreases t.len(),
{
    if t.len() > 0 {
        let d = t.drop_first();
        assert forall|j: int| 0 <= j < d.len() implies d[j] != ' ' by {
            assert(d[j] == t[j + 1]);
        }
        lemma_find_space_none(d);
    }
}

proof fn lemma_find_space_at(t: Seq<char>, k: int)
    requires
        0 <= k < t.len(),
        t[k] == ' ',
        forall|j: int| 0 <= j < k ==> t[j] != ' ',
    ensures
        find_space(t) == k,
    decreases k,
{
    if k > 0 {
        let d = t.drop_first();
        assert forall|j: int| 0 <= j < k - 1 implies d[j] != ' ' by {
            assert(d[j] == t[j + 1]);
        }
        lemma_find_space_at(d, k - 1);
    }
}

/// Whitespace test for the trim scan.
fn is_space_char(c: char) -> (r: bool)
    ensures
        r == is_space(c),
{
    c == ' ' || c == '\t' || c == '\n' || c == '\r'
}

/// Column letter to its zero-based index.
fn letter_index_of(c: char) -> (r: Option<usize>)
    ensures
        r == (if letter_index(c) >= 0 {
            Some(letter_index(c) as usize)
        } else {
            None::<usize>
        }),
{
    match c {
        'A' | 'a' => Some(0),
        'B' | 'b' => Some(1),
        'C' | 'c' => Some(2),
        'D' | 'd' => Some(3),
        'E' | 'e' => Some(4),
        'F' | 'f' => Some(5),
        'G' | 'g' => Some(6),
        'H' | 'h' => Some(7),
        'I' | 'i' => Some(8),
        'J' | 'j' => Some(9),
        'K' | 'k' => Some(10),
        'L' | 'l' => Some(11),
        'M' | 'm' => Some(12),
        'N' | 'n' => Some(13),
        'O' | 'o' => Some(14),
        'P' | 'p' => Some(15),
        'Q' | 'q' => Some(16),
        'R' | 'r' => Some(17),
        'S' | 's' => Some(18),
        'T' | 't' => Some(19),
        'U' | 'u' => Some(20),
        'V' | 'v' => Some(21),
        'W' | 'w' => Some(22),
        'X' | 'x' => Some(23),
        'Y' | 'y' => Some(24),
        'Z' | 'z' => Some(25),
        _ => None,
    }
}

/// Decimal digit to its value.
fn digit_value_of(c: char) -> (r: Option<usize>)
    ensures
        r == (if digit_value(c) >= 0 {
            Some(digit_value(c) as usize)
        } else {
            None::<usize>
        }),
{
    match c {
        '0' => Some(0),
        '1' => Some(1),
        '2' => Some(2),
        '3' => Some(3),
        '4' => Some(4),
        '5' => Some(5),
        '6' => Some(6),
        '7' => Some(7),
        '8' => Some(8),
        '9' => Some(9),
        _ => None,
    }
}

/// Read a move from a line of console input, as `parse_spec` says:
/// "pass" in any capitalisation, or a column letter and a 1-based row
/// number ("j 10"), surrounded by optional whitespace.
#[verifier::loop_isolation(false)]
pub fn parse_move(input: String) -> (r: Result<Move, ()>)
    ensures
        r == parse_spec(input@),
{
    let s = input.as_str();
    let n = s.unicode_len();
    let mut start: usize = 0;
    while start < n && is_space_char(s.get_char(start))
        invariant
            start <= n,
            forall|j: int| 0 <= j < start ==> is_space(s@[j]),
        decreases n - start,
    {
        start = start + 1;
    }
    let mut end: usize = n;
    while end > start && is_space_char(s.get_char(end - 1))
        invariant
            start <= end <= n,
            forall|j: int| end <= j < n ==> is_space(s@[j]),
        decreases end,
    {
        end = end - 1;
    }
    proof {
        lemma_trim_front_prefix(s@, start as int);
        let sub = s@.subrange(start as int, n as int);
        assert forall|j: int| end - start <= j < sub.len() implies is_space(sub[j]) by {
            assert(sub[j] == s@[start + j]);
        }
        lemma_trim_back_suffix(sub, end - start);
        assert(trim_spec(s@) =~= s@.subrange(start as int, end as int));
    }
    let ghost t = trim_spec(s@);
    let len = end - start;
    if len == 4 {
        let c0 = s.get_char(start);
        let c1 = s.get_char(start + 1);
        let c2 = s.get_char(start + 2);
        let c3 = s.get_char(start + 3);
        if (c0 == 'p' || c0 == 'P') && (c1 == 'a' || c1 == 'A') && (c2 == 's' || c2 == 'S') && (
        c3 == 's' || c3 == 'S') {
            proof {
                assert(is_pass_token(t));
            }
            return Result::Ok(Move::Pass);
        }
        proof {
            assert(!is_pass_token(t));
        }
    }
    let mut k: usize = start;
    while k < end && s.get_char(k) != ' '
        invariant
            start <= k <= end,
            forall|j: int| start <= j < k ==> s@[j] != ' ',
        decreases end - k,
    {
        k = k + 1;
    }
    if k == end {
        proof {
            assert forall|j: int| 0 <= j < t.len() implies t[j] != ' ' by {
                assert(t[j] == s@[start + j]);
            }
            lemma_find_space_none(t);
        }
        return Result::Err(());
    }
    proof {
        assert forall|j: int| 0 <= j < k - start implies t[j] != ' ' by {
            assert(t[j] == s@[start + j]);
        }
        assert(t[k - start] == s@[k as int]);
        lemma_find_space_at(t, k - start);
    }
    let mut k2: usize = k + 1;
    while k2 < end && s.get_char(k2) != ' '
        invariant
            k + 1 <= k2 <= end,
            forall|j: int| k + 1 <= j < k2 ==> s@[j] != ' ',
        decreases end - k2,
    {
        k2 = k2 + 1;
    }
    let ghost second = t.subrange(k - start + 1, t.len() as int);
    if k2 < end {
        proof {
            assert forall|j: int| 0 <= j < k2 - k - 1 implies second[j] != ' ' by {
                assert(second[j] == s@[k + 1 + j]);
            }
            assert(second[k2 - k - 1] == s@[k2 as int]);
            lemma_find_space_at(second, k2 - k - 1);
        }
        return Result::Err(());
    }
    proof {
        assert forall|j: int| 0 <= j < second.len() implies second[j] != ' ' by {
            assert(second[j] == s@[k + 1 + j]);
        }
        lemma_find_space_none(second);
    }
    if k - start != 1 {
        return Result::Err(());
    }
    proof {
        assert(t[0] == s@[start as int]);
    }
    let col = match letter_index_of(s.get_char(start)) {
        Some(c) => c,
        None => {
            return Result::Err(());
        },
    };
    let rl = end - (k + 1);
    proof {
        assert(second.len() == rl);
        if rl >= 1 {
            assert(second[0] == s@[k + 1]);
        }
        if rl >= 2 {
            assert(second[1] == s@[k + 2]);
        }
    }
    if rl == 1 {
        let d = match digit_value_of(s.get_char(k + 1)) {
            Some(d) => d,
            None => {
                return Result::Err(());
            },
        };
        if d >= 1 {
            return Result::Ok(Move::Placement(Position { x: col, y: d - 1 }));
        }
        return Result::Err(());
    }
    if rl == 2 {
        let d0 = match digit_value_of(s.get_char(k + 1)) {
            Some(d) => d,
            None => {
                return Result::Err(());
            },
        };
        let d1 = match digit_value_of(s.get_char(k + 2)) {
            Some(d) => d,
            None => {
                return Result::Err(());
            },
        };
        if d0 >= 1 && d0 * 10 + d1 <= 26 {
            return Result::Ok(Move::Placement(Position { x: col, y: d0 * 10 + d1 - 1 }));
        }
        return Result::Err(());
    }
    Result::Err(())
}

} // verus!
