//! Writing a board as text, in the format `from_str` reads.
use vstd::prelude::*;

use crate::board::{Board, BoardView};
use crate::direction::{Direction, direction_letter};
use crate::moves::{Move, MoveLite};
use crate::parse::{
    all_digits, body, board_cells, cell_char_ok, cells_of, decimal_value, digit_value, first_bad,
    first_line, first_newline, input_ok, is_digit, last_digit, last_goal, lemma_first_bad,
    lemma_first_newline, parse_number, parsed_view,
};
use crate::position::Position;

verus! {

/// The character of decimal digit `d`.
pub open spec fn digit_char(d: int) -> char {
    (d + 48) as char
}

/// The decimal digits of `v`, most significant first.
pub open spec fn decimal(v: nat) -> Seq<char>
    decreases v,
{
    if v < 10 {
        seq![digit_char(v as int)]
    } else {
        decimal(v / 10).push(digit_char((v % 10) as int))
    }
}

/// The first robot at or after `from` that stands on `idx`, or -1.
pub open spec fn first_robot_from(robots: Seq<int>, idx: int, from: int) -> int
    decreases robots.len() - from,
{
    if from < 0 || from >= robots.len() {
        -1
    } else if robots[from] == idx {
        from
    } else {
        first_robot_from(robots, idx, from + 1)
    }
}

/// How cell `idx` is written: `#` for a wall, the number of the first robot
/// on it, `G` for the goal, a space otherwise.
pub open spec fn cell_text(v: BoardView, idx: int) -> Seq<char> {
    if v.walls[idx] {
        seq!['#']
    } else if first_robot_from(v.robots, idx, 0) >= 0 {
        decimal(first_robot_from(v.robots, idx, 0) as nat)
    } else if idx == v.goal {
        seq!['G']
    } else {
        seq![' ']
    }
}

/// The first `k` cells written row by row, each row of `size` cells (the
/// last one possibly shorter) ended by a line break.
pub open spec fn cells_text(v: BoardView, k: int) -> Seq<char>
    decreases k,
{
    if k <= 0 {
        Seq::empty()
    } else {
        let line_end = if k % v.size == 0 || k == v.walls.len() {
            seq!['\n']
        } else {
            Seq::empty()
        };
        cells_text(v, k - 1) + cell_text(v, k - 1) + line_end
    }
}

/// The whole text: the width, the number of robots, then the rows.
pub open spec fn board_text(v: BoardView) -> Seq<char> {
    decimal(v.size as nat) + seq!['\n'] + decimal(v.robots.len()) + seq!['\n'] + cells_text(
        v,
        v.walls.len() as int,
    )
}

/// The character of a decimal digit.
fn digit_of(d: u64) -> (r: char)
    requires
        d < 10,
    ensures
        r == digit_char(d as int),
{
    let b: u8 = 48u8 + d as u8;
    b as char
}

/// The decimal digits of `v`.
pub fn decimal_chars(v: u64) -> (r: Vec<char>)
    ensures
        r@ == decimal(v as nat),
    decreases v,
{
    if v < 10 {
        let mut r: Vec<char> = Vec::new();
        r.push(digit_of(v));
        r
    } else {
        let mut r = decimal_chars(v / 10);
        r.push(digit_of(v % 10));
        r
    }
}

/// Collects characters into a `String`, with std's `FromIterator`.
#[verifier::external_body]
pub(crate) fn string_from_chars(chars: &Vec<char>) -> (r: String)
    ensures
        r@ == chars@,
{
    chars.iter().collect()
}

proof fn lemma_first_robot_from(robots: Seq<int>, idx: int, from: int)
    requires
        0 <= from <= robots.len(),
    ensures
        first_robot_from(robots, idx, from) == -1 || (from <= first_robot_from(robots, idx, from)
            < robots.len() && robots[first_robot_from(robots, idx, from)] == idx),
        forall|j: int| from <= j < robots.len() && j < first_robot_from(robots, idx, from) ==> robots[j] != idx,
        first_robot_from(robots, idx, from) == -1 ==> forall|j: int| from <= j < robots.len() ==> robots[j] != idx,
    decreases robots.len() - from,
{
    if from < robots.len() && robots[from] != idx {
        lemma_first_robot_from(robots, idx, from + 1);
    }
}

impl<P: Position> Board<bool, P> {
    /// Writes the board as text: the width and the number of robots on
    /// lines of their own, then the cells row by row.
    pub fn to_text(&self) -> (r: String)
        requires
            self@.size >= 1,
            self.cells() == self@.walls,
        ensures
            r@ == board_text(self@),
    {
        let ghost v = self@;
        let n = self.size().to_usize();
        let len = self.len();
        let robots = self.robots();
        let count = robots.len();
        let goal = self.goal().to_usize();
        let mut out: Vec<char> = decimal_chars(n as u64);
        out.push('\n');
        let mut count_digits = decimal_chars(count as u64);
        out.append(&mut count_digits);
        out.push('\n');
        proof {
            assert(out@ =~= decimal(v.size as nat) + seq!['\n'] + decimal(v.robots.len()) + seq![
                '\n',
            ] + cells_text(v, 0));
        }
        let ghost head = decimal(v.size as nat) + seq!['\n'] + decimal(v.robots.len()) + seq!['\n'];
        let mut k: usize = 0;
        while k < len
            invariant
                v == self@,
                self.cells() == v.walls,
                len == v.walls.len(),
                n == v.size,
                n >= 1,
                count == v.robots.len(),
                robots@ == v.robots,
                goal == v.goal,
                k <= len,
                out@ == head + cells_text(v, k as int),
            decreases len - k,
        {
            let ghost before = out@;
            if self.is_wall(k) {
                out.push('#');
            } else {
                let mut j: usize = 0;
                while j < count && robots.get(j).to_usize() != k
                    invariant
                        count == v.robots.len(),
                        robots@ == v.robots,
                        j <= count,
                        forall|jj: int| 0 <= jj < j ==> v.robots[jj] != k,
                    decreases count - j,
                {
                    j = j + 1;
                }
                proof {
                    lemma_first_robot_from(v.robots, k as int, 0);
                }
                if j < count {
                    let mut ds = decimal_chars(j as u64);
                    out.append(&mut ds);
                } else if k == goal {
                    out.push('G');
                } else {
                    out.push(' ');
                }
            }
            if (k + 1) % n == 0 || k + 1 == len {
                out.push('\n');
            }
            proof {
                assert(out@ =~= head + cells_text(v, k + 1));
            }
            k = k + 1;
        }
        string_from_chars(&out)
    }
}

/// The digits of a number are digits, and at least one.
pub proof fn lemma_decimal_digits(v: nat)
    ensures
        decimal(v).len() >= 1,
        all_digits(decimal(v)),
        decimal_value(decimal(v)) == v,
    decreases v,
{
    if v >= 10 {
        lemma_decimal_digits(v / 10);
        let ds = decimal(v);
        assert(ds.drop_last() == decimal(v / 10));
        assert forall|i: int| 0 <= i < ds.len() implies is_digit(#[trigger] ds[i]) by {
            if i < ds.len() - 1 {
                assert(ds[i] == decimal(v / 10)[i]);
            }
        }
        assert(ds.last() == digit_char((v % 10) as int));
        assert(digit_value(ds.last()) == v % 10);
        assert(decimal_value(ds) == decimal_value(decimal(v / 10)) * 10 + v % 10);
        assert((v / 10) * 10 + v % 10 == v);
        assert(decimal_value(decimal(v)) == v);
    } else {
        let ds = decimal(v);
        assert(ds.drop_last() =~= Seq::<char>::empty());
        assert(digit_value(ds.last()) == v);
        assert(decimal_value(ds.drop_last()) == 0);
        assert(decimal_value(ds) == v);
    }
}

/// Text without carriage returns splits into cells piece by piece.
proof fn lemma_cells_of_concat(x: Seq<char>, y: Seq<char>)
    requires
        forall|i: int| 0 <= i < x.len() ==> x[i] != '\r',
    ensures
        cells_of(x + y) == cells_of(x) + cells_of(y),
    decreases x.len(),
{
    if x.len() == 0 {
        assert(x + y =~= y);
    } else {
        assert((x + y).drop_first() =~= x.drop_first() + y);
        lemma_cells_of_concat(x.drop_first(), y);
        if x[0] != '\n' {
            assert(seq![x[0]] + (cells_of(x.drop_first()) + cells_of(y)) =~= (seq![x[0]] + cells_of(
                x.drop_first(),
            )) + cells_of(y));
        }
    }
}

/// The character a board's text shows for cell `idx`.
pub open spec fn cell_char(v: BoardView, idx: int) -> char {
    cell_text(v, idx)[0]
}

/// A board that its text describes exactly: square, at most ten robots, on
/// distinct free cells, and the goal on a free cell that no robot takes.
pub open spec fn text_faithful(v: BoardView) -> bool {
    &&& v.size >= 1
    &&& v.walls.len() == v.size * v.size
    &&& 1 <= v.robots.len() <= 10
    &&& v.robots.no_duplicates()
    &&& forall|i: int|
        0 <= i < v.robots.len() ==> 0 <= #[trigger] v.robots[i] < v.walls.len() && !v.walls[v.robots[i]]
    &&& 0 <= v.goal < v.walls.len()
    &&& !v.walls[v.goal]
    &&& !v.robots.contains(v.goal)
}

/// On a faithful board each cell is written with one character, and that
/// character is the robot's digit on a robot's cell.
proof fn lemma_cell_text(v: BoardView, idx: int)
    requires
        text_faithful(v),
        0 <= idx < v.walls.len(),
    ensures
        cell_text(v, idx) == seq![cell_char(v, idx)],
        cell_char(v, idx) != '\n' && cell_char(v, idx) != '\r',
        cell_char_ok(cell_char(v, idx)),
        (cell_char(v, idx) == '#') == v.walls[idx],
        cell_char(v, idx) == 'G' <==> idx == v.goal,
        forall|d: int|
            0 <= d < v.robots.len() ==> ((is_digit(cell_char(v, idx)) && digit_value(cell_char(v, idx)) == d)
                <==> #[trigger] v.robots[d] == idx),
        is_digit(cell_char(v, idx)) ==> digit_value(cell_char(v, idx)) < v.robots.len(),
{
    let f = first_robot_from(v.robots, idx, 0);
    lemma_first_robot_from(v.robots, idx, 0);
    if !v.walls[idx] && f >= 0 {
        assert(decimal(f as nat) == seq![digit_char(f)]);
        assert forall|d: int| 0 <= d < v.robots.len() implies ((is_digit(cell_char(v, idx))
            && digit_value(cell_char(v, idx)) == d) <==> #[trigger] v.robots[d] == idx) by {
            if v.robots[d] == idx && d != f {
                assert(v.robots[d] == v.robots[f]);
            }
        }
        assert(v.robots.contains(idx));
    } else if !v.walls[idx] {
        assert forall|d: int| 0 <= d < v.robots.len() implies !(#[trigger] v.robots[d] == idx) by {}
    } else {
        assert forall|d: int| 0 <= d < v.robots.len() implies !(#[trigger] v.robots[d] == idx) by {}
        if idx == v.goal {
            assert(false);
        }
    }
    if idx == v.goal {
        assert(f < 0) by {
            if f >= 0 {
                assert(v.robots.contains(v.goal));
            }
        }
    }
}

/// The cells of a faithful board's rows, line breaks left out.
proof fn lemma_cells_of_text(v: BoardView, k: int)
    requires
        text_faithful(v),
        0 <= k <= v.walls.len(),
    ensures
        cells_of(cells_text(v, k)) == Seq::new(k as nat, |i: int| cell_char(v, i)),
        forall|i: int| 0 <= i < cells_text(v, k).len() ==> #[trigger] cells_text(v, k)[i] != '\r',
    decreases k,
{
    if k > 0 {
        lemma_cells_of_text(v, k - 1);
        lemma_cell_text(v, k - 1);
        let a = cells_text(v, k - 1);
        let b = cell_text(v, k - 1);
        let line_end = if k % v.size == 0 || k == v.walls.len() {
            seq!['\n']
        } else {
            Seq::<char>::empty()
        };
        assert(cells_text(v, k) == a + b + line_end);
        lemma_cells_of_concat(a, b);
        assert forall|i: int| 0 <= i < (a + b).len() implies #[trigger] (a + b)[i] != '\r' by {
            if i < a.len() {
                assert((a + b)[i] == a[i]);
            } else {
                assert((a + b)[i] == b[i - a.len()]);
            }
        }
        lemma_cells_of_concat(a + b, line_end);
        let e = Seq::<char>::empty();
        assert(cells_of(e) =~= e);
        assert(cells_of(b) == b) by {
            assert(b.drop_first() =~= e);
            assert(b[0] != '\n' && b[0] != '\r');
            assert(cells_of(b) == seq![b[0]] + cells_of(b.drop_first()));
            assert(seq![b[0]] + e =~= b);
        }
        if line_end.len() > 0 {
            assert(line_end.drop_first() =~= e);
            assert(line_end[0] == '\n');
            assert(cells_of(line_end) == cells_of(line_end.drop_first()));
        }
        assert(cells_of(line_end) =~= Seq::<char>::empty());
        assert(cells_of(cells_text(v, k)) =~= Seq::new(k as nat, |i: int| cell_char(v, i)));
        assert forall|i: int| 0 <= i < cells_text(v, k).len() implies #[trigger] cells_text(v, k)[i]
            != '\r' by {
            let t = cells_text(v, k);
            if i < (a + b).len() {
                assert(t[i] == (a + b)[i]);
            } else {
                assert(t[i] == line_end[i - (a + b).len()]);
            }
        }
    }
}

/// The last index with digit `d` is the one index that has it.
proof fn lemma_last_digit_unique(s: Seq<char>, d: int, p: int)
    requires
        0 <= p < s.len(),
        forall|i: int| 0 <= i < s.len() ==> ((is_digit(#[trigger] s[i]) && digit_value(s[i]) == d) <==> i == p),
    ensures
        last_digit(s, d) == p,
    decreases s.len(),
{
    if p < s.len() - 1 {
        assert forall|i: int| 0 <= i < s.drop_last().len() implies ((is_digit(#[trigger] s.drop_last()[i])
            && digit_value(s.drop_last()[i]) == d) <==> i == p) by {
            assert(s.drop_last()[i] == s[i]);
        }
        lemma_last_digit_unique(s.drop_last(), d, p);
    }
}

/// The last index with `G` is the one index that has it.
proof fn lemma_last_goal_unique(s: Seq<char>, p: int)
    requires
        0 <= p < s.len(),
        forall|i: int| 0 <= i < s.len() ==> (#[trigger] s[i] == 'G' <==> i == p),
    ensures
        last_goal(s) == p,
    decreases s.len(),
{
    if p < s.len() - 1 {
        assert forall|i: int| 0 <= i < s.drop_last().len() implies (#[trigger] s.drop_last()[i] == 'G'
            <==> i == p) by {
            assert(s.drop_last()[i] == s[i]);
        }
        lemma_last_goal_unique(s.drop_last(), p);
    }
}

/// The first line break at or after `from` is at `e` when `e` holds one and
/// none comes before it.
proof fn lemma_first_newline_at(s: Seq<char>, from: int, e: int)
    requires
        0 <= from <= e < s.len(),
        s[e] == '\n',
        forall|i: int| from <= i < e ==> s[i] != '\n',
    ensures
        first_newline(s, from) == e,
{
    lemma_first_newline(s, from);
}

/// Reading the text of a faithful board gives the board back: every cell
/// can be read, the width, walls, robots and goal are those written.
pub proof fn lemma_text_round_trip<P: Position>(v: BoardView)
    requires
        text_faithful(v),
        v.walls.len() <= P::pos_max(),
    ensures
        input_ok::<P>(board_text(v), v.robots.len() as int),
        first_bad(board_cells(board_text(v)), 0) == board_cells(board_text(v)).len(),
        parsed_view(board_text(v), v.robots.len() as int) == v,
{
    let a = decimal(v.size as nat);
    let b = decimal(v.robots.len());
    let len = v.walls.len() as int;
    let c = cells_text(v, len);
    let s = board_text(v);
    let nl = seq!['\n'];
    lemma_decimal_digits(v.size as nat);
    lemma_decimal_digits(v.robots.len());
    assert(s == a + nl + b + nl + c);
    let e1 = a.len() as int;
    let e2 = e1 + 1 + b.len();
    assert(s[e1] == '\n');
    assert(s[e2] == '\n');
    assert forall|i: int| 0 <= i < e1 implies s[i] != '\n' by {
        assert(s[i] == a[i]);
        assert(is_digit(a[i]));
    }
    assert forall|i: int| e1 + 1 <= i < e2 implies s[i] != '\n' by {
        assert(s[i] == b[i - e1 - 1]);
        assert(is_digit(b[i - e1 - 1]));
    }
    lemma_first_newline_at(s, 0, e1);
    lemma_first_newline_at(s, e1 + 1, e2);
    assert(is_digit(a[e1 - 1]));
    assert(s[e1 - 1] == a[e1 - 1]);
    assert(first_line(s) =~= a);
    assert(is_digit(a[0]));
    assert(parse_number(a) == Some(v.size));
    assert(body(s) =~= c);
    lemma_cells_of_text(v, len);
    let cells = board_cells(s);
    assert(cells =~= Seq::new(len as nat, |i: int| cell_char(v, i)));
    assert forall|i: int| 0 <= i < len implies cell_char_ok(#[trigger] cells[i]) by {
        lemma_cell_text(v, i);
    }
    lemma_first_bad(cells, 0);
    if first_bad(cells, 0) < len {
        lemma_cell_text(v, first_bad(cells, 0));
    }
    assert(first_bad(cells, 0) == len);
    assert forall|j: int| 0 <= j < len && is_digit(#[trigger] cells[j]) implies digit_value(cells[j])
        < v.robots.len() by {
        lemma_cell_text(v, j);
    }
    let pv = parsed_view(s, v.robots.len() as int);
    assert forall|i: int| 0 <= i < len implies #[trigger] pv.walls[i] == v.walls[i] by {
        lemma_cell_text(v, i);
    }
    assert(pv.walls =~= v.walls);
    assert forall|d: int| 0 <= d < v.robots.len() implies #[trigger] pv.robots[d] == v.robots[d] by {
        let p = v.robots[d];
        assert forall|i: int| 0 <= i < cells.len() implies ((is_digit(#[trigger] cells[i])
            && digit_value(cells[i]) == d) <==> i == p) by {
            lemma_cell_text(v, i);
        }
        lemma_last_digit_unique(cells, d, p);
    }
    assert(pv.robots =~= v.robots);
    assert forall|i: int| 0 <= i < cells.len() implies (#[trigger] cells[i] == 'G' <==> i == v.goal) by {
        lemma_cell_text(v, i);
    }
    lemma_last_goal_unique(cells, v.goal);
    assert(pv == v);
}

/// Writing the board read from the text of a faithful board gives that text
/// back.
pub proof fn lemma_board_text_round_trip<P: Position>(v: BoardView, s: Seq<char>)
    requires
        text_faithful(v),
        v.walls.len() <= P::pos_max(),
        s == board_text(v),
    ensures
        input_ok::<P>(s, v.robots.len() as int),
        board_text(parsed_view(s, v.robots.len() as int)) == s,
{
    lemma_text_round_trip::<P>(v);
}

/// The first `k` cells of a square board of width `n`, `n` to a line, each
/// line ended by a line break.
pub open spec fn rows_text(cells: Seq<char>, n: int, k: int) -> Seq<char>
    decreases k,
{
    if k <= 0 {
        Seq::empty()
    } else {
        let line_end = if k % n == 0 {
            seq!['\n']
        } else {
            Seq::empty()
        };
        rows_text(cells, n, k - 1) + seq![cells[k - 1]] + line_end
    }
}

/// Cell `i` is written with digit `d`.
pub open spec fn digit_at(cells: Seq<char>, i: int, d: int) -> bool {
    is_digit(cells[i]) && digit_value(cells[i]) == d
}

/// Some cell is written with digit `d`.
pub open spec fn digit_written(cells: Seq<char>, d: int) -> bool {
    exists|i: int| 0 <= i < cells.len() && #[trigger] digit_at(cells, i, d)
}

/// Text `s` writes a board of width `n` with `nr` robots as `to_text`
/// does, its cells being `cells`: the width and the number of robots in
/// decimal on lines of their own, then `n` lines of `n` cells, each cell
/// ` `, `#`, `G` or a digit below `nr`, every such digit once and `G` once.
pub open spec fn text_parts(s: Seq<char>, nr: int, n: int, cells: Seq<char>) -> bool {
    &&& n >= 1
    &&& 1 <= nr <= 10
    &&& cells.len() == n * n
    &&& forall|i: int|
        0 <= i < cells.len() ==> cell_char_ok(#[trigger] cells[i]) && (is_digit(cells[i])
            ==> digit_value(cells[i]) < nr)
    &&& forall|d: int| 0 <= d < nr ==> #[trigger] digit_written(cells, d)
    &&& forall|i: int, j: int|
        0 <= i < cells.len() && 0 <= j < cells.len() && is_digit(#[trigger] cells[i]) && is_digit(
            #[trigger] cells[j],
        ) && digit_value(cells[i]) == digit_value(cells[j]) ==> i == j
    &&& exists|i: int| 0 <= i < cells.len() && #[trigger] cells[i] == 'G'
    &&& forall|i: int, j: int|
        0 <= i < cells.len() && 0 <= j < cells.len() && #[trigger] cells[i] == 'G' && #[trigger] cells[j]
            == 'G' ==> i == j
    &&& s == decimal(n as nat) + seq!['\n'] + decimal(nr as nat) + seq!['\n'] + rows_text(cells, n, n * n)
}

/// The board such text describes.
pub open spec fn parts_view(nr: int, n: int, cells: Seq<char>) -> BoardView {
    BoardView {
        walls: cells.map_values(|c: char| c == '#'),
        size: n,
        goal: choose|i: int| 0 <= i < cells.len() && cells[i] == 'G',
        robots: Seq::new(nr as nat, |d: int| choose|i: int| 0 <= i < cells.len() && digit_at(cells, i, d)),
    }
}

/// Each cell of such text is written as the board it describes writes it.
proof fn lemma_parts_cell(s: Seq<char>, nr: int, n: int, cells: Seq<char>, i: int)
    requires
        text_parts(s, nr, n, cells),
        0 <= i < cells.len(),
    ensures
        cell_text(parts_view(nr, n, cells), i) == seq![cells[i]],
{
    let v = parts_view(nr, n, cells);
    assert forall|d: int| 0 <= d < nr implies {
        let p = #[trigger] v.robots[d];
        0 <= p < cells.len() && digit_at(cells, p, d)
    } by {
        assert(digit_written(cells, d));
    }
    lemma_first_robot_from(v.robots, i, 0);
    let f = first_robot_from(v.robots, i, 0);
    assert(v.walls[i] == (cells[i] == '#'));
    if is_digit(cells[i]) {
        let d = digit_value(cells[i]);
        assert(0 <= d < nr);
        let p = v.robots[d];
        assert(digit_at(cells, p, d));
        assert(p == i);
        assert(f >= 0);
        assert(v.robots[f] == i);
        assert(digit_at(cells, v.robots[f], f));
        assert(f == d);
        assert(decimal(d as nat) == seq![digit_char(d)]);
        assert(digit_char(d) == cells[i]);
    } else {
        if f >= 0 {
            assert(v.robots[f] == i);
            assert(digit_at(cells, v.robots[f], f));
        }
        if cells[i] == 'G' {
            assert(exists|i2: int| 0 <= i2 < cells.len() && #[trigger] cells[i2] == 'G');
            assert(v.goal == i);
        } else if cells[i] == ' ' {
            assert(exists|i2: int| 0 <= i2 < cells.len() && #[trigger] cells[i2] == 'G');
            assert(cells[v.goal] == 'G');
            assert(v.goal != i);
        }
    }
}

/// The rows of such text are the rows the board it describes writes.
proof fn lemma_parts_rows(s: Seq<char>, nr: int, n: int, cells: Seq<char>, k: int)
    requires
        text_parts(s, nr, n, cells),
        0 <= k <= cells.len(),
    ensures
        cells_text(parts_view(nr, n, cells), k) == rows_text(cells, n, k),
    decreases k,
{
    if k > 0 {
        lemma_parts_rows(s, nr, n, cells, k - 1);
        lemma_parts_cell(s, nr, n, cells, k - 1);
        if k == n * n {
            assert((n * n) % n == 0) by (nonlinear_arith)
                requires
                    n >= 1,
            ;
        }
    }
}

/// Writing the board read from well-formed text gives that text back: text
/// that writes a square board as `to_text` does, every robot's digit and
/// `G` once, is read in full, and the board read is written as that text.
pub proof fn lemma_parse_print_round_trip<P: Position>(s: Seq<char>, nr: int, n: int, cells: Seq<char>)
    requires
        text_parts(s, nr, n, cells),
        n * n <= P::pos_max(),
    ensures
        input_ok::<P>(s, nr),
        first_bad(board_cells(s), 0) == board_cells(s).len(),
        board_text(parsed_view(s, nr)) == s,
{
    let v = parts_view(nr, n, cells);
    assert forall|d: int| 0 <= d < nr implies {
        let p = #[trigger] v.robots[d];
        0 <= p < cells.len() && digit_at(cells, p, d)
    } by {
        assert(digit_written(cells, d));
    }
    assert(exists|i2: int| 0 <= i2 < cells.len() && #[trigger] cells[i2] == 'G');
    assert(cells[v.goal] == 'G');
    assert(text_faithful(v)) by {
        assert forall|a: int, b: int| 0 <= a < b < v.robots.len() implies v.robots[a] != v.robots[b] by {
            assert(digit_at(cells, v.robots[a], a));
            assert(digit_at(cells, v.robots[b], b));
        }
        assert forall|d: int| 0 <= d < v.robots.len() implies 0 <= #[trigger] v.robots[d] < v.walls.len()
            && !v.walls[v.robots[d]] by {
            assert(digit_at(cells, v.robots[d], d));
        }
        assert(!v.robots.contains(v.goal)) by {
            if v.robots.contains(v.goal) {
                let d = choose|d: int| 0 <= d < v.robots.len() && v.robots[d] == v.goal;
                assert(digit_at(cells, v.robots[d], d));
            }
        }
    }
    lemma_parts_rows(s, nr, n, cells, n * n);
    assert(board_text(v) == s);
    lemma_text_round_trip::<P>(v);
}

/// How a move is written: the robot's number, then the direction's letter.
pub open spec fn move_text(robot: nat, dir: Direction) -> Seq<char> {
    decimal(robot) + seq![direction_letter(dir)]
}

impl<P: Position> Move<P> {
    /// The move as text, such as `0L`.
    pub fn to_text(&self) -> (r: String)
        ensures
            r@ == move_text(self.robot as nat, self.dir),
    {
        let mut chars = decimal_chars(self.robot as u64);
        chars.push(self.dir.letter());
        string_from_chars(&chars)
    }
}

impl MoveLite {
    /// The move as text, such as `1U`.
    pub fn to_text(&self) -> (r: String)
        requires
            self.wf(),
        ensures
            r@ == move_text(self.spec_robot() as nat, self.spec_direction()),
    {
        let mut chars = decimal_chars(self.robot() as u64);
        chars.push(self.direction().letter());
        string_from_chars(&chars)
    }
}

} // verus!
