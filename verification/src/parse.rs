//! Reading a board from text.
use vstd::prelude::*;
use vstd::std_specs::iter::IteratorSpec;

use crate::board::{Board, BoardView};
use crate::position::Position;
use crate::render::string_from_chars;
use crate::robots::Robots;

verus! {

/// The characters of `s`, in order.
pub fn chars_of(s: &str) -> (r: Vec<char>)
    ensures
        r@ == s@,
{
    broadcast use vstd::string::axiom_spec_iter, vstd::string::next_postcondition;

    let mut it = s.chars();
    let mut chars: Vec<char> = Vec::new();
    loop
        invariant
            chars@ + it.remaining() == s@,
            it.obeys_prophetic_iter_laws(),
            it.decrease() is Some,
        ensures
            chars@ == s@,
        decreases it.decrease()->0,
    {
        match it.next() {
            Some(c) => {
                chars.push(c);
            },
            None => {
                assert(chars@ + it.remaining() == s@);
                assert(it.remaining().len() == 0);
                assert(chars@ + it.remaining() =~= chars@);
                break;
            },
        }
    }
    chars
}

/// The index of the first line break at or after `from`, or the length.
pub open spec fn first_newline(s: Seq<char>, from: int) -> int
    decreases s.len() - from,
{
    if from >= s.len() {
        s.len() as int
    } else if from >= 0 && s[from] == '\n' {
        from
    } else {
        first_newline(s, from + 1)
    }
}

/// The first line, without its line ending.
pub open spec fn first_line(s: Seq<char>) -> Seq<char> {
    let e = first_newline(s, 0);
    if e < s.len() && e > 0 && s[e - 1] == '\r' {
        s.subrange(0, e - 1)
    } else {
        s.subrange(0, e)
    }
}

/// Whether the text has a second line.
pub open spec fn has_second_line(s: Seq<char>) -> bool {
    first_newline(s, 0) + 1 < s.len()
}

/// The text after the second line.
pub open spec fn body(s: Seq<char>) -> Seq<char> {
    let e1 = first_newline(s, 0);
    let e2 = first_newline(s, e1 + 1);
    if e1 < s.len() && e2 < s.len() {
        s.subrange(e2 + 1, s.len() as int)
    } else {
        Seq::empty()
    }
}

/// The characters of the lines of `b`, one line after the other, without
/// line endings (`\n` or `\r\n`).
pub open spec fn cells_of(b: Seq<char>) -> Seq<char>
    decreases b.len(),
{
    if b.len() == 0 {
        Seq::empty()
    } else if b[0] == '\n' {
        cells_of(b.drop_first())
    } else if b[0] == '\r' && b.len() >= 2 && b[1] == '\n' {
        cells_of(b.subrange(2, b.len() as int))
    } else {
        seq![b[0]] + cells_of(b.drop_first())
    }
}

/// The board's cells as written: every character after the second line.
pub open spec fn board_cells(s: Seq<char>) -> Seq<char> {
    cells_of(body(s))
}

/// A decimal digit, `0` to `9`.
pub open spec fn is_digit(c: char) -> bool {
    48 <= c as int <= 57
}

/// The value of a decimal digit.
pub open spec fn digit_value(c: char) -> int {
    c as int - 48
}

/// Every character is a decimal digit.
pub open spec fn all_digits(ds: Seq<char>) -> bool {
    forall|i: int| 0 <= i < ds.len() ==> is_digit(#[trigger] ds[i])
}

/// The number written by decimal digits `ds`.
pub open spec fn decimal_value(ds: Seq<char>) -> int
    decreases ds.len(),
{
    if ds.len() == 0 {
        0
    } else {
        decimal_value(ds.drop_last()) * 10 + digit_value(ds.last())
    }
}

/// A number as an unsigned integer is read from text: an optional `+`,
/// then one or more decimal digits.
pub open spec fn parse_number(line: Seq<char>) -> Option<int> {
    let ds = if line.len() > 0 && line[0] == '+' {
        line.drop_first()
    } else {
        line
    };
    if ds.len() > 0 && all_digits(ds) {
        Some(decimal_value(ds))
    } else {
        None
    }
}

/// The characters a board cell may be written with.
pub open spec fn cell_char_ok(c: char) -> bool {
    c == ' ' || c == '#' || c == 'G' || is_digit(c)
}

/// The index of the first cell written with another character, or the length.
pub open spec fn first_bad(cells: Seq<char>, from: int) -> int
    decreases cells.len() - from,
{
    if from >= cells.len() {
        cells.len() as int
    } else if from >= 0 && !cell_char_ok(cells[from]) {
        from
    } else {
        first_bad(cells, from + 1)
    }
}

/// The last index where digit `d` is written, or -1.
pub open spec fn last_digit(s: Seq<char>, d: int) -> int
    decreases s.len(),
{
    if s.len() == 0 {
        -1
    } else if is_digit(s.last()) && digit_value(s.last()) == d {
        s.len() - 1
    } else {
        last_digit(s.drop_last(), d)
    }
}

/// The last index where `G` is written, or -1.
pub open spec fn last_goal(s: Seq<char>) -> int
    decreases s.len(),
{
    if s.len() == 0 {
        -1
    } else if s.last() == 'G' {
        s.len() - 1
    } else {
        last_goal(s.drop_last())
    }
}

/// Where robot `d` stands after reading `cells`: at the last cell written
/// with its digit, or at 0.
pub open spec fn robot_at(cells: Seq<char>, d: int) -> int {
    let i = last_digit(cells, d);
    if i >= 0 {
        i
    } else {
        0
    }
}

/// The goal after reading `cells`: the last cell written `G`, or 0.
pub open spec fn goal_at(cells: Seq<char>) -> int {
    let i = last_goal(cells);
    if i >= 0 {
        i
    } else {
        0
    }
}

/// The text can be read with positions of type `P` for `n_robots` robots:
/// a first line holding the width, whose square fits `P`; a second line;
/// no digit of a robot beyond the last one before the first character that
/// is not a cell, and no more cells before it than `P` can count.
pub open spec fn input_ok<P: Position>(s: Seq<char>, n_robots: int) -> bool {
    &&& s.len() > 0
    &&& parse_number(first_line(s)) is Some
    &&& parse_number(first_line(s))->0 * parse_number(first_line(s))->0 <= P::pos_max()
    &&& has_second_line(s)
    &&& first_bad(board_cells(s), 0) <= P::pos_max()
    &&& forall|j: int|
        0 <= j < first_bad(board_cells(s), 0) && is_digit(#[trigger] board_cells(s)[j])
            ==> digit_value(board_cells(s)[j]) < n_robots
}

/// The board the text describes, read with `n_robots` robots.
pub open spec fn parsed_view(s: Seq<char>, n_robots: int) -> BoardView {
    let cells = board_cells(s);
    BoardView {
        walls: cells.map_values(|c: char| c == '#'),
        size: parse_number(first_line(s))->0,
        goal: goal_at(cells),
        robots: Seq::new(n_robots as nat, |d: int| robot_at(cells, d)),
    }
}

/// The message for a character that is no cell.
fn unexpected_character(c: char) -> (r: String)
    ensures
        r@ == "Unexpected character: "@ + seq![c],
{
    let mut chars = chars_of("Unexpected character: ");
    chars.push(c);
    string_from_chars(&chars)
}

/// Where the first line break at or after `from` is.
pub proof fn lemma_first_newline(s: Seq<char>, from: int)
    requires
        0 <= from <= s.len(),
    ensures
        from <= first_newline(s, from) <= s.len(),
        first_newline(s, from) < s.len() ==> s[first_newline(s, from)] == '\n',
        forall|i: int| from <= i < first_newline(s, from) ==> s[i] != '\n',
    decreases s.len() - from,
{
    if from < s.len() && s[from] != '\n' {
        lemma_first_newline(s, from + 1);
    }
}

/// The index of the first line break at or after `from`, or the length.
fn first_newline_exec(s: &Vec<char>, from: usize) -> (r: usize)
    requires
        from <= s@.len(),
    ensures
        r == first_newline(s@, from as int),
        from <= r <= s@.len(),
{
    proof {
        lemma_first_newline(s@, from as int);
    }
    let mut i = from;
    while i < s.len() && s[i] != '\n'
        invariant
            from <= i <= s@.len(),
            first_newline(s@, from as int) == first_newline(s@, i as int),
        decreases s@.len() - i,
    {
        i = i + 1;
    }
    i
}

/// The first line, whether there is a second, and the cells after it.
fn split_input(s: &Vec<char>) -> (r: (Vec<char>, bool, Vec<char>))
    ensures
        r.0@ == first_line(s@),
        r.1 == has_second_line(s@),
        r.2@ == board_cells(s@),
{
    let e1 = first_newline_exec(s, 0);
    let end = if e1 < s.len() && e1 > 0 && s[e1 - 1] == '\r' {
        e1 - 1
    } else {
        e1
    };
    let mut line: Vec<char> = Vec::new();
    let mut i: usize = 0;
    while i < end
        invariant
            end <= s@.len(),
            i <= end,
            line@ =~= s@.subrange(0, i as int),
        decreases end - i,
    {
        line.push(s[i]);
        i = i + 1;
    }
    let second = e1 < s.len() && e1 + 1 < s.len();
    let mut cells: Vec<char> = Vec::new();
    let mut start = s.len();
    if e1 < s.len() {
        let e2 = first_newline_exec(s, e1 + 1);
        if e2 < s.len() {
            start = e2 + 1;
        }
    }
    proof {
        assert(body(s@) =~= s@.subrange(start as int, s@.len() as int));
    }
    let mut j = start;
    while j < s.len()
        invariant
            start <= j <= s@.len(),
            cells_of(s@.subrange(start as int, s@.len() as int)) == cells@ + cells_of(
                s@.subrange(j as int, s@.len() as int),
            ),
        decreases s@.len() - j,
    {
        let ghost rest = s@.subrange(j as int, s@.len() as int);
        let c = s[j];
        if c == '\n' {
            proof {
                assert(rest.drop_first() =~= s@.subrange(j + 1, s@.len() as int));
            }
            j = j + 1;
        } else if c == '\r' && j + 1 < s.len() && s[j + 1] == '\n' {
            proof {
                assert(rest.subrange(2, rest.len() as int) =~= s@.subrange(j + 2, s@.len() as int));
            }
            j = j + 2;
        } else {
            proof {
                assert(rest.drop_first() =~= s@.subrange(j + 1, s@.len() as int));
                assert(cells_of(rest) == seq![c] + cells_of(rest.drop_first()));
            }
            let ghost before = cells@;
            cells.push(c);
            proof {
                assert(before + (seq![c] + cells_of(rest.drop_first())) =~= cells@ + cells_of(
                    rest.drop_first(),
                ));
            }
            j = j + 1;
        }
    }
    proof {
        assert(s@.subrange(j as int, s@.len() as int) =~= Seq::<char>::empty());
        assert(cells@ + Seq::<char>::empty() =~= cells@);
    }
    (line, second, cells)
}

/// The number on a line, if it is one and at most `u32::MAX`.
fn parse_number_exec(line: &Vec<char>) -> (r: Option<u64>)
    ensures
        r == (if parse_number(line@) is Some && parse_number(line@)->0 <= u32::MAX {
            Some(parse_number(line@)->0 as u64)
        } else {
            None
        }),
{
    let start: usize = if line.len() > 0 && line[0] == '+' {
        1
    } else {
        0
    };
    let ghost ds = if line@.len() > 0 && line@[0] == '+' {
        line@.drop_first()
    } else {
        line@
    };
    proof {
        assert(ds =~= line@.subrange(start as int, line@.len() as int));
    }
    if start >= line.len() {
        return None;
    }
    let mut value: u64 = 0;
    let mut i = start;
    while i < line.len()
        invariant
            start <= i <= line@.len(),
            ds == line@.subrange(start as int, line@.len() as int),
            ds == (if line@.len() > 0 && line@[0] == '+' {
                line@.drop_first()
            } else {
                line@
            }),
            all_digits(ds.take(i - start)),
            value == decimal_value(ds.take(i - start)),
            value <= u32::MAX,
        decreases line@.len() - i,
    {
        let c = line[i];
        if c < '0' || c > '9' {
            proof {
                assert(ds[i - start] == c);
                assert(!is_digit(ds[i - start]));
                assert(!all_digits(ds));
            }
            return None;
        }
        let d = (c as u32 - 48) as u64;
        proof {
            let t = ds.take(i + 1 - start);
            assert(t.drop_last() =~= ds.take(i - start));
            assert(t.last() == c);
            assert forall|j: int| 0 <= j < t.len() implies is_digit(#[trigger] t[j]) by {
                if j < i - start {
                    assert(t[j] == ds.take(i - start)[j]);
                }
            }
        }
        let next = value * 10 + d;
        if next > u32::MAX as u64 {
            proof {
                lemma_decimal_grows(ds, (i + 1 - start) as int);
            }
            return None;
        }
        value = next;
        i = i + 1;
    }
    proof {
        assert(ds.take(ds.len() as int) =~= ds);
    }
    Some(value)
}

/// A longer run of digits never reads as a smaller number.
proof fn lemma_decimal_grows(ds: Seq<char>, k: int)
    requires
        0 <= k <= ds.len(),
        all_digits(ds.take(k)),
    ensures
        all_digits(ds) ==> decimal_value(ds) >= decimal_value(ds.take(k)),
    decreases ds.len() - k,
{
    if k < ds.len() && all_digits(ds) {
        assert(ds.take(k + 1).drop_last() =~= ds.take(k));
        assert(all_digits(ds.take(k + 1)));
        lemma_decimal_grows(ds, k + 1);
        lemma_decimal_nonneg(ds.take(k));
    } else if k == ds.len() {
        assert(ds.take(k) =~= ds);
    }
}

/// Digits never read as a negative number.
proof fn lemma_decimal_nonneg(ds: Seq<char>)
    requires
        all_digits(ds),
    ensures
        decimal_value(ds) >= 0,
    decreases ds.len(),
{
    if ds.len() > 0 {
        assert(all_digits(ds.drop_last()));
        lemma_decimal_nonneg(ds.drop_last());
    }
}

/// A number read from text is never negative.
pub proof fn lemma_parse_number_nonneg(line: Seq<char>)
    ensures
        parse_number(line) matches Some(v) ==> v >= 0,
{
    let ds = if line.len() > 0 && line[0] == '+' {
        line.drop_first()
    } else {
        line
    };
    if all_digits(ds) {
        lemma_decimal_nonneg(ds);
    }
}

/// Where the first cell written with another character is.
pub proof fn lemma_first_bad(cells: Seq<char>, from: int)
    requires
        0 <= from <= cells.len(),
    ensures
        from <= first_bad(cells, from) <= cells.len(),
        first_bad(cells, from) < cells.len() ==> !cell_char_ok(cells[first_bad(cells, from)]),
        forall|j: int| from <= j < first_bad(cells, from) ==> cell_char_ok(#[trigger] cells[j]),
    decreases cells.len() - from,
{
    if from < cells.len() && cell_char_ok(cells[from]) {
        lemma_first_bad(cells, from + 1);
    }
}

/// Whether `from_str` can read `s` with positions of type `P` and
/// `n_robots` robots.
pub fn readable<P: Position>(s: &str, n_robots: usize) -> (r: bool)
    ensures
        r == input_ok::<P>(s@, n_robots as int),
{
    let chars = chars_of(s);
    if chars.len() == 0 {
        return false;
    }
    let (line, second, cells) = split_input(&chars);
    proof {
        P::lemma_pos_max();
        lemma_parse_number_nonneg(first_line(s@));
    }
    let size = match parse_number_exec(&line) {
        Some(v) => v,
        None => {
            proof {
                if parse_number(first_line(s@)) is Some {
                    let v = parse_number(first_line(s@))->0;
                    assert(v * v > P::pos_max()) by (nonlinear_arith)
                        requires
                            v > u32::MAX,
                            P::pos_max() <= u32::MAX,
                    ;
                }
            }
            return false;
        },
    };
    assert(size * size <= u64::MAX) by (nonlinear_arith)
        requires
            size <= u32::MAX,
    ;
    if size * size > P::max_index() {
        return false;
    }
    if !second {
        return false;
    }
    let ghost cs = cells@;
    proof {
        lemma_first_bad(cs, 0);
    }
    let mut i: usize = 0;
    while i < cells.len() && (cells[i] == ' ' || cells[i] == '#' || cells[i] == 'G' || ('0'
        <= cells[i] && cells[i] <= '9'))
        invariant
            cs == cells@,
            cs == board_cells(s@),
            0 <= first_bad(cs, 0) <= cs.len(),
            forall|j: int| 0 <= j < first_bad(cs, 0) ==> cell_char_ok(#[trigger] cs[j]),
            first_bad(cs, 0) < cs.len() ==> !cell_char_ok(cs[first_bad(cs, 0)]),
            i <= first_bad(cs, 0),
            forall|j: int|
                0 <= j < i && is_digit(#[trigger] cs[j]) ==> digit_value(cs[j]) < n_robots,
        decreases cs.len() - i,
    {
        let c = cells[i];
        if '0' <= c && c <= '9' {
            let d = (c as u32 - 48) as usize;
            if d >= n_robots {
                proof {
                    assert(is_digit(cs[i as int]));
                    if i == first_bad(cs, 0) {
                        assert(false);
                    }
                    assert(is_digit(board_cells(s@)[i as int]));
                }
                return false;
            }
        }
        proof {
            if i == first_bad(cs, 0) {
                assert(cell_char_ok(cs[i as int]));
            }
        }
        i = i + 1;
    }
    proof {
        if i < first_bad(cs, 0) {
            assert(cell_char_ok(cs[i as int]));
        }
    }
    if i as u64 > P::max_index() {
        return false;
    }
    true
}

impl<P: Position> Board<bool, P> {
    /// Reads a board: the width on the first line, a second line that is
    /// skipped, then the cells row by row (` ` free, `#` wall, `G` the goal,
    /// a digit the robot of that number, standing on a free cell).
    ///
    /// Fails on the first character that is none of these, with the
    /// message `Unexpected character: ` and the character.
    pub fn from_str(s: &str, n_robots: usize) -> (r: Result<Self, String>)
        requires
            input_ok::<P>(s@, n_robots as int),
        ensures
            r is Ok <==> first_bad(board_cells(s@), 0) == board_cells(s@).len(),
            r matches Ok(b) ==> b@ == parsed_view(s@, n_robots as int) && b.cells() == b@.walls,
            r matches Err(m) ==> m@ == "Unexpected character: "@ + seq![
                board_cells(s@)[first_bad(board_cells(s@), 0)],
            ],
    {
        let chars = chars_of(s);
        let (line, _second, cells) = split_input(&chars);
        let ghost cs = cells@;
        proof {
            lemma_first_bad(cs, 0);
            P::lemma_pos_max();
            lemma_parse_number_nonneg(first_line(s@));
            let v = parse_number(first_line(s@))->0;
            assert(v <= P::pos_max()) by (nonlinear_arith)
                requires
                    v * v <= P::pos_max(),
                    v >= 0,
            ;
        }
        let size = parse_number_exec(&line).unwrap();
        let size_p = P::from_usize(size as usize);
        let mut robots: Robots<P> = Robots::default(n_robots);
        let mut goal: usize = 0;
        let mut board: Vec<bool> = Vec::new();
        let mut i: usize = 0;
        proof {
            assert(robots@ =~= Seq::new(n_robots as nat, |d: int| robot_at(cs.take(0), d)));
            assert(board@ =~= cs.take(0).map_values(|c: char| c == '#'));
        }
        while i < cells.len()
            invariant
                cs == cells@,
                cs == board_cells(s@),
                input_ok::<P>(s@, n_robots as int),
                0 <= first_bad(cs, 0) <= cs.len(),
                forall|j: int| 0 <= j < first_bad(cs, 0) ==> cell_char_ok(#[trigger] cs[j]),
                first_bad(cs, 0) < cs.len() ==> !cell_char_ok(cs[first_bad(cs, 0)]),
                i <= cs.len(),
                i <= first_bad(cs, 0),
                board@ =~= cs.take(i as int).map_values(|c: char| c == '#'),
                robots@ =~= Seq::new(n_robots as nat, |d: int| robot_at(cs.take(i as int), d)),
                goal == goal_at(cs.take(i as int)),
                goal <= i,
            decreases cs.len() - i,
        {
            let c = cells[i];
            let ghost t = cs.take(i + 1);
            proof {
                assert(t.drop_last() =~= cs.take(i as int));
                assert(t.last() == c);
            }
            if c == ' ' || c == '#' || c == 'G' || ('0' <= c && c <= '9') {
                proof {
                    assert(cell_char_ok(c));
                    if i == first_bad(cs, 0) {
                        assert(false);
                    }
                }
                let ghost before = robots@;
                if c == ' ' {
                    board.push(false);
                } else if c == '#' {
                    board.push(true);
                } else if c == 'G' {
                    goal = i;
                    board.push(false);
                } else {
                    let d = (c as u32 - 48) as usize;
                    proof {
                        assert(is_digit(cs[i as int]));
                    }
                    robots.set(d, P::from_usize(i));
                    board.push(false);
                }
                proof {
                    assert(board@ =~= t.map_values(|c: char| c == '#'));
                    assert forall|d: int| 0 <= d < n_robots implies #[trigger] robots@[d]
                        == robot_at(t, d) by {
                        assert(before[d] == robot_at(cs.take(i as int), d));
                    }
                    assert(robots@ =~= Seq::new(n_robots as nat, |d: int| robot_at(t, d)));
                }
                i = i + 1;
            } else {
                proof {
                    assert(!cell_char_ok(c));
                    assert(i == first_bad(cs, 0));
                }
                return Err(unexpected_character(c));
            }
        }
        proof {
            assert(cs.take(cs.len() as int) =~= cs);
        }
        Ok(Board::from_parts(board, robots, P::from_usize(goal), size_p))
    }
}

} // verus!
