use vstd::prelude::*;
use vstd::set_lib::{lemma_int_range, lemma_len_subset, set_int_range};

use crate::board::{is_cell, Board, Tile, TilePointer, SIZE};

verus! {

/// Why a board has no solution.
#[derive(Debug, Clone, Copy, PartialEq, Eq, Structural)]
pub enum SolveError {
    Unsolvable,
}

/// The two cells share a row, a column or a 3×3 box.
pub open spec fn same_group(x1: int, y1: int, x2: int, y2: int) -> bool {
    y1 == y2 || x1 == x2 || (x1 / 3 == x2 / 3 && y1 / 3 == y2 / 3)
}

/// No other cell in the row, column or box of `(x, y)` holds the same value.
pub open spec fn unique_at(b: Board, x: int, y: int) -> bool {
    forall|x2: int, y2: int|
        0 <= x2 < 9 && 0 <= y2 < 9 && same_group(x, y, x2, y2) && !(x2 == x && y2 == y)
            ==> #[trigger] b.tile(x2, y2) != b.tile(x, y)
}

/// The cell of `b` at `p`.
pub open spec fn cell_at(b: Board, p: TilePointer) -> Tile {
    b.tile(p.0 as int, p.1 as int)
}

/// The number a cell holds, 0 for an empty one.
pub open spec fn value_of(t: Tile) -> int {
    match t {
        Some(d) => d as int,
        None => 0,
    }
}

/// A digit from 1 to 9.
pub open spec fn is_digit(t: Tile) -> bool {
    t is Some && 1 <= t->Some_0 <= 9
}

/// Every position is on the board and none occurs twice.
pub open spec fn list_ok(e: Seq<TilePointer>) -> bool {
    &&& forall|j: int| 0 <= j < e.len() ==> (#[trigger] e[j]).0 < 9 && e[j].1 < 9
    &&& forall|j: int, k: int| 0 <= j < e.len() && 0 <= k < e.len() && j != k ==> #[trigger] e[j] != #[trigger] e[k]
}

/// `(x, y)` is one of the positions `e[i..]`.
pub open spec fn in_tail(e: Seq<TilePointer>, i: int, x: int, y: int) -> bool {
    exists|j: int| i <= j < e.len() && #[trigger] e[j] == (x as usize, y as usize)
}

/// `g` differs from `b` only at the positions `e[i..]`.
pub open spec fn agrees_off(b: Board, g: Board, e: Seq<TilePointer>, i: int) -> bool {
    forall|x: int, y: int|
        0 <= x < 9 && 0 <= y < 9 && #[trigger] g.tile(x, y) != b.tile(x, y) ==> in_tail(e, i, x, y)
}

/// The cell of `g` at `e[j]` holds a digit that no other cell of its groups holds.
pub open spec fn placed(g: Board, e: Seq<TilePointer>, j: int) -> bool {
    is_digit(cell_at(g, e[j])) && unique_at(g, e[j].0 as int, e[j].1 as int)
}

/// `g` fills the positions `e[i..]` of `b`, and every position of `e` is correctly placed.
pub open spec fn completes(b: Board, g: Board, e: Seq<TilePointer>, i: int) -> bool {
    &&& agrees_off(b, g, e, i)
    &&& forall|j: int| 0 <= j < e.len() ==> #[trigger] placed(g, e, j)
}

/// Read along `e[i..]`, `g` comes before `f`: equal up to some position, smaller there.
pub open spec fn lex_lt(g: Board, f: Board, e: Seq<TilePointer>, i: int) -> bool {
    exists|k: int|
        i <= k < e.len() && (forall|j: int| i <= j < k ==> #[trigger] cell_at(g, e[j]) == cell_at(f, e[j]))
            && #[trigger] value_of(cell_at(g, e[k])) < value_of(cell_at(f, e[k]))
}

/// Both boards hold the same cells.
pub open spec fn same_tiles(a: Board, b: Board) -> bool {
    forall|x: int, y: int| 0 <= x < 9 && 0 <= y < 9 ==> #[trigger] a.tile(x, y) == b.tile(x, y)
}

proof fn lemma_box_range(x: int, x2: int)
    requires
        0 <= x < 9,
        0 <= x2 < 9,
    ensures
        (x2 / 3 == x / 3) <==> (x - x % 3 <= x2 < x - x % 3 + 3),
{
}

/// Tells whether the value at `last_play` occurs only once in its row, its column and its box.
pub fn is_valid(board: &Board, last_play: &TilePointer) -> (r: bool)
    requires
        last_play.0 < 9,
        last_play.1 < 9,
    ensures
        r == unique_at(*board, last_play.0 as int, last_play.1 as int),
{
    let (x, y) = *last_play;
    let ghost xi = x as int;
    let ghost yi = y as int;
    let last_play_value = board.get_tile(*last_play);
    let mut seen: bool;
    let ghost mut w: int = 0;

    // row
    seen = false;
    let mut k: usize = 0;
    while k < SIZE
        invariant
            x < 9,
            y < 9,
            xi == x as int,
            yi == y as int,
            x == last_play.0,
            y == last_play.1,
            k <= 9,
            last_play_value == board.tile(xi, yi),
            seen ==> 0 <= w < k && board.tile(w, yi) == last_play_value,
            forall|x2: int| 0 <= x2 < k && (!seen || x2 != w) ==> #[trigger] board.tile(x2, yi) != last_play_value,
        decreases 9 - k,
    {
        if board.get_tile((k, y)) == last_play_value {
            if seen {
                assert(!unique_at(*board, xi, yi)) by {
                    if w != xi {
                        assert(board.tile(w, yi) == board.tile(xi, yi));
                    } else {
                        assert(board.tile(k as int, yi) == board.tile(xi, yi));
                    }
                }
                return false;
            } else {
                seen = true;
                proof { w = k as int; }
            }
        }
        k += 1;
    }
    assert(seen && w == xi);
    let ghost row_w = w;

    // column
    seen = false;
    k = 0;
    while k < SIZE
        invariant
            x < 9,
            y < 9,
            xi == x as int,
            yi == y as int,
            x == last_play.0,
            y == last_play.1,
            k <= 9,
            last_play_value == board.tile(xi, yi),
            forall|x2: int| 0 <= x2 < 9 && x2 != xi ==> #[trigger] board.tile(x2, yi) != last_play_value,
            seen ==> 0 <= w < k && board.tile(xi, w) == last_play_value,
            forall|y2: int| 0 <= y2 < k && (!seen || y2 != w) ==> #[trigger] board.tile(xi, y2) != last_play_value,
        decreases 9 - k,
    {
        if board.get_tile((x, k)) == last_play_value {
            if seen {
                assert(!unique_at(*board, xi, yi)) by {
                    if w != yi {
                        assert(board.tile(xi, w) == board.tile(xi, yi));
                    } else {
                        assert(board.tile(xi, k as int) == board.tile(xi, yi));
                    }
                }
                return false;
            } else {
                seen = true;
                proof { w = k as int; }
            }
        }
        k += 1;
    }
    assert(seen && w == yi);

    // box
    let box_x = x - x % 3;
    let box_y = y - y % 3;
    let ghost mut wx: int = 0;
    seen = false;
    let mut i: usize = 0;
    while i < 3
        invariant
            x < 9,
            y < 9,
            xi == x as int,
            yi == y as int,
            x == last_play.0,
            y == last_play.1,
            box_x == x - x % 3,
            box_y == y - y % 3,
            i <= 3,
            last_play_value == board.tile(xi, yi),
            forall|x2: int| 0 <= x2 < 9 && x2 != xi ==> #[trigger] board.tile(x2, yi) != last_play_value,
            forall|y2: int| 0 <= y2 < 9 && y2 != yi ==> #[trigger] board.tile(xi, y2) != last_play_value,
            seen ==> box_x <= wx < box_x + 3 && box_y <= w < box_y + i && board.tile(wx, w) == last_play_value,
            forall|x2: int, y2: int|
                box_x <= x2 < box_x + 3 && box_y <= y2 < box_y + i && (!seen || x2 != wx || y2 != w)
                    ==> #[trigger] board.tile(x2, y2) != last_play_value,
        decreases 3 - i,
    {
        let mut j: usize = 0;
        while j < 3
            invariant
                x < 9,
                y < 9,
                xi == x as int,
                yi == y as int,
                x == last_play.0,
                y == last_play.1,
                box_x == x - x % 3,
                box_y == y - y % 3,
                i < 3,
                j <= 3,
                last_play_value == board.tile(xi, yi),
                forall|x2: int| 0 <= x2 < 9 && x2 != xi ==> #[trigger] board.tile(x2, yi) != last_play_value,
                forall|y2: int| 0 <= y2 < 9 && y2 != yi ==> #[trigger] board.tile(xi, y2) != last_play_value,
                seen ==> box_x <= wx < box_x + 3 && box_y <= w < box_y + i + 1 && board.tile(wx, w) == last_play_value,
                seen ==> w < box_y + i || wx < box_x + j,
                forall|x2: int, y2: int|
                    box_x <= x2 < box_x + 3 && box_y <= y2 < box_y + i && (!seen || x2 != wx || y2 != w)
                        ==> #[trigger] board.tile(x2, y2) != last_play_value,
                forall|x2: int|
                    box_x <= x2 < box_x + j && (!seen || x2 != wx || box_y + i != w)
                        ==> #[trigger] board.tile(x2, box_y + i) != last_play_value,
            decreases 3 - j,
        {
            let cx = box_x + j;
            let cy = box_y + i;
            if board.get_tile((cx, cy)) == last_play_value {
                if seen {
                    proof {
                        lemma_box_range(xi, wx);
                        lemma_box_range(yi, w);
                        lemma_box_range(xi, cx as int);
                        lemma_box_range(yi, cy as int);
                    }
                    assert(!unique_at(*board, xi, yi)) by {
                        if wx != xi || w != yi {
                            assert(board.tile(wx, w) == board.tile(xi, yi));
                        } else {
                            assert(board.tile(cx as int, cy as int) == board.tile(xi, yi));
                        }
                    }
                    return false;
                } else {
                    seen = true;
                    proof {
                        wx = cx as int;
                        w = cy as int;
                    }
                }
            }
            j += 1;
        }
        i += 1;
    }
    proof {
        lemma_box_range(xi, xi);
        lemma_box_range(yi, yi);
    }
    assert(seen && wx == xi && w == yi);
    assert forall|x2: int, y2: int|
        0 <= x2 < 9 && 0 <= y2 < 9 && same_group(xi, yi, x2, y2) && !(x2 == xi && y2 == yi)
            implies #[trigger] board.tile(x2, y2) != board.tile(xi, yi) by {
        lemma_box_range(xi, x2);
        lemma_box_range(yi, y2);
    }
    true
}

/// The positions `e[i..]` are all empty in `b`.
pub open spec fn tail_empty(b: Board, e: Seq<TilePointer>, i: int) -> bool {
    forall|j: int| i <= j < e.len() ==> (#[trigger] cell_at(b, e[j])) is None
}

/// `b2` is `b` with the cell at `p` set to `t`.
spec fn with_cell(b: Board, b2: Board, p: TilePointer, t: Tile) -> bool {
    forall|x: int, y: int|
        0 <= x < 9 && 0 <= y < 9 ==> #[trigger] b2.tile(x, y) == if x == p.0 && y == p.1 {
            t
        } else {
            b.tile(x, y)
        }
}

/// A completion of `b` that holds `d` at `e[i]` is a completion of `b2`, where `b2` already holds it.
proof fn lemma_narrow(b: Board, b2: Board, g: Board, e: Seq<TilePointer>, i: int, d: u32)
    requires
        list_ok(e),
        0 <= i < e.len(),
        with_cell(b, b2, e[i], Some(d)),
        completes(b, g, e, i),
        cell_at(g, e[i]) == Some(d),
    ensures
        completes(b2, g, e, i + 1),
{
    let p = e[i];
    assert forall|x: int, y: int|
        0 <= x < 9 && 0 <= y < 9 && #[trigger] g.tile(x, y) != b2.tile(x, y) implies in_tail(e, i + 1, x, y) by {
        if x == p.0 && y == p.1 {
        } else {
            assert(g.tile(x, y) != b.tile(x, y));
            assert(in_tail(e, i, x, y));
            let j = choose|j: int| i <= j < e.len() && #[trigger] e[j] == (x as usize, y as usize);
            assert(j != i);
        }
    }
}

/// A completion of `b2` past `e[i]` is a completion of `b` from `e[i]` on, holding `d` there.
proof fn lemma_widen(b: Board, b2: Board, f: Board, e: Seq<TilePointer>, i: int, d: u32)
    requires
        list_ok(e),
        0 <= i < e.len(),
        with_cell(b, b2, e[i], Some(d)),
        completes(b2, f, e, i + 1),
    ensures
        completes(b, f, e, i),
        cell_at(f, e[i]) == Some(d),
{
    let p = e[i];
    assert forall|x: int, y: int|
        0 <= x < 9 && 0 <= y < 9 && #[trigger] f.tile(x, y) != b.tile(x, y) implies in_tail(e, i, x, y) by {
        if x == p.0 && y == p.1 {
            assert(e[i] == (x as usize, y as usize));
        } else {
            assert(f.tile(x, y) != b2.tile(x, y));
            let j = choose|j: int| i + 1 <= j < e.len() && #[trigger] e[j] == (x as usize, y as usize);
            assert(e[j] == (x as usize, y as usize));
        }
    }
    if cell_at(f, p) != Some(d) {
        assert(f.tile(p.0 as int, p.1 as int) != b2.tile(p.0 as int, p.1 as int));
        let j = choose|j: int| i + 1 <= j < e.len() && #[trigger] e[j] == (p.0, p.1);
        assert(e[j] == e[i]);
    }
}

/// Where `d` at `e[i]` clashes with a cell of `b`, no completion of `b` holds `d` there.
proof fn lemma_conflict(b: Board, b2: Board, g: Board, e: Seq<TilePointer>, i: int, d: u32)
    requires
        list_ok(e),
        0 <= i < e.len(),
        tail_empty(b, e, i),
        with_cell(b, b2, e[i], Some(d)),
        !unique_at(b2, e[i].0 as int, e[i].1 as int),
        completes(b, g, e, i),
    ensures
        cell_at(g, e[i]) != Some(d),
{
    let p = e[i];
    let px = p.0 as int;
    let py = p.1 as int;
    let (qx, qy) = choose|qx: int, qy: int|
        0 <= qx < 9 && 0 <= qy < 9 && same_group(px, py, qx, qy) && !(qx == px && qy == py)
            && #[trigger] b2.tile(qx, qy) == b2.tile(px, py);
    assert(b.tile(qx, qy) == Some(d));
    if in_tail(e, i, qx, qy) {
        let j = choose|j: int| i <= j < e.len() && #[trigger] e[j] == (qx as usize, qy as usize);
        assert(cell_at(b, e[j]) is None);
    }
    assert(g.tile(qx, qy) == Some(d));
    if cell_at(g, p) == Some(d) {
        assert(placed(g, e, i));
        assert(g.tile(qx, qy) != g.tile(px, py));
    }
}

/// Placing a digit that clashes with nothing at `e[i]` keeps the search's preconditions one step further.
proof fn lemma_advance(b: Board, b2: Board, e: Seq<TilePointer>, i: int, d: u32)
    requires
        list_ok(e),
        0 <= i < e.len(),
        1 <= d <= 9,
        tail_empty(b, e, i),
        forall|j: int| 0 <= j < i ==> #[trigger] placed(b, e, j),
        with_cell(b, b2, e[i], Some(d)),
        unique_at(b2, e[i].0 as int, e[i].1 as int),
    ensures
        tail_empty(b2, e, i + 1),
        forall|j: int| 0 <= j < i + 1 ==> #[trigger] placed(b2, e, j),
{
    let p = e[i];
    let px = p.0 as int;
    let py = p.1 as int;
    assert forall|j: int| i + 1 <= j < e.len() implies (#[trigger] cell_at(b2, e[j])) is None by {
        assert(e[j] != e[i]);
        assert(cell_at(b, e[j]) is None);
    }
    assert forall|j: int| 0 <= j < i + 1 implies #[trigger] placed(b2, e, j) by {
        if j < i {
            let q = e[j];
            let qx = q.0 as int;
            let qy = q.1 as int;
            assert(q != p);
            assert(placed(b, e, j));
            assert(b2.tile(qx, qy) == b.tile(qx, qy));
            assert forall|rx: int, ry: int|
                0 <= rx < 9 && 0 <= ry < 9 && same_group(qx, qy, rx, ry) && !(rx == qx && ry == qy)
                    implies #[trigger] b2.tile(rx, ry) != b2.tile(qx, qy) by {
                if rx == px && ry == py {
                    assert(same_group(px, py, qx, qy));
                    assert(b2.tile(qx, qy) != b2.tile(px, py));
                } else {
                    assert(b.tile(rx, ry) != b.tile(qx, qy));
                }
            }
        }
    }
}

/// Fills the empty positions `empty_fields[current_index..]` one after another, trying the digits
/// in ascending order and undoing a placement whose continuation fails. On success the board is
/// the first completion in that order; on failure it is left as it was.
pub fn solve_loop(board: &mut Board, empty_fields: &[TilePointer], current_index: usize) -> (r: bool)
    requires
        list_ok(empty_fields@),
        current_index <= empty_fields@.len(),
        tail_empty(*old(board), empty_fields@, current_index as int),
        forall|j: int| 0 <= j < current_index ==> #[trigger] placed(*old(board), empty_fields@, j),
    ensures
        r ==> completes(*old(board), *final(board), empty_fields@, current_index as int),
        r ==> forall|g: Board|
            completes(*old(board), g, empty_fields@, current_index as int) ==> !lex_lt(
                g,
                *final(board),
                empty_fields@,
                current_index as int,
            ),
        !r ==> same_tiles(*final(board), *old(board)),
        !r ==> forall|g: Board| !completes(*old(board), g, empty_fields@, current_index as int),
    decreases empty_fields@.len() - current_index,
{
    let ghost e = empty_fields@;
    let ghost i = current_index as int;
    let ghost b0 = *board;
    let n = empty_fields.len();
    if current_index == n {
        return true;
    }
    let current = empty_fields[current_index];
    assert forall|g: Board| completes(b0, g, e, i) implies 1 <= #[trigger] value_of(cell_at(g, current)) by {
        assert(placed(g, e, i));
    }
    let mut value: u32 = 1;
    while value <= 9
        invariant
            1 <= value <= 10,
            e == empty_fields@,
            i == current_index as int,
            n == empty_fields@.len(),
            current_index < n,
            b0 == *old(board),
            list_ok(e),
            0 <= i < e.len(),
            current == e[i],
            tail_empty(b0, e, i),
            forall|j: int| 0 <= j < i ==> #[trigger] placed(b0, e, j),
            forall|x: int, y: int|
                0 <= x < 9 && 0 <= y < 9 && !(x == current.0 && y == current.1) ==> #[trigger] board.tile(x, y)
                    == b0.tile(x, y),
            forall|g: Board| completes(b0, g, e, i) ==> value <= #[trigger] value_of(cell_at(g, current)),
        decreases 10 - value,
    {
        board.set_tile(current, Some(value));
        let ghost b1 = *board;
        assert(with_cell(b0, b1, current, Some(value)));
        if is_valid(board, &current) {
            proof {
                lemma_advance(b0, b1, e, i, value);
            }
            if solve_loop(board, empty_fields, current_index + 1) {
                proof {
                    let f = *board;
                    lemma_widen(b0, b1, f, e, i, value);
                    assert forall|g: Board| completes(b0, g, e, i) implies !lex_lt(g, f, e, i) by {
                        if lex_lt(g, f, e, i) {
                            let k = choose|k: int|
                                i <= k < e.len() && (forall|j: int| i <= j < k ==> #[trigger] cell_at(g, e[j]) == cell_at(f, e[j]))
                                    && #[trigger] value_of(cell_at(g, e[k])) < value_of(cell_at(f, e[k]));
                            if k == i {
                                assert(value_of(cell_at(g, current)) >= value);
                            } else {
                                assert(cell_at(g, e[i]) == cell_at(f, e[i]));
                                lemma_narrow(b0, b1, g, e, i, value);
                                assert(lex_lt(g, f, e, i + 1));
                            }
                        }
                    }
                }
                return true;
            } else {
                proof {
                    assert forall|g: Board| completes(b0, g, e, i) implies value + 1 <= #[trigger] value_of(
                        cell_at(g, current),
                    ) by {
                        assert(placed(g, e, i));
                        if cell_at(g, current) == Some(value) {
                            lemma_narrow(b0, b1, g, e, i, value);
                        }
                    }
                }
                board.set_tile(current, None);
            }
        } else {
            proof {
                assert forall|g: Board| completes(b0, g, e, i) implies value + 1 <= #[trigger] value_of(
                    cell_at(g, current),
                ) by {
                    assert(placed(g, e, i));
                    lemma_conflict(b0, b1, g, e, i, value);
                }
            }
        }
        value += 1;
    }
    board.set_tile(current, None);
    proof {
        assert(cell_at(b0, e[i]) is None);
        assert forall|g: Board| !completes(b0, g, e, i) by {
            if completes(b0, g, e, i) {
                assert(placed(g, e, i));
                assert(value_of(cell_at(g, current)) >= 10);
            }
        }
    }
    false
}

/// The empty cells of row `y` left of column `x`, from left to right.
pub open spec fn empties_in_row(b: Board, y: int, x: int) -> Seq<TilePointer>
    decreases x,
{
    if x <= 0 {
        Seq::empty()
    } else {
        let s = empties_in_row(b, y, x - 1);
        if b.tile(x - 1, y) is None {
            s.push(((x - 1) as usize, y as usize))
        } else {
            s
        }
    }
}

/// The empty cells of the rows above row `y`, in row-major order.
pub open spec fn empties_before(b: Board, y: int) -> Seq<TilePointer>
    decreases y,
{
    if y <= 0 {
        Seq::empty()
    } else {
        empties_before(b, y - 1) + empties_in_row(b, y - 1, 9)
    }
}

/// The empty cells of `b` in row-major order: the order in which the search fills them.
pub open spec fn empty_cells(b: Board) -> Seq<TilePointer> {
    empties_before(b, 9)
}

/// `f` is a solution of `b`, and no solution of `b` comes before it in the search order.
pub open spec fn is_first_solution(b: Board, f: Board) -> bool {
    &&& completes(b, f, empty_cells(b), 0)
    &&& forall|g: Board| completes(b, g, empty_cells(b), 0) ==> !lex_lt(g, f, empty_cells(b), 0)
}

/// No board fills the empty cells of `b` with digits that each occur once in their groups.
pub open spec fn unsolvable(b: Board) -> bool {
    forall|g: Board| !completes(b, g, empty_cells(b), 0)
}

/// What solving `b` returns: its first solution, or `Unsolvable` when there is none.
pub open spec fn solve_outcome(b: Board, r: Result<Board, SolveError>) -> bool {
    match r {
        Ok(f) => is_first_solution(b, f),
        Err(err) => err == SolveError::Unsolvable && unsolvable(b),
    }
}

proof fn lemma_row_empties(b: Board, y: int, x: int)
    requires
        0 <= y < 9,
        0 <= x <= 9,
    ensures
        ({
            let s = empties_in_row(b, y, x);
            &&& forall|j: int|
                0 <= j < s.len() ==> (#[trigger] s[j]).0 < x && s[j].1 == y && cell_at(b, s[j]) is None
            &&& forall|j: int, k: int| 0 <= j < k < s.len() ==> (#[trigger] s[j]).0 < (#[trigger] s[k]).0
            &&& forall|x2: int|
                0 <= x2 < x && (#[trigger] b.tile(x2, y)) is None ==> exists|j: int|
                    0 <= j < s.len() && #[trigger] s[j] == (x2 as usize, y as usize)
        }),
    decreases x,
{
    if x > 0 {
        lemma_row_empties(b, y, x - 1);
        let s0 = empties_in_row(b, y, x - 1);
        let s = empties_in_row(b, y, x);
        assert forall|x2: int|
            0 <= x2 < x && (#[trigger] b.tile(x2, y)) is None implies exists|j: int|
                0 <= j < s.len() && #[trigger] s[j] == (x2 as usize, y as usize) by {
            if x2 < x - 1 {
                let j = choose|j: int| 0 <= j < s0.len() && #[trigger] s0[j] == (x2 as usize, y as usize);
                assert(s[j] == s0[j]);
            } else {
                assert(s[s.len() - 1] == (x2 as usize, y as usize));
            }
        }
    }
}

proof fn lemma_empties(b: Board, y: int)
    requires
        0 <= y <= 9,
    ensures
        ({
            let s = empties_before(b, y);
            &&& forall|j: int|
                0 <= j < s.len() ==> (#[trigger] s[j]).0 < 9 && s[j].1 < y && cell_at(b, s[j]) is None
            &&& forall|j: int, k: int|
                0 <= j < k < s.len() ==> (#[trigger] s[j]).1 < (#[trigger] s[k]).1 || (s[j].1 == s[k].1
                    && s[j].0 < s[k].0)
            &&& forall|x2: int, y2: int|
                0 <= x2 < 9 && 0 <= y2 < y && (#[trigger] b.tile(x2, y2)) is None ==> exists|j: int|
                    0 <= j < s.len() && #[trigger] s[j] == (x2 as usize, y2 as usize)
        }),
    decreases y,
{
    if y > 0 {
        lemma_empties(b, y - 1);
        lemma_row_empties(b, y - 1, 9);
        let s0 = empties_before(b, y - 1);
        let r = empties_in_row(b, y - 1, 9);
        let s = empties_before(b, y);
        assert(s == s0 + r);
        assert forall|j: int| 0 <= j < s.len() implies (#[trigger] s[j]).0 < 9 && s[j].1 < y && cell_at(
            b,
            s[j],
        ) is None by {
            if j >= s0.len() {
                assert(s[j] == r[j - s0.len()]);
            }
        }
        assert forall|j: int, k: int| 0 <= j < k < s.len() implies (#[trigger] s[j]).1 < (
        #[trigger] s[k]).1 || (s[j].1 == s[k].1 && s[j].0 < s[k].0) by {
            if k >= s0.len() {
                assert(s[k] == r[k - s0.len()]);
                if j >= s0.len() {
                    assert(s[j] == r[j - s0.len()]);
                }
            }
        }
        assert forall|x2: int, y2: int|
            0 <= x2 < 9 && 0 <= y2 < y && (#[trigger] b.tile(x2, y2)) is None implies exists|j: int|
                0 <= j < s.len() && #[trigger] s[j] == (x2 as usize, y2 as usize) by {
            if y2 < y - 1 {
                let j = choose|j: int| 0 <= j < s0.len() && #[trigger] s0[j] == (x2 as usize, y2 as usize);
                assert(s[j] == s0[j]);
            } else {
                let j = choose|j: int| 0 <= j < r.len() && #[trigger] r[j] == (x2 as usize, y2 as usize);
                assert(s[s0.len() + j] == r[j]);
            }
        }
    }
}

/// The empty cells of `b` are on the board, each listed once, all empty, and every empty cell is listed.
pub proof fn lemma_empty_cells(b: Board)
    ensures
        list_ok(empty_cells(b)),
        tail_empty(b, empty_cells(b), 0),
        forall|x: int, y: int|
            0 <= x < 9 && 0 <= y < 9 && (#[trigger] b.tile(x, y)) is None ==> in_tail(empty_cells(b), 0, x, y),
{
    lemma_empties(b, 9);
    let s = empty_cells(b);
    assert forall|j: int, k: int| 0 <= j < s.len() && 0 <= k < s.len() && j != k implies #[trigger] s[j]
        != #[trigger] s[k] by {
        if j < k {
            assert(s[j].1 < s[k].1 || (s[j].1 == s[k].1 && s[j].0 < s[k].0));
        } else {
            assert(s[k].1 < s[j].1 || (s[k].1 == s[j].1 && s[k].0 < s[j].0));
        }
    }
    assert forall|x: int, y: int|
        0 <= x < 9 && 0 <= y < 9 && (#[trigger] b.tile(x, y)) is None implies in_tail(s, 0, x, y) by {
        let j = choose|j: int| 0 <= j < s.len() && #[trigger] s[j] == (x as usize, y as usize);
    }
}

proof fn lemma_same_base(b1: Board, b2: Board, g: Board, e: Seq<TilePointer>, i: int)
    requires
        same_tiles(b1, b2),
    ensures
        completes(b1, g, e, i) == completes(b2, g, e, i),
{
    if completes(b1, g, e, i) {
        assert forall|x: int, y: int|
            0 <= x < 9 && 0 <= y < 9 && #[trigger] g.tile(x, y) != b2.tile(x, y) implies in_tail(e, i, x, y) by {
            assert(g.tile(x, y) != b1.tile(x, y));
        }
    }
    if completes(b2, g, e, i) {
        assert forall|x: int, y: int|
            0 <= x < 9 && 0 <= y < 9 && #[trigger] g.tile(x, y) != b1.tile(x, y) implies in_tail(e, i, x, y) by {
            assert(g.tile(x, y) != b2.tile(x, y));
        }
    }
}

proof fn lemma_solution_cells(b: Board, f: Board)
    requires
        completes(b, f, empty_cells(b), 0),
    ensures
        b.cells_ok() ==> f.cells_ok(),
{
    let e = empty_cells(b);
    assert forall|x: int, y: int| 0 <= x < 9 && 0 <= y < 9 && b.cells_ok() implies is_cell(
        #[trigger] f.tile(x, y),
    ) by {
        if f.tile(x, y) != b.tile(x, y) {
            let j = choose|j: int| 0 <= j < e.len() && #[trigger] e[j] == (x as usize, y as usize);
            assert(placed(f, e, j));
        }
    }
}

/// Solves `board`: the empty cells are filled in row-major order, each with the smallest digit that
/// still leads to a solution. The input is left as it is.
pub fn solve(board: &Board) -> (r: Result<Board, SolveError>)
    ensures
        solve_outcome(*board, r),
        board.cells_ok() && r is Ok ==> r->Ok_0.cells_ok(),
{
    let ghost b = *board;
    let ghost e = empty_cells(b);
    let mut work = board.clone();
    let mut empty_fields: Vec<TilePointer> = Vec::new();
    let mut y: usize = 0;
    while y < SIZE
        invariant
            y <= 9,
            empty_fields@ == empties_before(b, y as int),
            b == *board,
        decreases 9 - y,
    {
        let mut x: usize = 0;
        while x < SIZE
            invariant
                y < 9,
                x <= 9,
                empty_fields@ == empties_before(b, y as int) + empties_in_row(b, y as int, x as int),
                b == *board,
            decreases 9 - x,
        {
            let tile = board.get_tile((x, y));
            if tile.is_none() {
                empty_fields.push((x, y));
            }
            assert(empty_fields@ =~= empties_before(b, y as int) + empties_in_row(b, y as int, x + 1));
            x += 1;
        }
        assert(empty_fields@ =~= empties_before(b, y + 1));
        y += 1;
    }
    proof {
        lemma_empty_cells(b);
        assert forall|g: Board| completes(b, g, e, 0) == completes(work, g, e, 0) by {
            lemma_same_base(b, work, g, e, 0);
        }
        assert(tail_empty(work, e, 0)) by {
            assert forall|j: int| 0 <= j < e.len() implies (#[trigger] cell_at(work, e[j])) is None by {
                assert(cell_at(b, e[j]) is None);
            }
        }
    }
    if empty_fields.len() == 0 {
        return Ok(work);
    }
    if solve_loop(&mut work, empty_fields.as_slice(), 0) {
        proof {
            lemma_solution_cells(b, work);
        }
        Ok(work)
    } else {
        Err(SolveError::Unsolvable)
    }
}

/// The filled cells of `b` hold digits that occur once in their row, column and box.
pub open spec fn givens_consistent(b: Board) -> bool {
    forall|x: int, y: int|
        0 <= x < 9 && 0 <= y < 9 && (#[trigger] b.tile(x, y)) is Some ==> is_digit(b.tile(x, y))
            && unique_at(b, x, y)
}

/// Every cell of the board holds a digit, and no two cells of one row, column or box hold the
/// same one: each group of nine holds each digit from 1 to 9 once.
pub open spec fn is_complete_and_valid(f: Board) -> bool {
    forall|x: int, y: int|
        0 <= x < 9 && 0 <= y < 9 ==> is_digit(#[trigger] f.tile(x, y)) && unique_at(f, x, y)
}

/// A solution keeps every filled cell of the input: only empty cells change.
pub proof fn lemma_givens_kept(b: Board, f: Board)
    requires
        solve_outcome(b, Ok(f)),
    ensures
        forall|x: int, y: int|
            0 <= x < 9 && 0 <= y < 9 && (#[trigger] b.tile(x, y)) is Some ==> f.tile(x, y) == b.tile(x, y),
{
    lemma_empty_cells(b);
    let e = empty_cells(b);
    assert forall|x: int, y: int|
        0 <= x < 9 && 0 <= y < 9 && (#[trigger] b.tile(x, y)) is Some implies f.tile(x, y) == b.tile(x, y) by {
        if f.tile(x, y) != b.tile(x, y) {
            let j = choose|j: int| 0 <= j < e.len() && #[trigger] e[j] == (x as usize, y as usize);
            assert(cell_at(b, e[j]) is None);
        }
    }
}

/// Solving a board whose filled cells do not clash gives a complete board in which every row,
/// column and box holds distinct digits.
pub proof fn lemma_solution_valid(b: Board, f: Board)
    requires
        givens_consistent(b),
        solve_outcome(b, Ok(f)),
    ensures
        is_complete_and_valid(f),
{
    lemma_empty_cells(b);
    let e = empty_cells(b);
    assert forall|x: int, y: int| 0 <= x < 9 && 0 <= y < 9 implies is_digit(#[trigger] f.tile(x, y))
        && unique_at(f, x, y) by {
        if in_tail(e, 0, x, y) {
            let j = choose|j: int| 0 <= j < e.len() && #[trigger] e[j] == (x as usize, y as usize);
            assert(placed(f, e, j));
        } else {
            assert(f.tile(x, y) == b.tile(x, y));
            assert(b.tile(x, y) is Some);
            assert forall|x2: int, y2: int|
                0 <= x2 < 9 && 0 <= y2 < 9 && same_group(x, y, x2, y2) && !(x2 == x && y2 == y)
                    implies #[trigger] f.tile(x2, y2) != f.tile(x, y) by {
                if in_tail(e, 0, x2, y2) {
                    let k = choose|k: int| 0 <= k < e.len() && #[trigger] e[k] == (x2 as usize, y2 as usize);
                    assert(placed(f, e, k));
                    assert(same_group(x2, y2, x, y));
                } else {
                    assert(f.tile(x2, y2) == b.tile(x2, y2));
                }
            }
        }
    }
}

proof fn lemma_equal_prefix(b: Board, f1: Board, f2: Board, e: Seq<TilePointer>, m: int)
    requires
        0 <= m <= e.len(),
        completes(b, f1, e, 0),
        completes(b, f2, e, 0),
        !lex_lt(f1, f2, e, 0),
        !lex_lt(f2, f1, e, 0),
    ensures
        forall|j: int| 0 <= j < m ==> #[trigger] cell_at(f1, e[j]) == cell_at(f2, e[j]),
    decreases m,
{
    if m > 0 {
        lemma_equal_prefix(b, f1, f2, e, m - 1);
        let k = m - 1;
        assert(placed(f1, e, k));
        assert(placed(f2, e, k));
        if cell_at(f1, e[k]) != cell_at(f2, e[k]) {
            if value_of(cell_at(f1, e[k])) < value_of(cell_at(f2, e[k])) {
                assert(lex_lt(f1, f2, e, 0));
            } else {
                assert(lex_lt(f2, f1, e, 0));
            }
        }
    }
}

/// Solving is deterministic: two results of solving the same board are the same board.
pub proof fn lemma_solve_deterministic(b: Board, r1: Result<Board, SolveError>, r2: Result<Board, SolveError>)
    requires
        solve_outcome(b, r1),
        solve_outcome(b, r2),
    ensures
        r1 is Ok <==> r2 is Ok,
        r1 is Ok ==> r1->Ok_0@ == r2->Ok_0@,
        r1 is Err ==> r1 == r2,
{
    let e = empty_cells(b);
    if r1 is Ok && r2 is Ok {
        let f1 = r1->Ok_0;
        let f2 = r2->Ok_0;
        lemma_equal_prefix(b, f1, f2, e, e.len() as int);
        assert forall|x: int, y: int| 0 <= x < 9 && 0 <= y < 9 implies #[trigger] f1.tile(x, y) == f2.tile(x, y) by {
            if in_tail(e, 0, x, y) {
                let j = choose|j: int| 0 <= j < e.len() && #[trigger] e[j] == (x as usize, y as usize);
                assert(cell_at(f1, e[j]) == cell_at(f2, e[j]));
            } else {
                if f1.tile(x, y) != b.tile(x, y) {
                    assert(in_tail(e, 0, x, y));
                }
                if f2.tile(x, y) != b.tile(x, y) {
                    assert(in_tail(e, 0, x, y));
                }
            }
        }
        assert(f1@ =~= f2@) by {
            assert forall|y: int| 0 <= y < 9 implies #[trigger] f1@[y] =~= f2@[y] by {}
        }
    } else if r1 is Ok {
        assert(!completes(b, r1->Ok_0, e, 0));
    } else if r2 is Ok {
        assert(!completes(b, r2->Ok_0, e, 0));
    }
}

/// A board without empty cells is returned as it is, clashes included: nothing is placed, so nothing
/// is checked.
pub proof fn lemma_full_board_returned(b: Board, r: Result<Board, SolveError>)
    requires
        forall|x: int, y: int| 0 <= x < 9 && 0 <= y < 9 ==> (#[trigger] b.tile(x, y)) is Some,
        solve_outcome(b, r),
    ensures
        r is Ok,
        r->Ok_0@ == b@,
{
    lemma_empty_cells(b);
    let e = empty_cells(b);
    if e.len() > 0 {
        assert(cell_at(b, e[0]) is None);
    }
    assert(completes(b, b, e, 0));
    if r is Ok {
        let f = r->Ok_0;
        assert forall|x: int, y: int| 0 <= x < 9 && 0 <= y < 9 implies #[trigger] f.tile(x, y) == b.tile(x, y) by {
            if f.tile(x, y) != b.tile(x, y) {
                assert(in_tail(e, 0, x, y));
            }
        }
        assert(f@ =~= b@) by {
            assert forall|y: int| 0 <= y < 9 implies #[trigger] f@[y] =~= b@[y] by {}
        }
    }
}

proof fn lemma_cell_placed(b: Board, g: Board, x: int, y: int)
    requires
        0 <= x < 9,
        0 <= y < 9,
        b.tile(x, y) is None,
        completes(b, g, empty_cells(b), 0),
    ensures
        is_digit(g.tile(x, y)),
        unique_at(g, x, y),
{
    lemma_empty_cells(b);
    let e = empty_cells(b);
    let j = choose|j: int| 0 <= j < e.len() && #[trigger] e[j] == (x as usize, y as usize);
    assert(placed(g, e, j));
}

proof fn lemma_distinct_within(s: Seq<int>, t: Set<int>)
    requires
        s.no_duplicates(),
        t.finite(),
        forall|j: int| 0 <= j < s.len() ==> t.contains(#[trigger] s[j]),
    ensures
        s.len() <= t.len(),
{
    s.unique_seq_to_set();
    assert forall|v: int| s.to_set().contains(v) implies t.contains(v) by {
        let j = choose|j: int| 0 <= j < s.len() && s[j] == v;
    }
    lemma_len_subset(s.to_set(), t);
}

/// In a row of a solution that the input left empty, every digit occurs.
proof fn lemma_row_has_digit(b: Board, g: Board, y: int, d: int)
    requires
        0 <= y < 9,
        1 <= d <= 9,
        forall|x: int| 0 <= x < 9 ==> (#[trigger] b.tile(x, y)) is None,
        completes(b, g, empty_cells(b), 0),
    ensures
        exists|x: int| 0 <= x < 9 && value_of(#[trigger] g.tile(x, y)) == d,
{
    if !exists|x: int| 0 <= x < 9 && value_of(#[trigger] g.tile(x, y)) == d {
        let s = Seq::new(9, |x: int| value_of(g.tile(x, y)));
        let t = set_int_range(1, 10).remove(d);
        lemma_int_range(1, 10);
        vstd::set::axiom_set_remove_len(set_int_range(1, 10), d);
        assert forall|i: int| 0 <= i < 9 implies is_digit(#[trigger] g.tile(i, y)) && unique_at(g, i, y) by {
            lemma_cell_placed(b, g, i, y);
        }
        assert forall|i: int, j: int| 0 <= i < s.len() && 0 <= j < s.len() && i != j implies s[i] != s[j] by {
            assert(g.tile(j, y) != g.tile(i, y));
            assert(is_digit(g.tile(j, y)) && is_digit(g.tile(i, y)));
        }
        assert forall|j: int| 0 <= j < s.len() implies t.contains(#[trigger] s[j]) by {
            assert(is_digit(g.tile(j, y)));
        }
        lemma_distinct_within(s, t);
    }
}

/// A board holding one digit twice in a row, every other cell empty, has no solution: the
/// other eight rows would each need that digit in a column of its own, and only seven columns
/// are free of it.
pub proof fn lemma_row_clash_unsolvable(b: Board, r0: int, c1: int, c2: int)
    requires
        0 <= r0 < 9,
        0 <= c1 < 9,
        0 <= c2 < 9,
        c1 != c2,
        is_digit(b.tile(c1, r0)),
        b.tile(c2, r0) == b.tile(c1, r0),
        forall|x: int, y: int|
            0 <= x < 9 && 0 <= y < 9 && !(y == r0 && (x == c1 || x == c2)) ==> (#[trigger] b.tile(x, y)) is None,
    ensures
        unsolvable(b),
{
    let d = value_of(b.tile(c1, r0));
    assert forall|g: Board| !completes(b, g, empty_cells(b), 0) by {
        if completes(b, g, empty_cells(b), 0) {
            lemma_empty_cells(b);
            let e = empty_cells(b);
            if g.tile(c1, r0) != b.tile(c1, r0) {
                let j = choose|j: int| 0 <= j < e.len() && #[trigger] e[j] == (c1 as usize, r0 as usize);
                assert(cell_at(b, e[j]) is None);
            }
            if g.tile(c2, r0) != b.tile(c2, r0) {
                let j = choose|j: int| 0 <= j < e.len() && #[trigger] e[j] == (c2 as usize, r0 as usize);
                assert(cell_at(b, e[j]) is None);
            }
            // the row other than r0 that the k-th entry stands for
            let row_of = |k: int| if k < r0 { k } else { k + 1 };
            let col = |k: int| choose|x: int| 0 <= x < 9 && value_of(#[trigger] g.tile(x, row_of(k))) == d;
            assert forall|k: int| 0 <= k < 8 implies 0 <= #[trigger] col(k) < 9 && value_of(
                g.tile(col(k), row_of(k)),
            ) == d && is_digit(g.tile(col(k), row_of(k))) && unique_at(g, col(k), row_of(k)) by {
                let y = row_of(k);
                lemma_row_has_digit(b, g, y, d);
                lemma_cell_placed(b, g, col(k), y);
            }
            let s = Seq::new(8, |k: int| col(k));
            let t = set_int_range(0, 9).remove(c1).remove(c2);
            lemma_int_range(0, 9);
            vstd::set::axiom_set_remove_len(set_int_range(0, 9), c1);
            vstd::set::axiom_set_remove_len(set_int_range(0, 9).remove(c1), c2);
            assert forall|j: int| 0 <= j < s.len() implies t.contains(#[trigger] s[j]) by {
                let x = col(j);
                let y = row_of(j);
                assert(g.tile(x, y) == g.tile(c1, r0));
                if x == c1 {
                    assert(same_group(x, y, c1, r0));
                } else if x == c2 {
                    assert(same_group(x, y, c2, r0));
                }
            }
            assert forall|i: int, j: int| 0 <= i < s.len() && 0 <= j < s.len() && i != j implies s[i] != s[j] by {
                if col(i) == col(j) {
                    assert(g.tile(col(i), row_of(i)) == g.tile(col(j), row_of(j)));
                    assert(same_group(col(i), row_of(i), col(j), row_of(j)));
                }
            }
            lemma_distinct_within(s, t);
        }
    }
}

} // verus!
