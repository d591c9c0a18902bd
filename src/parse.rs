use vstd::prelude::*;

use crate::board::{construct_outcome, grid_text, is_cell, row_text, row_views, tile_char, Board, BoardError, Tile};

verus! {

/// The cell a character stands for: a digit from 1 to 9, or empty for any other character.
pub open spec fn char_tile(c: char) -> Tile {
    if '1' <= c <= '9' {
        Some((c as u32 - '0' as u32) as u32)
    } else {
        None
    }
}

/// The pieces of `s` between newlines; there is always at least one.
pub open spec fn split_lines(s: Seq<char>) -> Seq<Seq<char>>
    decreases s.len(),
{
    if s.len() == 0 {
        seq![Seq::empty()]
    } else {
        let r = split_lines(s.drop_last());
        if s.last() == '\n' {
            r.push(Seq::empty())
        } else {
            r.update(r.len() - 1, r.last().push(s.last()))
        }
    }
}

/// The lines of a board's text: a newline at the very end closes the last line.
pub open spec fn board_lines(s: Seq<char>) -> Seq<Seq<char>> {
    if s.len() > 0 && s.last() == '\n' {
        split_lines(s.drop_last())
    } else {
        split_lines(s)
    }
}

/// A line of characters read as a row of cells.
pub open spec fn tile_line(l: Seq<char>) -> Seq<Tile> {
    l.map_values(|c: char| char_tile(c))
}

/// Lines of characters read as rows of cells.
pub open spec fn tile_lines(ls: Seq<Seq<char>>) -> Seq<Seq<Tile>> {
    ls.map_values(|l: Seq<char>| tile_line(l))
}

/// The rows that the text `s` describes.
pub open spec fn parsed_rows(s: Seq<char>) -> Seq<Seq<Tile>> {
    tile_lines(board_lines(s))
}

proof fn lemma_split_lines_nonempty(s: Seq<char>)
    ensures
        split_lines(s).len() >= 1,
    decreases s.len(),
{
    if s.len() > 0 {
        lemma_split_lines_nonempty(s.drop_last());
    }
}

fn to_tile(c: char) -> (r: Tile)
    ensures
        r == char_tile(c),
        is_cell(r),
{
    if '1' <= c && c <= '9' {
        Some(c as u32 - '0' as u32)
    } else {
        None
    }
}

/// Reads a board from text: lines split at newlines, a final newline allowed, each character a
/// digit from 1 to 9 or, whatever else it is (`-`, `0`, a space), an empty cell.
pub fn parse_board(input_string: &str) -> (r: Result<Board, BoardError>)
    ensures
        construct_outcome(parsed_rows(input_string@), r),
        r is Ok ==> r->Ok_0.cells_ok(),
{
    let ghost s = input_string@;
    let n = input_string.unicode_len();
    let end = if n > 0 && input_string.get_char(n - 1) == '\n' {
        n - 1
    } else {
        n
    };
    let ghost t = s.take(end as int);
    assert(board_lines(s) == split_lines(t)) by {
        if n > 0 && s.last() == '\n' {
            assert(t =~= s.drop_last());
        } else {
            assert(t =~= s);
        }
    }
    let mut rows: Vec<Vec<Tile>> = Vec::new();
    let mut cur: Vec<Tile> = Vec::new();
    let mut i: usize = 0;
    proof {
        assert(s.take(0) =~= Seq::<char>::empty());
        assert(tile_line(Seq::<char>::empty()) =~= Seq::<Tile>::empty());
        assert(row_views(rows@).push(cur@) =~= tile_lines(split_lines(s.take(0))));
    }
    while i < end
        invariant
            s == input_string@,
            n == s.len(),
            end <= n,
            i <= end,
            row_views(rows@).push(cur@) == tile_lines(split_lines(s.take(i as int))),
            forall|y: int, x: int|
                0 <= y < rows@.len() && 0 <= x < rows@[y]@.len() ==> is_cell(#[trigger] rows@[y]@[x]),
            forall|x: int| 0 <= x < cur@.len() ==> is_cell(#[trigger] cur@[x]),
        decreases end - i,
    {
        let c = input_string.get_char(i);
        let ghost prev = s.take(i as int);
        let ghost rows0 = rows@;
        let ghost cur0 = cur@;
        let ghost old_lines = split_lines(prev);
        proof {
            assert(s.take(i + 1).drop_last() =~= prev);
            assert(s.take(i + 1).last() == c);
            lemma_split_lines_nonempty(prev);
            assert(row_views(rows0).len() == rows0.len());
            assert(row_views(rows0).push(cur0) == tile_lines(old_lines));
            assert(row_views(rows0).push(cur0).len() == rows0.len() + 1);
            assert(tile_lines(old_lines).len() == old_lines.len());
            assert(rows0.len() + 1 == old_lines.len());
            assert(row_views(rows0).push(cur0)[rows0.len() as int] == cur0);
            assert(cur0 == tile_line(old_lines.last()));
            assert forall|j: int| 0 <= j < rows0.len() implies rows0[j]@ == tile_line(
                #[trigger] old_lines[j],
            ) by {
                assert(row_views(rows0).push(cur0)[j] == tile_lines(old_lines)[j]);
            }
        }
        if c == '\n' {
            let done = cur;
            rows.push(done);
            cur = Vec::new();
            proof {
                let nl = old_lines.push(Seq::empty());
                assert(split_lines(s.take(i + 1)) == nl);
                assert(tile_line(Seq::<char>::empty()) =~= Seq::<Tile>::empty());
                assert(row_views(rows@).push(cur@) =~= tile_lines(nl));
            }
        } else {
            cur.push(to_tile(c));
            proof {
                let nl = old_lines.update(old_lines.len() - 1, old_lines.last().push(c));
                assert(split_lines(s.take(i + 1)) == nl);
                assert(tile_line(old_lines.last().push(c)) =~= cur0.push(char_tile(c)));
                assert(row_views(rows@).push(cur@) =~= tile_lines(nl));
            }
        }
        i += 1;
    }
    let last = cur;
    rows.push(last);
    assert(row_views(rows@) =~= parsed_rows(s));
    Board::new(rows)
}

proof fn lemma_split_append(t: Seq<char>, l: Seq<char>)
    requires
        forall|j: int| 0 <= j < l.len() ==> l[j] != '\n',
    ensures
        split_lines(t + l) == split_lines(t).update(
            split_lines(t).len() - 1,
            split_lines(t).last() + l,
        ),
    decreases l.len(),
{
    lemma_split_lines_nonempty(t);
    if l.len() == 0 {
        assert(t + l =~= t);
        assert(split_lines(t).last() + l =~= split_lines(t).last());
        assert(split_lines(t).update(split_lines(t).len() - 1, split_lines(t).last()) =~= split_lines(t));
    } else {
        let l0 = l.drop_last();
        lemma_split_append(t, l0);
        assert((t + l).drop_last() =~= t + l0);
        assert((t + l).last() == l.last());
        assert(l[l.len() - 1] != '\n');
        let sl = split_lines(t);
        let r = split_lines(t + l0);
        assert(r == sl.update(sl.len() - 1, sl.last() + l0));
        assert(r.len() == sl.len());
        assert(r.last() == sl.last() + l0);
        assert(split_lines(t + l) == r.update(r.len() - 1, r.last().push(l.last())));
        assert((sl.last() + l0).push(l.last()) =~= sl.last() + l);
        assert(split_lines(t + l) =~= split_lines(t).update(split_lines(t).len() - 1, split_lines(t).last() + l));
    }
}

/// The characters of a row of cells, without its newline.
spec fn row_chars(row: Seq<Tile>) -> Seq<char> {
    row.map_values(|t: Tile| tile_char(t))
}

proof fn lemma_split_grid(g: Seq<Seq<Tile>>)
    requires
        g.len() >= 1,
        forall|y: int, x: int| 0 <= y < g.len() && 0 <= x < g[y].len() ==> is_cell(#[trigger] g[y][x]),
    ensures
        split_lines(grid_text(g).drop_last()) =~= g.map_values(|r: Seq<Tile>| row_chars(r)),
    decreases g.len(),
{
    let g0 = g.drop_last();
    let r = g.last();
    let l = row_chars(r);
    assert forall|j: int| 0 <= j < l.len() implies l[j] != '\n' by {
        assert(is_cell(g[g.len() - 1][j]));
    }
    assert(grid_text(g) == grid_text(g0) + row_text(r));
    assert(grid_text(g).drop_last() =~= grid_text(g0) + l);
    lemma_split_append(grid_text(g0), l);
    if g0.len() == 0 {
        assert(grid_text(g0) =~= Seq::<char>::empty());
        assert(split_lines(Seq::<char>::empty()).last() + l =~= l);
    } else {
        lemma_split_grid(g0);
        let t0 = grid_text(g0);
        assert(t0 == grid_text(g0.drop_last()) + row_text(g0.last()));
        assert(t0.last() == '\n');
        assert(t0.drop_last().push('\n') =~= t0);
        assert(split_lines(t0) == split_lines(t0.drop_last()).push(Seq::<char>::empty()));
        assert(Seq::<char>::empty() + l =~= l);
    }
}

/// Rendering rows and parsing the text gives the same rows back: the text form of a board is
/// faithful, empty cells included.
pub proof fn lemma_parse_render(rows: Seq<Seq<Tile>>)
    requires
        rows.len() == 9,
        forall|y: int| 0 <= y < 9 ==> #[trigger] rows[y].len() == 9,
        forall|y: int, x: int| 0 <= y < 9 && 0 <= x < 9 ==> is_cell(#[trigger] rows[y][x]),
    ensures
        parsed_rows(grid_text(rows)) == rows,
{
    let t = grid_text(rows);
    assert(t == grid_text(rows.drop_last()) + row_text(rows.last()));
    assert(t.last() == '\n');
    lemma_split_grid(rows);
    let ls = rows.map_values(|r: Seq<Tile>| row_chars(r));
    assert forall|y: int| 0 <= y < 9 implies #[trigger] tile_line(ls[y]) =~= rows[y] by {
        assert forall|x: int| 0 <= x < 9 implies #[trigger] tile_line(ls[y])[x] == rows[y][x] by {
            assert(is_cell(rows[y][x]));
        }
    }
    assert(parsed_rows(t) =~= rows);
}

} // verus!
