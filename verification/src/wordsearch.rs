//! Word search over a rectangular character grid.
//!
//! One search counts how often the word XMAS appears, reading from any X in
//! any of the eight directions.  The other counts X-shaped crossings: an A
//! whose two diagonals each read MS or SM.

use vstd::prelude::*;

verus! {

/// The rows of the puzzle as character sequences.
pub open spec fn puzzle_view(p: Seq<Vec<char>>) -> Seq<Seq<char>> {
    p.map_values(|r: Vec<char>| r@)
}

/// The puzzle is non-empty and rectangular with width `w`.
pub open spec fn puzzle_wf(g: Seq<Seq<char>>, w: int) -> bool {
    &&& 0 < g.len()
    &&& 0 < w
    &&& g[0].len() == w
    &&& forall|i: int| 0 <= i < g.len() ==> (#[trigger] g[i]).len() == w
}

/// Reading from (i, j) along (di, dj) spells MAS in the three cells after
/// an X, all on the grid.
pub open spec fn mas_dir(g: Seq<Seq<char>>, w: int, i: int, j: int, di: int, dj: int) -> bool {
    &&& g[i][j] == 'X'
    &&& 0 <= i + 3 * di < g.len()
    &&& 0 <= j + 3 * dj < w
    &&& g[i + di][j + dj] == 'M'
    &&& g[i + 2 * di][j + 2 * dj] == 'A'
    &&& g[i + 3 * di][j + 3 * dj] == 'S'
}

/// How many of the eight directions spell XMAS from (i, j).
pub open spec fn xmas_at(g: Seq<Seq<char>>, w: int, i: int, j: int) -> int {
    (if mas_dir(g, w, i, j, 0, 1) { 1int } else { 0 })
        + (if mas_dir(g, w, i, j, 0, -1) { 1int } else { 0 })
        + (if mas_dir(g, w, i, j, -1, 0) { 1int } else { 0 })
        + (if mas_dir(g, w, i, j, 1, 0) { 1int } else { 0 })
        + (if mas_dir(g, w, i, j, -1, 1) { 1int } else { 0 })
        + (if mas_dir(g, w, i, j, -1, -1) { 1int } else { 0 })
        + (if mas_dir(g, w, i, j, 1, 1) { 1int } else { 0 })
        + (if mas_dir(g, w, i, j, 1, -1) { 1int } else { 0 })
}

/// A diagonal pair reads MS or SM.
pub open spec fn ms_pair(a: char, b: char) -> bool {
    (a == 'M' && b == 'S') || (a == 'S' && b == 'M')
}

/// The cell at (i, j) is the center of an X-shaped MAS crossing.
pub open spec fn x_mas_at(g: Seq<Seq<char>>, w: int, i: int, j: int) -> bool {
    &&& g[i][j] == 'A'
    &&& 0 < i < g.len() - 1
    &&& 0 < j < w - 1
    &&& ms_pair(g[i - 1][j - 1], g[i + 1][j + 1])
    &&& ms_pair(g[i - 1][j + 1], g[i + 1][j - 1])
}

/// The XMAS count over the first `t` cells of row `i`.
pub open spec fn xmas_row(g: Seq<Seq<char>>, w: int, i: int, t: int) -> int
    decreases t,
{
    if t <= 0 {
        0
    } else {
        xmas_row(g, w, i, t - 1) + xmas_at(g, w, i, t - 1)
    }
}

/// The XMAS count over the first `t` rows.
pub open spec fn xmas_total(g: Seq<Seq<char>>, w: int, t: int) -> int
    decreases t,
{
    if t <= 0 {
        0
    } else {
        xmas_total(g, w, t - 1) + xmas_row(g, w, t - 1, w)
    }
}

/// The crossing count over the first `t` cells of row `i`.
pub open spec fn x_mas_row(g: Seq<Seq<char>>, w: int, i: int, t: int) -> int
    decreases t,
{
    if t <= 0 {
        0
    } else {
        x_mas_row(g, w, i, t - 1) + if x_mas_at(g, w, i, t - 1) {
            1int
        } else {
            0
        }
    }
}

/// The crossing count over the first `t` rows.
pub open spec fn x_mas_total(g: Seq<Seq<char>>, w: int, t: int) -> int
    decreases t,
{
    if t <= 0 {
        0
    } else {
        x_mas_total(g, w, t - 1) + x_mas_row(g, w, t - 1, w)
    }
}

proof fn lemma_xmas_row_bound(g: Seq<Seq<char>>, w: int, i: int, t: int)
    ensures
        0 <= xmas_row(g, w, i, t) <= 8 * if t >= 0 {
            t
        } else {
            0
        },
    decreases t,
{
    if t > 0 {
        lemma_xmas_row_bound(g, w, i, t - 1);
    }
}

proof fn lemma_xmas_total_bound(g: Seq<Seq<char>>, w: int, t: int)
    requires
        0 <= w,
    ensures
        0 <= xmas_total(g, w, t) <= 8 * (if t >= 0 {
            t
        } else {
            0
        }) * w,
    decreases t,
{
    if t > 0 {
        lemma_xmas_total_bound(g, w, t - 1);
        lemma_xmas_row_bound(g, w, t - 1, w);
        assert(8 * t * w == 8 * (t - 1) * w + 8 * w) by (nonlinear_arith);
    } else if t == 0 {
        assert(8 * t * w == 0) by (nonlinear_arith)
            requires
                t == 0,
        ;
    }
}

proof fn lemma_x_mas_row_bound(g: Seq<Seq<char>>, w: int, i: int, t: int)
    ensures
        0 <= x_mas_row(g, w, i, t) <= if t >= 0 {
            t
        } else {
            0
        },
    decreases t,
{
    if t > 0 {
        lemma_x_mas_row_bound(g, w, i, t - 1);
    }
}

proof fn lemma_x_mas_total_bound(g: Seq<Seq<char>>, w: int, t: int)
    requires
        0 <= w,
    ensures
        0 <= x_mas_total(g, w, t) <= (if t >= 0 {
            t
        } else {
            0
        }) * w,
    decreases t,
{
    if t > 0 {
        lemma_x_mas_total_bound(g, w, t - 1);
        lemma_x_mas_row_bound(g, w, t - 1, w);
        assert(t * w == (t - 1) * w + w) by (nonlinear_arith);
    } else if t == 0 {
        assert(t * w == 0) by (nonlinear_arith)
            requires
                t == 0,
        ;
    }
}

/// Count how often XMAS appears in the puzzle, reading from any X in any of
/// the eight directions.
pub fn xmas_search(puzzle: &[Vec<char>]) -> (result: u32)
    requires
        puzzle_wf(puzzle_view(puzzle@), puzzle@[0]@.len() as int),
        8 * puzzle@.len() * puzzle@[0]@.len() <= u32::MAX,
    ensures
        result as int == xmas_total(
            puzzle_view(puzzle@),
            puzzle@[0]@.len() as int,
            puzzle@.len() as int,
        ),
{
    let ghost g = puzzle_view(puzzle@);
    let max_rows = puzzle.len();
    let max_cols = puzzle[0].len();
    let ghost w = max_cols as int;
    proof {
        assert(max_rows <= 0x1fffffff && max_cols <= 0x1fffffff) by (nonlinear_arith)
            requires
                8 * (max_rows as int) * (max_cols as int) <= u32::MAX,
                1 <= max_rows as int,
                1 <= max_cols as int,
        ;
    }
    let mut result: u32 = 0;
    let mut i: usize = 0;
    while i < max_rows
        invariant
            puzzle_wf(g, w),
            g == puzzle_view(puzzle@),
            max_rows == puzzle@.len(),
            max_cols == puzzle@[0]@.len(),
            w == max_cols as int,
            8 * max_rows * max_cols <= u32::MAX,
            max_rows <= 0x1fffffff,
            max_cols <= 0x1fffffff,
            i <= max_rows,
            result as int == xmas_total(g, w, i as int),
        decreases max_rows - i,
    {
        let mut j: usize = 0;
        while j < max_cols
            invariant
                puzzle_wf(g, w),
                g == puzzle_view(puzzle@),
                max_rows == puzzle@.len(),
                max_cols == puzzle@[0]@.len(),
                w == max_cols as int,
                8 * max_rows * max_cols <= u32::MAX,
                max_rows <= 0x1fffffff,
                max_cols <= 0x1fffffff,
                i < max_rows,
                j <= max_cols,
                result as int == xmas_total(g, w, i as int) + xmas_row(g, w, i as int, j as int),
            decreases max_cols - j,
        {
            proof {
                lemma_xmas_total_bound(g, w, i as int);
                lemma_xmas_row_bound(g, w, i as int, j as int);
                assert(8 * (i as int) * w + 8 * w <= 8 * (max_rows as int) * w)
                    by (nonlinear_arith)
                    requires
                        0 <= (i as int) && (i as int) < (max_rows as int),
                        0 <= w,
                ;
                assert(8 * (max_rows as int) * w == 8 * max_rows * max_cols)
                    by (nonlinear_arith)
                    requires
                        w == max_cols as int,
                ;
            }
            proof {
                assert forall|r: int| 0 <= r < max_rows implies (#[trigger] puzzle@[r])@.len()
                    == max_cols by {
                    assert(g[r] == puzzle@[r]@);
                }
            }
            let mut here: u32 = 0;
            if puzzle[i][j] == 'X' {
                // right
                if j + 3 < max_cols {
                    if puzzle[i][j + 1] == 'M' && puzzle[i][j + 2] == 'A' && puzzle[i][j + 3]
                        == 'S' {
                        here = here + 1;
                    }
                }
                // left
                if j >= 3 {
                    if puzzle[i][j - 1] == 'M' && puzzle[i][j - 2] == 'A' && puzzle[i][j - 3]
                        == 'S' {
                        here = here + 1;
                    }
                }
                // up
                if i >= 3 {
                    if puzzle[i - 1][j] == 'M' && puzzle[i - 2][j] == 'A' && puzzle[i - 3][j]
                        == 'S' {
                        here = here + 1;
                    }
                }
                // down
                if i + 3 < max_rows {
                    if puzzle[i + 1][j] == 'M' && puzzle[i + 2][j] == 'A' && puzzle[i + 3][j]
                        == 'S' {
                        here = here + 1;
                    }
                }
                // up-right
                if j + 3 < max_cols && i >= 3 {
                    if puzzle[i - 1][j + 1] == 'M' && puzzle[i - 2][j + 2] == 'A' && puzzle[i
                        - 3][j + 3] == 'S' {
                        here = here + 1;
                    }
                }
                // up-left
                if j >= 3 && i >= 3 {
                    if puzzle[i - 1][j - 1] == 'M' && puzzle[i - 2][j - 2] == 'A' && puzzle[i
                        - 3][j - 3] == 'S' {
                        here = here + 1;
                    }
                }
                // down-right
                if j + 3 < max_cols && i + 3 < max_rows {
                    if puzzle[i + 1][j + 1] == 'M' && puzzle[i + 2][j + 2] == 'A' && puzzle[i
                        + 3][j + 3] == 'S' {
                        here = here + 1;
                    }
                }
                // down-left
                if j >= 3 && i + 3 < max_rows {
                    if puzzle[i + 1][j - 1] == 'M' && puzzle[i + 2][j - 2] == 'A' && puzzle[i
                        + 3][j - 3] == 'S' {
                        here = here + 1;
                    }
                }
            }
            proof {
                assert(here as int == xmas_at(g, w, i as int, j as int));
            }
            result = result + here;
            j = j + 1;
        }
        i = i + 1;
    }
    result
}

/// Count the X-shaped MAS crossings: the A cells whose two diagonal pairs
/// each read MS or SM.
pub fn x_mas_search(puzzle: &[Vec<char>]) -> (result: u32)
    requires
        puzzle_wf(puzzle_view(puzzle@), puzzle@[0]@.len() as int),
        puzzle@.len() * puzzle@[0]@.len() <= u32::MAX,
    ensures
        result as int == x_mas_total(
            puzzle_view(puzzle@),
            puzzle@[0]@.len() as int,
            puzzle@.len() as int,
        ),
{
    let ghost g = puzzle_view(puzzle@);
    let max_rows = puzzle.len();
    let max_cols = puzzle[0].len();
    let ghost w = max_cols as int;
    let mut result: u32 = 0;
    let mut i: usize = 0;
    while i < max_rows
        invariant
            puzzle_wf(g, w),
            g == puzzle_view(puzzle@),
            max_rows == puzzle@.len(),
            max_cols == puzzle@[0]@.len(),
            w == max_cols as int,
            max_rows * max_cols <= u32::MAX,
            i <= max_rows,
            result as int == x_mas_total(g, w, i as int),
        decreases max_rows - i,
    {
        let mut j: usize = 0;
        while j < max_cols
            invariant
                puzzle_wf(g, w),
                g == puzzle_view(puzzle@),
                max_rows == puzzle@.len(),
                max_cols == puzzle@[0]@.len(),
                w == max_cols as int,
                max_rows * max_cols <= u32::MAX,
                i < max_rows,
                j <= max_cols,
                result as int == x_mas_total(g, w, i as int) + x_mas_row(g, w, i as int, j as int),
            decreases max_cols - j,
        {
            proof {
                lemma_x_mas_total_bound(g, w, i as int);
                lemma_x_mas_row_bound(g, w, i as int, j as int);
                assert((i as int) * w + w <= (max_rows as int) * w) by (nonlinear_arith)
                    requires
                        0 <= (i as int) && (i as int) < (max_rows as int),
                        0 <= w,
                ;
                assert((max_rows as int) * w == max_rows * max_cols) by (nonlinear_arith)
                    requires
                        w == max_cols as int,
                ;
            }
            proof {
                assert forall|r: int| 0 <= r < max_rows implies (#[trigger] puzzle@[r])@.len()
                    == max_cols by {
                    assert(g[r] == puzzle@[r]@);
                }
            }
            let mut hit = false;
            if puzzle[i][j] == 'A' {
                if i > 0 && j > 0 && i < max_rows - 1 && j < max_cols - 1 {
                    let ul = puzzle[i - 1][j - 1];
                    let dr = puzzle[i + 1][j + 1];
                    let ur = puzzle[i - 1][j + 1];
                    let dl = puzzle[i + 1][j - 1];
                    let diag_a = (ul == 'M' && dr == 'S') || (ul == 'S' && dr == 'M');
                    let diag_b = (ur == 'M' && dl == 'S') || (ur == 'S' && dl == 'M');
                    if diag_a && diag_b {
                        hit = true;
                    }
                }
            }
            proof {
                assert(hit == x_mas_at(g, w, i as int, j as int));
            }
            if hit {
                result = result + 1;
            }
            j = j + 1;
        }
        i = i + 1;
    }
    result
}

} // verus!
