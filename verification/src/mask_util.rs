//! The penalty rules by which a data mask is judged: runs of one colour,
//! 2x2 blocks of one colour, finder-like patterns, and the balance of dark
//! and light modules.
use vstd::prelude::*;
use crate::byte_matrix::ByteMatrix;

verus! {

/// The module at `(x, y)` of a matrix `w` modules wide, held row by row.
pub open spec fn cell_at(c: Seq<i8>, w: int, x: int, y: int) -> i8 {
    c[y * w + x]
}

/// The sum of `f(x, y)` over `x < n` in row `y`.
pub open spec fn row_sum(f: spec_fn(int, int) -> int, y: int, n: int) -> int
    decreases n,
{
    if n <= 0 {
        0
    } else {
        row_sum(f, y, n - 1) + f(n - 1, y)
    }
}

/// The sum of `f(x, y)` over `x < w` and `y < h`.
pub open spec fn grid_sum(f: spec_fn(int, int) -> int, w: int, h: int) -> int
    decreases h,
{
    if h <= 0 {
        0
    } else {
        grid_sum(f, w, h - 1) + row_sum(f, h - 1, w)
    }
}

/// The length of the run of equal modules ending at `(x, y)` along its row.
pub open spec fn run_in_row(c: Seq<i8>, w: int, h: int, x: int, y: int) -> int
    decreases x,
{
    if x <= 0 {
        1
    } else if cell_at(c, w, x, y) == cell_at(c, w, x - 1, y) {
        run_in_row(c, w, h, x - 1, y) + 1
    } else {
        1
    }
}

/// The length of the run of equal modules ending at `(x, y)` along its column.
pub open spec fn run_in_column(c: Seq<i8>, w: int, h: int, x: int, y: int) -> int
    decreases y,
{
    if y <= 0 {
        1
    } else if cell_at(c, w, x, y) == cell_at(c, w, x, y - 1) {
        run_in_column(c, w, h, x, y - 1) + 1
    } else {
        1
    }
}

/// What a module adds to rule 1 as the end of a run of `run` modules: a
/// run of five or more costs 3, and 1 more for each module past five.
pub open spec fn run_weight(run: int) -> int {
    if run == 5 {
        3
    } else if run > 5 {
        1
    } else {
        0
    }
}

/// Rule 1: every run of five or more modules of one colour, in a row or a
/// column, costs 3 plus the length past five.
pub open spec fn penalty_rule1(c: Seq<i8>, w: int, h: int) -> int {
    grid_sum(|x: int, y: int| run_weight(run_in_row(c, w, h, x, y)), w, h)
        + grid_sum(|x: int, y: int| run_weight(run_in_column(c, w, h, x, y)), w, h)
}

/// Whether the 2x2 block with top-left corner `(x, y)` is of one colour.
pub open spec fn uniform_block(c: Seq<i8>, w: int, h: int, x: int, y: int) -> bool {
    cell_at(c, w, x, y) == cell_at(c, w, x + 1, y) && cell_at(c, w, x, y) == cell_at(c, w, x, y + 1) && cell_at(c, w, x, y) == cell_at(c, w, x + 1, y + 1)
}

/// Rule 2: each 2x2 block of one colour costs 3.
pub open spec fn penalty_rule2(c: Seq<i8>, w: int, h: int) -> int {
    3 * grid_sum(|x: int, y: int| if uniform_block(c, w, h, x, y) { 1int } else { 0int }, w - 1, h - 1)
}

/// Whether the modules `from .. to` of row `y` exist and none is dark.
pub open spec fn white_in_row(c: Seq<i8>, w: int, h: int, y: int, from: int, to: int) -> bool {
    from >= 0 && to <= w && forall|i: int| from <= i < to ==> cell_at(c, w, i, y) != 1
}

/// Whether the modules `from .. to` of column `x` exist and none is dark.
pub open spec fn white_in_column(c: Seq<i8>, w: int, h: int, x: int, from: int, to: int) -> bool {
    from >= 0 && to <= h && forall|i: int| from <= i < to ==> cell_at(c, w, x, i) != 1
}

/// Whether a dark-light-dark-dark-dark-light-dark pattern starts at
/// `(x, y)` along the row, with four light modules before or after it.
pub open spec fn finder_like_in_row(c: Seq<i8>, w: int, h: int, x: int, y: int) -> bool {
    &&& x + 6 < w
    &&& cell_at(c, w, x, y) == 1 && cell_at(c, w, x + 1, y) == 0 && cell_at(c, w, x + 2, y) == 1 && cell_at(c, w, x + 3, y) == 1
    &&& cell_at(c, w, x + 4, y) == 1 && cell_at(c, w, x + 5, y) == 0 && cell_at(c, w, x + 6, y) == 1
    &&& white_in_row(c, w, h, y, x - 4, x) || white_in_row(c, w, h, y, x + 7, x + 11)
}

/// Whether a dark-light-dark-dark-dark-light-dark pattern starts at
/// `(x, y)` down the column, with four light modules above or below it.
pub open spec fn finder_like_in_column(c: Seq<i8>, w: int, h: int, x: int, y: int) -> bool {
    &&& y + 6 < h
    &&& cell_at(c, w, x, y) == 1 && cell_at(c, w, x, y + 1) == 0 && cell_at(c, w, x, y + 2) == 1 && cell_at(c, w, x, y + 3) == 1
    &&& cell_at(c, w, x, y + 4) == 1 && cell_at(c, w, x, y + 5) == 0 && cell_at(c, w, x, y + 6) == 1
    &&& white_in_column(c, w, h, x, y - 4, y) || white_in_column(c, w, h, x, y + 7, y + 11)
}

/// Rule 3: each finder-like pattern, in a row or a column, costs 40.
pub open spec fn penalty_rule3(c: Seq<i8>, w: int, h: int) -> int {
    40 * grid_sum(
        |x: int, y: int|
            (if finder_like_in_row(c, w, h, x, y) { 1int } else { 0int }) + (if finder_like_in_column(c, w, h, x, y) {
                1int
            } else {
                0int
            }),
        w,
        h,
    )
}

/// The number of dark modules.
pub open spec fn dark_count(c: Seq<i8>, w: int, h: int) -> int {
    grid_sum(|x: int, y: int| if cell_at(c, w, x, y) == 1 { 1int } else { 0int }, w, h)
}

/// The absolute value of an integer.
pub open spec fn abs_int(a: int) -> int {
    if a < 0 { -a } else { a }
}

/// Rule 4: 10 for every full 5% by which the dark share departs from half.
pub open spec fn penalty_rule4(c: Seq<i8>, w: int, h: int) -> int {
    let total = w * h;
    (abs_int(dark_count(c, w, h) * 2 - total) * 10 / total) * 10
}

/// The total penalty of a matrix under the four rules.
pub open spec fn mask_penalty(c: Seq<i8>, w: int, h: int) -> int {
    penalty_rule1(c, w, h) + penalty_rule2(c, w, h) + penalty_rule3(c, w, h) + penalty_rule4(c, w, h)
}

/// Rule 1 along the rows.
pub fn penalty_rule1_rows(m: &ByteMatrix) -> (r: u32)
    requires
        m.width_spec() <= 177,
        m.height_spec() <= 177,
    ensures
        r == grid_sum(|x: int, y: int| run_weight(run_in_row(m.cells(), m.width_spec(), m.height_spec(), x, y)), m.width_spec(), m.height_spec()),
        r <= 3 * 177 * 177,
{
    let ghost f = |x: int, y: int| run_weight(run_in_row(m.cells(), m.width_spec(), m.height_spec(), x, y));
    let w = m.getWidth();
    let h = m.getHeight();
    let mut acc: u32 = 0;
    let mut y: usize = 0;
    while y < h
        invariant
            w == m.width_spec(),
            h == m.height_spec(),
            w <= 177,
            h <= 177,
            y <= h,
            acc == grid_sum(f, w as int, y as int),
            acc <= 3 * 177 * y,
            f == (|x: int, y: int| run_weight(run_in_row(m.cells(), m.width_spec(), m.height_spec(), x, y))),
        decreases h - y,
    {
        let mut x: usize = 0;
        let mut run: u32 = 0;
        let mut row_acc: u32 = 0;
        while x < w
            invariant
                w == m.width_spec(),
                h == m.height_spec(),
                w <= 177,
                y < h,
                x <= w,
                x > 0 ==> run == run_in_row(m.cells(), m.width_spec(), m.height_spec(), x - 1, y as int),
                x > 0 ==> run <= x,
                f == (|x: int, y: int| run_weight(run_in_row(m.cells(), m.width_spec(), m.height_spec(), x, y))),
                acc == grid_sum(f, w as int, y as int),
                acc <= 3 * 177 * y,
                h <= 177,
                row_acc == row_sum(f, y as int, x as int),
                row_acc <= 3 * x,
            decreases w - x,
        {
            if x > 0 && m.get(x, y) == m.get(x - 1, y) {
                run = run + 1;
            } else {
                run = 1;
            }
            assert(run == run_in_row(m.cells(), m.width_spec(), m.height_spec(), x as int, y as int));
            let weight: u32 = if run == 5 { 3 } else if run > 5 { 1 } else { 0 };
            row_acc = row_acc + weight;
            x = x + 1;
        }
        assert(x == w);
        assert(row_acc <= 531);
        assert(acc <= 531 * y);
        acc = acc + row_acc;
        y = y + 1;
    }
    acc
}

/// Rule 1 along the columns.
pub fn penalty_rule1_columns(m: &ByteMatrix) -> (r: u32)
    requires
        m.width_spec() <= 177,
        m.height_spec() <= 177,
    ensures
        r == grid_sum(|x: int, y: int| run_weight(run_in_column(m.cells(), m.width_spec(), m.height_spec(), x, y)), m.width_spec(), m.height_spec()),
        r <= 3 * 177 * 177,
{
    let ghost f = |x: int, y: int| run_weight(run_in_column(m.cells(), m.width_spec(), m.height_spec(), x, y));
    let w = m.getWidth();
    let h = m.getHeight();
    let mut acc: u32 = 0;
    let mut y: usize = 0;
    while y < h
        invariant
            w == m.width_spec(),
            h == m.height_spec(),
            w <= 177,
            h <= 177,
            y <= h,
            acc == grid_sum(f, w as int, y as int),
            acc <= 3 * 177 * y,
            f == (|x: int, y: int| run_weight(run_in_column(m.cells(), m.width_spec(), m.height_spec(), x, y))),
        decreases h - y,
    {
        let mut x: usize = 0;
        let mut row_acc: u32 = 0;
        while x < w
            invariant
                w == m.width_spec(),
                h == m.height_spec(),
                w <= 177,
                y < h,
                h <= 177,
                x <= w,
                f == (|x: int, y: int| run_weight(run_in_column(m.cells(), m.width_spec(), m.height_spec(), x, y))),
                acc == grid_sum(f, w as int, y as int),
                acc <= 3 * 177 * y,
                row_acc == row_sum(f, y as int, x as int),
                row_acc <= 3 * x,
            decreases w - x,
        {
            let run = column_run(m, x, y);
            let weight: u32 = if run == 5 { 3 } else if run > 5 { 1 } else { 0 };
            row_acc = row_acc + weight;
            x = x + 1;
        }
        assert(x == w);
        assert(row_acc <= 531);
        assert(acc <= 531 * y);
        acc = acc + row_acc;
        y = y + 1;
    }
    acc
}

/// The run of equal modules ending at `(x, y)` down column `x`.
fn column_run(m: &ByteMatrix, x: usize, y: usize) -> (r: u32)
    requires
        x < m.width_spec(),
        y < m.height_spec(),
        m.height_spec() <= 177,
    ensures
        r == run_in_column(m.cells(), m.width_spec(), m.height_spec(), x as int, y as int),
        r <= 177,
{
    let mut run: u32 = 1;
    let mut k: usize = 0;
    while k < y
        invariant
            x < m.width_spec(),
            y < m.height_spec(),
            m.height_spec() <= 177,
            k <= y,
            run == run_in_column(m.cells(), m.width_spec(), m.height_spec(), x as int, k as int),
            run <= k + 1,
        decreases y - k,
    {
        k = k + 1;
        if m.get(x, k) == m.get(x, k - 1) {
            run = run + 1;
        } else {
            run = 1;
        }
    }
    run
}

/// Rule 1: runs of five or more modules of one colour.
pub fn applyMaskPenaltyRule1(m: &ByteMatrix) -> (r: u32)
    requires
        m.width_spec() <= 177,
        m.height_spec() <= 177,
    ensures
        r == penalty_rule1(m.cells(), m.width_spec(), m.height_spec()),
        r <= 6 * 177 * 177,
{
    penalty_rule1_rows(m) + penalty_rule1_columns(m)
}

/// Rule 2: 2x2 blocks of one colour.
pub fn applyMaskPenaltyRule2(m: &ByteMatrix) -> (r: u32)
    requires
        m.width_spec() <= 177,
        m.height_spec() <= 177,
    ensures
        r == penalty_rule2(m.cells(), m.width_spec(), m.height_spec()),
        r <= 3 * 177 * 177,
{
    let ghost f = |x: int, y: int| if uniform_block(m.cells(), m.width_spec(), m.height_spec(), x, y) { 1int } else { 0int };
    let w = m.getWidth();
    let h = m.getHeight();
    if w < 2 || h < 2 {
        proof {
            if w < 2 && h >= 2 {
                lemma_grid_sum_empty_rows(f, (w - 1) as int, (h - 1) as int);
            }
        }
        return 0;
    }
    let mut acc: u32 = 0;
    let mut y: usize = 0;
    while y < h - 1
        invariant
            w == m.width_spec(),
            h == m.height_spec(),
            2 <= w <= 177,
            2 <= h <= 177,
            y <= h - 1,
            f == (|x: int, y: int| if uniform_block(m.cells(), m.width_spec(), m.height_spec(), x, y) { 1int } else { 0int }),
            acc == grid_sum(f, w - 1, y as int),
            acc <= 177 * y,
        decreases h - 1 - y,
    {
        let mut x: usize = 0;
        let mut row_acc: u32 = 0;
        while x < w - 1
            invariant
                w == m.width_spec(),
                h == m.height_spec(),
                2 <= w <= 177,
                2 <= h <= 177,
                y < h - 1,
                x <= w - 1,
                f == (|x: int, y: int| if uniform_block(m.cells(), m.width_spec(), m.height_spec(), x, y) { 1int } else { 0int }),
                row_acc == row_sum(f, y as int, x as int),
                row_acc <= x,
            decreases w - 1 - x,
        {
            let value = m.get(x, y);
            if value == m.get(x + 1, y) && value == m.get(x, y + 1) && value == m.get(x + 1, y + 1) {
                row_acc = row_acc + 1;
            }
            x = x + 1;
        }
        assert(row_acc <= 177);
        assert(acc <= 177 * y);
        acc = acc + row_acc;
        y = y + 1;
    }
    3 * acc
}

/// A sum over no columns is zero.
pub proof fn lemma_grid_sum_empty_rows(f: spec_fn(int, int) -> int, w: int, h: int)
    requires
        w <= 0,
    ensures
        grid_sum(f, w, h) == 0,
    decreases h,
{
    if h > 0 {
        lemma_grid_sum_empty_rows(f, w, h - 1);
    }
}

/// Whether modules `from .. to` of row `y` exist and none is dark.
fn white_row(m: &ByteMatrix, y: usize, from: i64, to: i64) -> (r: bool)
    requires
        y < m.height_spec(),
        m.width_spec() <= 177,
        -10 <= from <= to <= 200,
    ensures
        r == white_in_row(m.cells(), m.width_spec(), m.height_spec(), y as int, from as int, to as int),
{
    if from < 0 || to > m.getWidth() as i64 {
        return false;
    }
    let start: usize = from as usize;
    let end: usize = to as usize;
    let mut i: usize = start;
    while i < end
        invariant
            start == from,
            end == to,
            start <= i <= end,
            end <= m.width_spec(),
            y < m.height_spec(),
            forall|k: int| from <= k < i ==> cell_at(m.cells(), m.width_spec(), k, y as int) != 1,
        decreases end - i,
    {
        if m.get(i, y) == 1 {
            assert(cell_at(m.cells(), m.width_spec(), i as int, y as int) == 1);
            return false;
        }
        i = i + 1;
    }
    true
}

/// Whether modules `from .. to` of column `x` exist and none is dark.
fn white_column(m: &ByteMatrix, x: usize, from: i64, to: i64) -> (r: bool)
    requires
        x < m.width_spec(),
        m.height_spec() <= 177,
        -10 <= from <= to <= 200,
    ensures
        r == white_in_column(m.cells(), m.width_spec(), m.height_spec(), x as int, from as int, to as int),
{
    if from < 0 || to > m.getHeight() as i64 {
        return false;
    }
    let start: usize = from as usize;
    let end: usize = to as usize;
    let mut i: usize = start;
    while i < end
        invariant
            start == from,
            end == to,
            start <= i <= end,
            end <= m.height_spec(),
            x < m.width_spec(),
            forall|k: int| from <= k < i ==> cell_at(m.cells(), m.width_spec(), x as int, k) != 1,
        decreases end - i,
    {
        if m.get(x, i) == 1 {
            assert(cell_at(m.cells(), m.width_spec(), x as int, i as int) == 1);
            return false;
        }
        i = i + 1;
    }
    true
}

/// Whether a finder-like pattern starts at `(x, y)` along the row.
fn finder_like_row(m: &ByteMatrix, x: usize, y: usize) -> (r: bool)
    requires
        x < m.width_spec(),
        y < m.height_spec(),
        m.width_spec() <= 177,
    ensures
        r == finder_like_in_row(m.cells(), m.width_spec(), m.height_spec(), x as int, y as int),
{
    if x + 6 >= m.getWidth() {
        return false;
    }
    let pattern = m.get(x, y) == 1 && m.get(x + 1, y) == 0 && m.get(x + 2, y) == 1 && m.get(x + 3, y) == 1
        && m.get(x + 4, y) == 1 && m.get(x + 5, y) == 0 && m.get(x + 6, y) == 1;
    if !pattern {
        return false;
    }
    white_row(m, y, x as i64 - 4, x as i64) || white_row(m, y, x as i64 + 7, x as i64 + 11)
}

/// Whether a finder-like pattern starts at `(x, y)` down the column.
fn finder_like_column(m: &ByteMatrix, x: usize, y: usize) -> (r: bool)
    requires
        x < m.width_spec(),
        y < m.height_spec(),
        m.height_spec() <= 177,
    ensures
        r == finder_like_in_column(m.cells(), m.width_spec(), m.height_spec(), x as int, y as int),
{
    if y + 6 >= m.getHeight() {
        return false;
    }
    let pattern = m.get(x, y) == 1 && m.get(x, y + 1) == 0 && m.get(x, y + 2) == 1 && m.get(x, y + 3) == 1
        && m.get(x, y + 4) == 1 && m.get(x, y + 5) == 0 && m.get(x, y + 6) == 1;
    if !pattern {
        return false;
    }
    white_column(m, x, y as i64 - 4, y as i64) || white_column(m, x, y as i64 + 7, y as i64 + 11)
}

/// Rule 3: finder-like patterns in rows and columns.
pub fn applyMaskPenaltyRule3(m: &ByteMatrix) -> (r: u32)
    requires
        m.width_spec() <= 177,
        m.height_spec() <= 177,
    ensures
        r == penalty_rule3(m.cells(), m.width_spec(), m.height_spec()),
        r <= 80 * 177 * 177,
{
    let ghost f = |x: int, y: int|
        (if finder_like_in_row(m.cells(), m.width_spec(), m.height_spec(), x, y) { 1int } else { 0int }) + (if finder_like_in_column(m.cells(), m.width_spec(), m.height_spec(), x, y) {
            1int
        } else {
            0int
        });
    let w = m.getWidth();
    let h = m.getHeight();
    let mut acc: u32 = 0;
    let mut y: usize = 0;
    while y < h
        invariant
            w == m.width_spec(),
            h == m.height_spec(),
            w <= 177,
            h <= 177,
            y <= h,
            f == (|x: int, y: int|
                (if finder_like_in_row(m.cells(), m.width_spec(), m.height_spec(), x, y) { 1int } else { 0int }) + (if finder_like_in_column(m.cells(), m.width_spec(), m.height_spec(), x, y) {
                    1int
                } else {
                    0int
                })),
            acc == grid_sum(f, w as int, y as int),
            acc <= 2 * 177 * y,
            acc <= 2 * 177 * 177,
        decreases h - y,
    {
        let mut x: usize = 0;
        let mut row_acc: u32 = 0;
        while x < w
            invariant
                w == m.width_spec(),
                h == m.height_spec(),
                w <= 177,
                h <= 177,
                y < h,
                x <= w,
                f == (|x: int, y: int|
                    (if finder_like_in_row(m.cells(), m.width_spec(), m.height_spec(), x, y) { 1int } else { 0int }) + (if finder_like_in_column(m.cells(), m.width_spec(), m.height_spec(), x, y) {
                        1int
                    } else {
                        0int
                    })),
                row_acc == row_sum(f, y as int, x as int),
                row_acc <= 2 * x,
                acc == grid_sum(f, w as int, y as int),
                acc <= 2 * 177 * y,
            decreases w - x,
        {
            if finder_like_row(m, x, y) {
                row_acc = row_acc + 1;
            }
            if finder_like_column(m, x, y) {
                row_acc = row_acc + 1;
            }
            x = x + 1;
        }
        assert(acc + row_acc <= 354 * (y + 1) && 354 * (y + 1) <= 354 * 177) by (nonlinear_arith)
            requires
                acc <= 2 * 177 * y,
                row_acc <= 2 * 177,
                y < 177,
        ;
        acc = acc + row_acc;
        y = y + 1;
    }
    acc * 40
}

/// Rule 4: the balance of dark and light modules.
pub fn applyMaskPenaltyRule4(m: &ByteMatrix) -> (r: u32)
    requires
        1 <= m.width_spec() <= 177,
        1 <= m.height_spec() <= 177,
    ensures
        r == penalty_rule4(m.cells(), m.width_spec(), m.height_spec()),
        r <= 100,
{
    let ghost f = |x: int, y: int| if cell_at(m.cells(), m.width_spec(), x, y) == 1 { 1int } else { 0int };
    let w = m.getWidth();
    let h = m.getHeight();
    let mut dark: u32 = 0;
    let mut y: usize = 0;
    while y < h
        invariant
            w == m.width_spec(),
            h == m.height_spec(),
            1 <= w <= 177,
            1 <= h <= 177,
            y <= h,
            f == (|x: int, y: int| if cell_at(m.cells(), m.width_spec(), x, y) == 1 { 1int } else { 0int }),
            dark == grid_sum(f, w as int, y as int),
            dark <= w * y,
        decreases h - y,
    {
        let mut x: usize = 0;
        let mut row_dark: u32 = 0;
        while x < w
            invariant
                w == m.width_spec(),
                h == m.height_spec(),
                1 <= w <= 177,
                y < h,
                x <= w,
                f == (|x: int, y: int| if cell_at(m.cells(), m.width_spec(), x, y) == 1 { 1int } else { 0int }),
                row_dark == row_sum(f, y as int, x as int),
                row_dark <= x,
            decreases w - x,
        {
            if m.get(x, y) == 1 {
                row_dark = row_dark + 1;
            }
            x = x + 1;
        }
        assert(dark + row_dark <= w * (y + 1)) by (nonlinear_arith)
            requires
                dark <= w * y,
                row_dark <= w,
        ;
        assert(w * (y + 1) <= 177 * 177) by (nonlinear_arith)
            requires
                w <= 177,
                y + 1 <= 177,
        ;
        dark = dark + row_dark;
        y = y + 1;
    }
    assert(w * h <= 177 * 177 && w * h >= 1) by (nonlinear_arith)
        requires
            1 <= w <= 177,
            1 <= h <= 177,
    ;
    let total: u32 = (w * h) as u32;
    let twice: u32 = dark * 2;
    let diff: u32 = if twice >= total { twice - total } else { total - twice };
    assert(diff <= total);
    proof {
        vstd::arithmetic::div_mod::lemma_div_is_ordered(diff * 10, total * 10, total as int);
        vstd::arithmetic::div_mod::lemma_div_multiples_vanish(10, total as int);
        vstd::arithmetic::mul::lemma_mul_is_commutative(10, total as int);
        assert((diff * 10) as int / (total as int) <= 10);
    }
    (diff * 10 / total) * 10
}

/// The total penalty of a candidate symbol under the four rules.
pub fn calculateMaskPenalty(m: &ByteMatrix) -> (r: u32)
    requires
        1 <= m.width_spec() <= 177,
        1 <= m.height_spec() <= 177,
    ensures
        r == mask_penalty(m.cells(), m.width_spec(), m.height_spec()),
{
    applyMaskPenaltyRule1(m) + applyMaskPenaltyRule2(m) + applyMaskPenaltyRule3(m) + applyMaskPenaltyRule4(m)
}


} // verus!
