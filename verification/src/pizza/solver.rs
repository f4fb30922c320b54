//! A simple solver: it cuts slices of two cells, scanning the pizza row by row.

use vstd::prelude::*;
use super::input::{grid_of, ProblemInput, ProblemInputView};
use super::scorer::{
    claimed_before, count_of, defect, free_grid, has_collision, is_first_collision,
    is_first_defect, mark, score_of, slice_violation,
};
use super::submission::ProblemSubmission;
use super::{Ingredient, Slice};

verus! {

/// The number of cells in `cells` that hold `kind`.
pub open spec fn kind_count(cells: Seq<Ingredient>, kind: Ingredient) -> nat
    decreases cells.len(),
{
    if cells.len() == 0 {
        0
    } else {
        kind_count(cells.drop_last(), kind) + if cells.last() == kind {
            1nat
        } else {
            0nat
        }
    }
}

/// The cells can make a slice: they are no more than `max`, with at least `min` of
/// each ingredient.
pub open spec fn is_valid(cells: Seq<Ingredient>, min: usize, max: usize) -> bool {
    &&& cells.len() <= max
    &&& kind_count(cells, Ingredient::Tomato) >= min
    &&& kind_count(cells, Ingredient::Mushroom) >= min
}

/// Tells whether the cells can make a slice.
pub fn is_valid_slice(cells: &[Ingredient], min_ingredient: usize, max_cells: usize) -> (b: bool)
    ensures
        b == is_valid(cells@, min_ingredient, max_cells),
{
    if cells.len() > max_cells {
        return false;
    }
    let mut tomato_count: usize = 0;
    let mut mushroom_count: usize = 0;
    let mut k: usize = 0;
    assert(cells@.take(0) =~= Seq::<Ingredient>::empty());
    while k < cells.len()
        invariant
            k <= cells.len(),
            tomato_count == kind_count(cells@.take(k as int), Ingredient::Tomato),
            mushroom_count == kind_count(cells@.take(k as int), Ingredient::Mushroom),
            tomato_count + mushroom_count == k,
        decreases cells.len() - k,
    {
        proof {
            assert(cells@.take(k + 1).drop_last() =~= cells@.take(k as int));
            assert(cells@.take(k + 1).last() == cells@[k as int]);
        }
        match cells[k] {
            Ingredient::Tomato => {
                tomato_count += 1;
            },
            Ingredient::Mushroom => {
                mushroom_count += 1;
            },
        }
        k += 1;
    }
    assert(cells@.take(k as int) =~= cells@);
    tomato_count >= min_ingredient && mushroom_count >= min_ingredient
}

/// The first cell comes before the second, row by row and in a row from the left.
pub open spec fn precedes(r1: int, c1: int, r2: int, c2: int) -> bool {
    r1 < r2 || (r1 == r2 && c1 < c2)
}

/// A slice of `out` that starts before the cell in row `r` and column `c` holds the
/// cell in row `r2` and column `c2`.
pub open spec fn taken_before(out: Seq<Slice>, r: int, c: int, r2: int, c2: int) -> bool {
    exists|k: int|
        0 <= k < out.len() && precedes(
            (#[trigger] out[k]).start_row as int,
            out[k].start_col as int,
            r,
            c,
        ) && out[k].covers(r2, c2)
}

/// The slice of the cell in row `r` and column `c` and its right neighbour.
pub open spec fn horizontal(r: int, c: int) -> Slice {
    Slice {
        start_row: r as usize,
        start_col: c as usize,
        end_row: r as usize,
        end_col: (c + 1) as usize,
    }
}

/// The slice of the cell in row `r` and column `c` and the cell below it.
pub open spec fn vertical(r: int, c: int) -> Slice {
    Slice {
        start_row: r as usize,
        start_col: c as usize,
        end_row: (r + 1) as usize,
        end_col: c as usize,
    }
}

/// The slice that the solver starts at the cell in row `r` and column `c`, given
/// the slices `out` that start before it: none where the cell is taken; else the
/// cell with its right neighbour, where that is free and the two can make a slice;
/// else the cell with the cell below, likewise; else none.
pub open spec fn choice(input: ProblemInputView, out: Seq<Slice>, r: int, c: int) -> Option<Slice> {
    if taken_before(out, r, c, r, c) {
        None
    } else if c + 1 < input.cols && !taken_before(out, r, c, r, c + 1) && is_valid(
        seq![input.grid[r][c], input.grid[r][c + 1]],
        input.min_ingredient,
        input.max_cells,
    ) {
        Some(horizontal(r, c))
    } else if r + 1 < input.rows && !taken_before(out, r, c, r + 1, c) && is_valid(
        seq![input.grid[r][c], input.grid[r + 1][c]],
        input.min_ingredient,
        input.max_cells,
    ) {
        Some(vertical(r, c))
    } else {
        None
    }
}

/// Every slice of `out` is the one that the solver starts at its first cell.
pub open spec fn all_chosen(input: ProblemInputView, out: Seq<Slice>) -> bool {
    forall|k: int|
        0 <= k < out.len() ==> {
            &&& (#[trigger] out[k]).start_row < input.rows
            &&& out[k].start_col < input.cols
            &&& choice(input, out, out[k].start_row as int, out[k].start_col as int) == Some(
                out[k],
            )
        }
}

/// `out` holds the slice that the solver starts at each cell before the cell in
/// row `r` and column `c`.
pub open spec fn none_missed(input: ProblemInputView, out: Seq<Slice>, r: int, c: int) -> bool {
    forall|r2: int, c2: int|
        0 <= r2 < input.rows && 0 <= c2 < input.cols && precedes(r2, c2, r, c) && (
        #[trigger] choice(input, out, r2, c2)) is Some ==> out.contains(
            choice(input, out, r2, c2)->Some_0,
        )
}

/// The slices of `out` start one after the other, row by row and in a row from the left.
pub open spec fn in_scan_order(out: Seq<Slice>) -> bool {
    forall|k1: int, k2: int|
        0 <= k1 < k2 < out.len() ==> precedes(
            (#[trigger] out[k1]).start_row as int,
            out[k1].start_col as int,
            (#[trigger] out[k2]).start_row as int,
            out[k2].start_col as int,
        )
}

/// `out` is what the solver gives: at each cell of the grid, taken row by row and
/// in a row from the left, the slice that it starts there, and no other slice.
pub open spec fn is_greedy(input: ProblemInputView, out: Seq<Slice>) -> bool {
    &&& all_chosen(input, out)
    &&& none_missed(input, out, input.rows as int, 0)
    &&& in_scan_order(out)
}

/// A slice that does not start before a cell changes nothing of what is taken
/// before that cell.
pub proof fn lemma_taken_push(out: Seq<Slice>, s: Slice, r: int, c: int, r2: int, c2: int)
    requires
        !precedes(s.start_row as int, s.start_col as int, r, c),
    ensures
        taken_before(out.push(s), r, c, r2, c2) == taken_before(out, r, c, r2, c2),
{
    let more = out.push(s);
    if taken_before(more, r, c, r2, c2) {
        let k = choose|k: int|
            0 <= k < more.len() && precedes(
                (#[trigger] more[k]).start_row as int,
                more[k].start_col as int,
                r,
                c,
            ) && more[k].covers(r2, c2);
        assert(k < out.len());
        assert(out[k] == more[k]);
    }
    if taken_before(out, r, c, r2, c2) {
        let k = choose|k: int|
            0 <= k < out.len() && precedes(
                (#[trigger] out[k]).start_row as int,
                out[k].start_col as int,
                r,
                c,
            ) && out[k].covers(r2, c2);
        assert(more[k] == out[k]);
    }
}

/// A slice that does not start before a cell changes nothing of what the solver
/// starts at that cell.
pub proof fn lemma_choice_push(input: ProblemInputView, out: Seq<Slice>, s: Slice, r: int, c: int)
    requires
        !precedes(s.start_row as int, s.start_col as int, r, c),
    ensures
        choice(input, out.push(s), r, c) == choice(input, out, r, c),
{
    lemma_taken_push(out, s, r, c, r, c);
    lemma_taken_push(out, s, r, c, r, c + 1);
    lemma_taken_push(out, s, r, c, r + 1, c);
}

/// Where every slice starts before a cell, what is taken before that cell is what
/// the slices hold.
pub proof fn lemma_taken_is_claimed(out: Seq<Slice>, r: int, c: int, r2: int, c2: int)
    requires
        forall|k: int|
            0 <= k < out.len() ==> precedes(
                (#[trigger] out[k]).start_row as int,
                out[k].start_col as int,
                r,
                c,
            ),
    ensures
        taken_before(out, r, c, r2, c2) == claimed_before(out, out.len() as int, r2, c2),
{
    if claimed_before(out, out.len() as int, r2, c2) {
        let k = choose|k: int| 0 <= k < out.len() && (#[trigger] out[k]).covers(r2, c2);
        assert(precedes(out[k].start_row as int, out[k].start_col as int, r, c));
    }
}

/// What the slices hold once one more is added.
pub proof fn lemma_claimed_push(out: Seq<Slice>, s: Slice, i: int, r: int, c: int)
    requires
        0 <= i <= out.len(),
    ensures
        claimed_before(out.push(s), i, r, c) == claimed_before(out, i, r, c),
        claimed_before(out.push(s), out.len() as int + 1, r, c) == (claimed_before(
            out,
            out.len() as int,
            r,
            c,
        ) || s.covers(r, c)),
{
    let more = out.push(s);
    if claimed_before(more, i, r, c) {
        let j = choose|j: int| 0 <= j < i && (#[trigger] more[j]).covers(r, c);
        assert(out[j] == more[j]);
    }
    if claimed_before(out, i, r, c) {
        let j = choose|j: int| 0 <= j < i && (#[trigger] out[j]).covers(r, c);
        assert(more[j] == out[j]);
    }
    if claimed_before(more, out.len() as int + 1, r, c) {
        let j = choose|j: int| 0 <= j < out.len() + 1 && (#[trigger] more[j]).covers(r, c);
        if j < out.len() {
            assert(out[j] == more[j]);
        }
    }
    if claimed_before(out, out.len() as int, r, c) {
        let j = choose|j: int| 0 <= j < out.len() && (#[trigger] out[j]).covers(r, c);
        assert(more[j] == out[j]);
    }
    if s.covers(r, c) {
        assert(more[out.len() as int] == s);
    }
}

/// A slice without a defect keeps none when a slice is added behind it.
pub proof fn lemma_defect_push(input: ProblemInputView, out: Seq<Slice>, s: Slice, k: int)
    requires
        0 <= k < out.len(),
        defect(input, out, k) is None,
    ensures
        defect(input, out.push(s), k) is None,
{
    let more = out.push(s);
    assert(more[k] == out[k]);
    if has_collision(more, k) {
        let m = choose|m: int| is_first_collision(more, k, m);
        let cells = out[k].cells();
        assert forall|n: int| 0 <= n <= m implies claimed_before(
            more,
            k,
            (#[trigger] cells[n]).0 as int,
            cells[n].1 as int,
        ) == claimed_before(out, k, cells[n].0 as int, cells[n].1 as int) by {
            lemma_claimed_push(out, s, k, cells[n].0 as int, cells[n].1 as int);
        }
        assert(is_first_collision(out, k, m));
        assert(has_collision(out, k));
    }
}

/// The two cells of a slice of two cells in a row.
pub proof fn lemma_horizontal_cells(r: int, c: int)
    requires
        0 <= r <= usize::MAX,
        0 <= c < usize::MAX,
    ensures
        horizontal(r, c).cells() =~= seq![(r as usize, c as usize), (r as usize, (c + 1) as usize)],
        horizontal(r, c).oriented(),
        horizontal(r, c).area() == 2,
{
    let s = horizontal(r, c);
    assert(s.width() == 2 && s.height() == 1);
    assert(s.area() == 2) by (nonlinear_arith)
        requires
            s.area() == s.height() * s.width(),
            s.width() == 2,
            s.height() == 1,
    ;
    assert(0int / 2 == 0 && 0int % 2 == 0 && 1int / 2 == 0 && 1int % 2 == 1);
}

/// The two cells of a slice of two cells in a column.
pub proof fn lemma_vertical_cells(r: int, c: int)
    requires
        0 <= r < usize::MAX,
        0 <= c <= usize::MAX,
    ensures
        vertical(r, c).cells() =~= seq![(r as usize, c as usize), ((r + 1) as usize, c as usize)],
        vertical(r, c).oriented(),
        vertical(r, c).area() == 2,
{
    let s = vertical(r, c);
    assert(s.width() == 1 && s.height() == 2);
    assert(s.area() == 2) by (nonlinear_arith)
        requires
            s.area() == s.height() * s.width(),
            s.width() == 1,
            s.height() == 2,
    ;
    assert(0int / 1 == 0 && 0int % 1 == 0 && 1int / 1 == 1 && 1int % 1 == 0);
}

/// Two cells hold as many of an ingredient on the grid as their ingredients count.
pub proof fn lemma_pair_count(
    grid: Seq<Seq<Ingredient>>,
    a: (usize, usize),
    b: (usize, usize),
    kind: Ingredient,
)
    ensures
        count_of(grid, seq![a, b], kind) == kind_count(
            seq![grid[a.0 as int][a.1 as int], grid[b.0 as int][b.1 as int]],
            kind,
        ),
{
    let cells = seq![a, b];
    let held = seq![grid[a.0 as int][a.1 as int], grid[b.0 as int][b.1 as int]];
    assert(cells.drop_last() =~= seq![a]);
    assert(seq![a].drop_last() =~= Seq::<(usize, usize)>::empty());
    assert(held.drop_last() =~= seq![grid[a.0 as int][a.1 as int]]);
    assert(seq![grid[a.0 as int][a.1 as int]].drop_last() =~= Seq::<Ingredient>::empty());
    assert(count_of(grid, seq![a], kind) == count_of(
        grid,
        Seq::<(usize, usize)>::empty(),
        kind,
    ) + if grid[a.0 as int][a.1 as int] == kind {
        1nat
    } else {
        0nat
    });
    assert(kind_count(seq![grid[a.0 as int][a.1 as int]], kind) == kind_count(
        Seq::<Ingredient>::empty(),
        kind,
    ) + if grid[a.0 as int][a.1 as int] == kind {
        1nat
    } else {
        0nat
    });
}

/// The state of the scan when it reaches the cell in row `r` and column `c`: `used`
/// marks the cells that the slices `out` hold; every slice starts before that cell,
/// is the one that the solver starts at its first cell, and has no defect; and no
/// slice that the solver starts before that cell is missing.
pub open spec fn scan_state(
    input: ProblemInputView,
    out: Seq<Slice>,
    used: Seq<Seq<bool>>,
    r: int,
    c: int,
) -> bool {
    &&& used.len() == input.rows
    &&& forall|r2: int| 0 <= r2 < input.rows ==> (#[trigger] used[r2]).len() == input.cols
    &&& forall|r2: int, c2: int|
        0 <= r2 < input.rows && 0 <= c2 < input.cols ==> (#[trigger] used[r2][c2])
            == claimed_before(out, out.len() as int, r2, c2)
    &&& forall|k: int|
        0 <= k < out.len() ==> precedes(
            (#[trigger] out[k]).start_row as int,
            out[k].start_col as int,
            r,
            c,
        )
    &&& all_chosen(input, out)
    &&& none_missed(input, out, r, c)
    &&& in_scan_order(out)
    &&& forall|k: int| 0 <= k < out.len() ==> defect(input, out, k) is None
}

/// What is taken before the cell that the scan has reached is what `used` marks.
pub proof fn lemma_taken_is_used(
    input: ProblemInputView,
    out: Seq<Slice>,
    used: Seq<Seq<bool>>,
    r: int,
    c: int,
    r2: int,
    c2: int,
)
    requires
        scan_state(input, out, used, r, c),
        0 <= r2 < input.rows,
        0 <= c2 < input.cols,
    ensures
        taken_before(out, r, c, r2, c2) == used[r2][c2],
{
    lemma_taken_is_claimed(out, r, c, r2, c2);
}

/// The scan goes on to the next cell where the solver starts no slice.
pub proof fn lemma_scan_skip(
    input: ProblemInputView,
    out: Seq<Slice>,
    used: Seq<Seq<bool>>,
    r: int,
    c: int,
)
    requires
        scan_state(input, out, used, r, c),
        choice(input, out, r, c) is None,
    ensures
        scan_state(input, out, used, r, c + 1),
{
    assert forall|r2: int, c2: int|
        0 <= r2 < input.rows && 0 <= c2 < input.cols && precedes(r2, c2, r, c + 1) && (
        #[trigger] choice(input, out, r2, c2)) is Some implies out.contains(
        choice(input, out, r2, c2)->Some_0,
    ) by {
        assert(precedes(r2, c2, r, c));
    }
}

/// The scan goes on to the next row at the end of a row.
pub proof fn lemma_scan_next_row(
    input: ProblemInputView,
    out: Seq<Slice>,
    used: Seq<Seq<bool>>,
    r: int,
)
    requires
        scan_state(input, out, used, r, input.cols as int),
    ensures
        scan_state(input, out, used, r + 1, 0),
{
    assert forall|r2: int, c2: int|
        0 <= r2 < input.rows && 0 <= c2 < input.cols && precedes(r2, c2, r + 1, 0) && (
        #[trigger] choice(input, out, r2, c2)) is Some implies out.contains(
        choice(input, out, r2, c2)->Some_0,
    ) by {
        assert(precedes(r2, c2, r, input.cols as int));
    }
}

/// The slice that the solver starts at a free cell has no defect behind the slices
/// before it.
pub proof fn lemma_chosen_is_sound(
    input: ProblemInputView,
    out: Seq<Slice>,
    used: Seq<Seq<bool>>,
    s: Slice,
    r: int,
    c: int,
)
    requires
        input.wf(),
        scan_state(input, out, used, r, c),
        0 <= r < input.rows,
        0 <= c < input.cols,
        choice(input, out, r, c) == Some(s),
    ensures
        defect(input, out.push(s), out.len() as int) is None,
        s.start_row == r,
        s.start_col == c,
        forall|r2: int, c2: int|
            s.covers(r2, c2) ==> 0 <= r2 < input.rows && 0 <= c2 < input.cols && !used[r2][c2],
{
    let more = out.push(s);
    let n = out.len() as int;
    assert(more[n] == s);
    lemma_taken_is_used(input, out, used, r, c, r, c);
    let first = (r as usize, c as usize);
    let second = s.cells()[1];
    if s == horizontal(r, c) {
        lemma_horizontal_cells(r, c);
        lemma_taken_is_used(input, out, used, r, c, r, c + 1);
        assert(input.grid[r].len() == input.cols);
    } else {
        assert(s == vertical(r, c));
        lemma_vertical_cells(r, c);
        lemma_taken_is_used(input, out, used, r, c, r + 1, c);
        assert(input.grid[r].len() == input.cols);
        assert(input.grid[r + 1].len() == input.cols);
    }
    assert(s.cells() =~= seq![first, second]);
    lemma_pair_count(input.grid, first, second, Ingredient::Tomato);
    lemma_pair_count(input.grid, first, second, Ingredient::Mushroom);
    assert(slice_violation(input, s, n as nat) is None);
    assert forall|r2: int, c2: int| s.covers(r2, c2) implies 0 <= r2 < input.rows && 0 <= c2
        < input.cols && !used[r2][c2] by {
        assert((r2, c2) == (first.0 as int, first.1 as int) || (r2, c2) == (
            second.0 as int,
            second.1 as int,
        ));
    }
    if has_collision(more, n) {
        let m = choose|m: int| is_first_collision(more, n, m);
        let cell = s.cells()[m];
        lemma_claimed_push(out, s, n, cell.0 as int, cell.1 as int);
        assert(s.covers(cell.0 as int, cell.1 as int));
        assert(false);
    }
}

/// The scan goes on to the next cell with the slice that the solver starts.
pub proof fn lemma_scan_place(
    input: ProblemInputView,
    out: Seq<Slice>,
    used: Seq<Seq<bool>>,
    s: Slice,
    marked: Seq<Seq<bool>>,
    r: int,
    c: int,
)
    requires
        input.wf(),
        scan_state(input, out, used, r, c),
        0 <= r < input.rows,
        0 <= c < input.cols,
        choice(input, out, r, c) == Some(s),
        marked.len() == input.rows,
        forall|r2: int| 0 <= r2 < input.rows ==> (#[trigger] marked[r2]).len() == input.cols,
        forall|r2: int, c2: int|
            0 <= r2 < input.rows && 0 <= c2 < input.cols ==> (#[trigger] marked[r2][c2]) == (
            used[r2][c2] || s.covers(r2, c2)),
    ensures
        scan_state(input, out.push(s), marked, r, c + 1),
{
    let more = out.push(s);
    let n = out.len() as int;
    lemma_chosen_is_sound(input, out, used, s, r, c);
    assert forall|r2: int, c2: int|
        0 <= r2 < input.rows && 0 <= c2 < input.cols implies (#[trigger] marked[r2][c2])
        == claimed_before(more, more.len() as int, r2, c2) by {
        lemma_claimed_push(out, s, n, r2, c2);
    }
    assert forall|k: int| 0 <= k < more.len() implies precedes(
        (#[trigger] more[k]).start_row as int,
        more[k].start_col as int,
        r,
        c + 1,
    ) by {
        if k < n {
            assert(more[k] == out[k]);
        }
    }
    assert forall|k: int| 0 <= k < more.len() implies {
        &&& (#[trigger] more[k]).start_row < input.rows
        &&& more[k].start_col < input.cols
        &&& choice(input, more, more[k].start_row as int, more[k].start_col as int) == Some(
            more[k],
        )
    } by {
        if k < n {
            assert(more[k] == out[k]);
        }
        lemma_choice_push(input, out, s, more[k].start_row as int, more[k].start_col as int);
    }
    assert forall|r2: int, c2: int|
        0 <= r2 < input.rows && 0 <= c2 < input.cols && precedes(r2, c2, r, c + 1) && (
        #[trigger] choice(input, more, r2, c2)) is Some implies more.contains(
        choice(input, more, r2, c2)->Some_0,
    ) by {
        lemma_choice_push(input, out, s, r2, c2);
        if precedes(r2, c2, r, c) {
            let chosen = choice(input, out, r2, c2)->Some_0;
            assert(out.contains(chosen));
            let k = choose|k: int| 0 <= k < out.len() && out[k] == chosen;
            assert(more[k] == chosen);
        } else {
            assert(more[n] == s);
        }
    }
    assert forall|k1: int, k2: int| 0 <= k1 < k2 < more.len() implies precedes(
        (#[trigger] more[k1]).start_row as int,
        more[k1].start_col as int,
        (#[trigger] more[k2]).start_row as int,
        more[k2].start_col as int,
    ) by {
        assert(more[k1] == out[k1]);
        if k2 < n {
            assert(more[k2] == out[k2]);
        }
    }
    assert forall|k: int| 0 <= k < more.len() implies defect(input, more, k) is None by {
        if k < n {
            lemma_defect_push(input, out, s, k);
        }
    }
}

/// Once the scan has passed the last row, the slices are what the solver gives,
/// and scoring accepts them.
pub proof fn lemma_scan_done(input: ProblemInputView, out: Seq<Slice>, used: Seq<Seq<bool>>)
    requires
        scan_state(input, out, used, input.rows as int, 0),
    ensures
        is_greedy(input, out),
        score_of(input, out) is Ok,
{
    assert(!exists|i: int| is_first_defect(input, out, i));
}

/// The two ingredients as a list.
fn pair(a: Ingredient, b: Ingredient) -> (cells: Vec<Ingredient>)
    ensures
        cells@ == seq![a, b],
{
    let mut cells: Vec<Ingredient> = Vec::new();
    cells.push(a);
    cells.push(b);
    cells
}

/// Cuts slices of two cells. The cells are taken row by row and in a row from the
/// left. At a free cell a slice starts with the right neighbour, where that is free
/// and the two can make a slice; else with the cell below, likewise.
///
/// The slices come in the order of their first cells, and scoring accepts them.
pub fn solve(input: &ProblemInput) -> (out: ProblemSubmission)
    requires
        input.wf(),
    ensures
        is_greedy(input@, out@),
        score_of(input@, out@) is Ok,
{
    let mut used = free_grid(input.rows, input.cols);
    let mut slices: Vec<Slice> = Vec::new();
    let mut r: usize = 0;
    assert(scan_state(input@, slices@, grid_of(used@), 0, 0));
    while r < input.rows
        invariant
            input.wf(),
            r <= input.rows,
            used@.len() == input.rows,
            forall|r2: int| 0 <= r2 < input.rows ==> (#[trigger] used@[r2])@.len() == input.cols,
            scan_state(input@, slices@, grid_of(used@), r as int, 0),
        decreases input.rows - r,
    {
        let mut c: usize = 0;
        while c < input.cols
            invariant
                input.wf(),
                r < input.rows,
                c <= input.cols,
                used@.len() == input.rows,
                forall|r2: int|
                    0 <= r2 < input.rows ==> (#[trigger] used@[r2])@.len() == input.cols,
                scan_state(input@, slices@, grid_of(used@), r as int, c as int),
            decreases input.cols - c,
        {
            let ghost before = grid_of(used@);
            let ghost placed = slices@;
            proof {
                lemma_taken_is_used(input@, placed, before, r as int, c as int, r as int, c as int);
                if c + 1 < input.cols {
                    lemma_taken_is_used(
                        input@,
                        placed,
                        before,
                        r as int,
                        c as int,
                        r as int,
                        c + 1,
                    );
                }
                if r + 1 < input.rows {
                    lemma_taken_is_used(
                        input@,
                        placed,
                        before,
                        r as int,
                        c as int,
                        r + 1,
                        c as int,
                    );
                }
                assert(input@.grid[r as int] == input.grid@[r as int]@);
                assert(before[r as int] == used@[r as int]@);
            }
            let mut done = used[r][c];
            if !done && c + 1 < input.cols && !used[r][c + 1] {
                let cells = pair(input.grid[r][c], input.grid[r][c + 1]);
                if is_valid_slice(cells.as_slice(), input.min_ingredient, input.max_cells) {
                    let slice = Slice { start_row: r, start_col: c, end_row: r, end_col: c + 1 };
                    assert(choice(input@, placed, r as int, c as int) == Some(slice));
                    mark(&mut used, r, c);
                    mark(&mut used, r, c + 1);
                    slices.push(slice);
                    proof {
                        lemma_scan_place(
                            input@,
                            placed,
                            before,
                            slice,
                            grid_of(used@),
                            r as int,
                            c as int,
                        );
                    }
                    done = true;
                }
            }
            if !done && r + 1 < input.rows && !used[r + 1][c] {
                proof {
                    assert(input@.grid[r + 1] == input.grid@[r + 1]@);
                    assert(before[r + 1] == used@[r + 1]@);
                }
                let cells = pair(input.grid[r][c], input.grid[r + 1][c]);
                if is_valid_slice(cells.as_slice(), input.min_ingredient, input.max_cells) {
                    let slice = Slice { start_row: r, start_col: c, end_row: r + 1, end_col: c };
                    assert(choice(input@, placed, r as int, c as int) == Some(slice));
                    mark(&mut used, r, c);
                    mark(&mut used, r + 1, c);
                    slices.push(slice);
                    proof {
                        lemma_scan_place(
                            input@,
                            placed,
                            before,
                            slice,
                            grid_of(used@),
                            r as int,
                            c as int,
                        );
                    }
                    done = true;
                }
            }
            proof {
                if slices@ == placed {
                    assert(grid_of(used@) == before);
                    assert(choice(input@, placed, r as int, c as int) is None);
                    lemma_scan_skip(input@, placed, before, r as int, c as int);
                }
            }
            c += 1;
        }
        proof {
            lemma_scan_next_row(input@, slices@, grid_of(used@), r as int);
        }
        r += 1;
    }
    proof {
        lemma_scan_done(input@, slices@, grid_of(used@));
    }
    ProblemSubmission { slices }
}

/// Every slice of `a` that starts before the cell in row `r` and column `c` is a
/// slice of `b`.
pub open spec fn found_before(a: Seq<Slice>, b: Seq<Slice>, r: int, c: int) -> bool {
    forall|s: Slice|
        #[trigger] a.contains(s) && precedes(s.start_row as int, s.start_col as int, r, c)
            ==> b.contains(s)
}

/// Where two lists hold the same slices that start before a cell, the same is taken
/// before that cell in both.
pub proof fn lemma_taken_in_both(a: Seq<Slice>, b: Seq<Slice>, r: int, c: int, r2: int, c2: int)
    requires
        found_before(a, b, r, c),
        taken_before(a, r, c, r2, c2),
    ensures
        taken_before(b, r, c, r2, c2),
{
    let k = choose|k: int|
        0 <= k < a.len() && precedes(
            (#[trigger] a[k]).start_row as int,
            a[k].start_col as int,
            r,
            c,
        ) && a[k].covers(r2, c2);
    assert(a.contains(a[k]));
    let j = choose|j: int| 0 <= j < b.len() && b[j] == a[k];
    assert(precedes(b[j].start_row as int, b[j].start_col as int, r, c) && b[j].covers(r2, c2));
}

/// Where two lists hold the same slices that start before a cell, the solver starts
/// the same slice at that cell after both.
pub proof fn lemma_choice_in_both(
    input: ProblemInputView,
    a: Seq<Slice>,
    b: Seq<Slice>,
    r: int,
    c: int,
)
    requires
        found_before(a, b, r, c),
        found_before(b, a, r, c),
    ensures
        choice(input, a, r, c) == choice(input, b, r, c),
{
    if taken_before(a, r, c, r, c) {
        lemma_taken_in_both(a, b, r, c, r, c);
    }
    if taken_before(b, r, c, r, c) {
        lemma_taken_in_both(b, a, r, c, r, c);
    }
    if taken_before(a, r, c, r, c + 1) {
        lemma_taken_in_both(a, b, r, c, r, c + 1);
    }
    if taken_before(b, r, c, r, c + 1) {
        lemma_taken_in_both(b, a, r, c, r, c + 1);
    }
    if taken_before(a, r, c, r + 1, c) {
        lemma_taken_in_both(a, b, r, c, r + 1, c);
    }
    if taken_before(b, r, c, r + 1, c) {
        lemma_taken_in_both(b, a, r, c, r + 1, c);
    }
}

/// Of two lists that the solver can give, one goes on holding the slices of the
/// other past a cell at which both hold the same.
proof fn lemma_found_at(input: ProblemInputView, a: Seq<Slice>, b: Seq<Slice>, r: int, c: int)
    requires
        is_greedy(input, a),
        is_greedy(input, b),
        0 <= r < input.rows,
        0 <= c < input.cols,
        found_before(a, b, r, c),
        found_before(b, a, r, c),
    ensures
        found_before(a, b, r, c + 1),
{
    lemma_choice_in_both(input, a, b, r, c);
    assert forall|s: Slice|
        #[trigger] a.contains(s) && precedes(
            s.start_row as int,
            s.start_col as int,
            r,
            c + 1,
        ) implies b.contains(s) by {
        if !precedes(s.start_row as int, s.start_col as int, r, c) {
            let k = choose|k: int| 0 <= k < a.len() && a[k] == s;
            assert(choice(input, a, r, c) == Some(a[k]));
            assert(choice(input, b, r, c) is Some);
        }
    }
}

/// Two lists that the solver can give hold the same slices that start before a cell.
pub proof fn lemma_found_in_both(
    input: ProblemInputView,
    a: Seq<Slice>,
    b: Seq<Slice>,
    r: int,
    c: int,
)
    requires
        is_greedy(input, a),
        is_greedy(input, b),
        0 <= r <= input.rows,
        0 <= c <= input.cols,
        r == input.rows ==> c == 0,
    ensures
        found_before(a, b, r, c),
        found_before(b, a, r, c),
    decreases r, c,
{
    if c > 0 {
        lemma_found_in_both(input, a, b, r, c - 1);
        lemma_found_at(input, a, b, r, c - 1);
        lemma_found_at(input, b, a, r, c - 1);
    } else if r > 0 {
        lemma_found_in_both(input, a, b, r - 1, input.cols as int);
        assert forall|s: Slice|
            #[trigger] a.contains(s) && precedes(
                s.start_row as int,
                s.start_col as int,
                r,
                c,
            ) implies b.contains(s) by {
            let k = choose|k: int| 0 <= k < a.len() && a[k] == s;
            assert(a[k].start_col < input.cols);
            assert(precedes(s.start_row as int, s.start_col as int, r - 1, input.cols as int));
        }
        assert forall|s: Slice|
            #[trigger] b.contains(s) && precedes(
                s.start_row as int,
                s.start_col as int,
                r,
                c,
            ) implies a.contains(s) by {
            let k = choose|k: int| 0 <= k < b.len() && b[k] == s;
            assert(b[k].start_col < input.cols);
            assert(precedes(s.start_row as int, s.start_col as int, r - 1, input.cols as int));
        }
    }
}

/// Two lists in the order of the scan, each with the slices of the other, hold the
/// same slices at their first `n` places.
proof fn lemma_same_places(a: Seq<Slice>, b: Seq<Slice>, n: int)
    requires
        in_scan_order(a),
        in_scan_order(b),
        forall|s: Slice| #[trigger] a.contains(s) ==> b.contains(s),
        forall|s: Slice| #[trigger] b.contains(s) ==> a.contains(s),
        0 <= n <= a.len(),
    ensures
        n <= b.len(),
        forall|i: int| 0 <= i < n ==> a[i] == b[i],
    decreases n,
{
    if n > 0 {
        lemma_same_places(a, b, n - 1);
        let k = n - 1;
        assert(a.contains(a[k]));
        let j = choose|j: int| 0 <= j < b.len() && b[j] == a[k];
        if j < k {
            assert(a[j] == b[j]);
        }
        assert(k < b.len());
        assert(b.contains(b[k]));
        let i = choose|i: int| 0 <= i < a.len() && a[i] == b[k];
        if i < k {
            assert(a[i] == b[i]);
        }
        if j > k {
            if i > k {
                assert(precedes(
                    a[k].start_row as int,
                    a[k].start_col as int,
                    a[i].start_row as int,
                    a[i].start_col as int,
                ));
            }
            assert(precedes(
                b[k].start_row as int,
                b[k].start_col as int,
                b[j].start_row as int,
                b[j].start_col as int,
            ));
        }
    }
}

/// What the solver gives is determined: two lists of slices that are what the
/// solver gives for an instance are the same list.
pub proof fn solution_is_determined(input: ProblemInputView, a: Seq<Slice>, b: Seq<Slice>)
    requires
        is_greedy(input, a),
        is_greedy(input, b),
    ensures
        a == b,
{
    lemma_found_in_both(input, a, b, input.rows as int, 0);
    assert forall|s: Slice| #[trigger] a.contains(s) implies b.contains(s) by {
        let k = choose|k: int| 0 <= k < a.len() && a[k] == s;
        assert(a[k].start_row < input.rows);
    }
    assert forall|s: Slice| #[trigger] b.contains(s) implies a.contains(s) by {
        let k = choose|k: int| 0 <= k < b.len() && b[k] == s;
        assert(b[k].start_row < input.rows);
    }
    lemma_same_places(a, b, a.len() as int);
    lemma_same_places(b, a, b.len() as int);
    assert(a =~= b);
}

} // verus!
