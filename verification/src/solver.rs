//! Depth-first backtracking search over a board. Three strategies
//! share one observable contract: given a board whose pre-filled cells
//! violate no constraint, either complete it (returning `true` and
//! leaving a full, valid, finished board that keeps every pre-filled
//! digit) or return `false` and leave the board exactly as it was.
//! Each strategy finds a solution whenever one exists.

use vstd::prelude::*;

use crate::board::{Board, BoardView, lemma_cage_size_congruent, lemma_cage_values,
    lemma_cage_values_distinct, lemma_counts_nonneg, lemma_finished_congruent,
    lemma_finished_full, lemma_full_no_empties, lemma_place_preserves_valid,
    lemma_place_then_clear, lemma_solution_digit_possible, lemma_with_cell_counts};
use crate::cage_table::{CageTable, TableItem, appears_before, digit_in_entry, find_from,
    lemma_find_from_entry, table_complete, valid_combo};
use crate::counting::sum_upto;

verus! {

/// First empty cell of the board in row-major order: row 0 first, and
/// within a row column 0 first.
fn first_empty(board: &Board) -> (r: Option<(usize, usize)>)
    requires
        board@.wf(),
    ensures
        match r {
            Some(p) => p.0 < 9 && p.1 < 9 && board@.cell(p.0 as int, p.1 as int) == 0,
            None => board@.full(),
        },
{
    let mut y: usize = 0;
    while y < 9
        invariant
            y <= 9,
            forall|j: int, i: int| 0 <= j < y && 0 <= i < 9 ==> #[trigger] board@.cell(i, j) != 0,
        decreases 9 - y,
    {
        let mut x: usize = 0;
        while x < 9
            invariant
                x <= 9,
                y < 9,
                forall|i: int| 0 <= i < x ==> #[trigger] board@.cell(i, y as int) != 0,
            decreases 9 - x,
        {
            if board.get_value(x, y) == 0 {
                return Some((x, y));
            }
            x = x + 1;
        }
        y = y + 1;
    }
    proof {
        assert forall|k: int| 0 <= k < 81 implies #[trigger] board@.grid[k] != 0 by {
            let j = k / 9;
            let i = k % 9;
            assert(k == j * 9 + i && 0 <= i < 9 && 0 <= j < 9) by (nonlinear_arith)
                requires 0 <= k < 81, i == k % 9, j == k / 9;
            assert(board@.cell(i, j) != 0);
        }
    }
    None
}

/// A solution of `base` that places `num` at the empty cell (`x`, `y`)
/// also solves the board with that digit placed.
proof fn lemma_solution_after_place(s: BoardView, base: BoardView, x: int, y: int, num: int)
    requires
        s.solves(base),
        0 <= x < 9,
        0 <= y < 9,
        base.grid.len() == 81,
        base.cell(x, y) == 0,
        s.cell(x, y) == num,
    ensures
        s.solves(base.with_cell(x, y, num)),
{
    let b1 = base.with_cell(x, y, num);
    assert forall|i: int| 0 <= i < 81 && #[trigger] b1.grid[i] != 0 implies s.grid[i]
        == b1.grid[i] by {
        if i != y * 9 + x {
            assert(b1.grid[i] == base.grid[i]);
        }
    }
}

/// A board solving a one-step extension of `base` also solves `base`.
proof fn lemma_solution_unplace(f: BoardView, base: BoardView, x: int, y: int, num: int)
    requires
        base.grid.len() == 81,
        0 <= x < 9,
        0 <= y < 9,
        base.cell(x, y) == 0,
        num != 0,
        f.solves(base.with_cell(x, y, num)),
    ensures
        f.solves(base),
{
    let b1 = base.with_cell(x, y, num);
    assert forall|i: int| 0 <= i < 81 && #[trigger] base.grid[i] != 0 implies f.grid[i]
        == base.grid[i] by {
        assert(i != y * 9 + x);
        assert(b1.grid[i] == base.grid[i]);
    }
}

/// Search strategy affects performance, not the discovered solution's
/// validity: each strategy's result solves the board it was given, so
/// on a board with a unique solution every strategy that succeeds
/// returns that one solution.
pub proof fn lemma_strategies_agree(b: BoardView, s1: BoardView, s2: BoardView)
    requires
        s1.solves(b),
        s2.solves(b),
        forall|t1: BoardView, t2: BoardView|
            #[trigger] t1.solves(b) && #[trigger] t2.solves(b) ==> t1.grid == t2.grid,
    ensures
        s1.grid == s2.grid,
{
}

/// Strategy A: naive enumeration. Visits the cells in row-major index
/// order starting at `i`; skips filled cells; at an empty cell tries
/// the digits 1..9 in ascending order, each guarded by the full
/// placement check, and undoes a speculative write before moving on.
pub fn simple_brute_force_function(board: &mut Board, i: usize) -> (r: bool)
    requires
        old(board)@.wf(),
        old(board)@.valid(),
        i <= 81,
    ensures
        final(board)@.wf(),
        !r ==> final(board)@ == old(board)@,
        r ==> final(board)@.solves(old(board)@) && final(board)@.solved == old(board)@.solved,
        ((forall|j: int| 0 <= j < i ==> old(board)@.grid[j] != 0) && (exists|s: BoardView|
            #[trigger] s.solves(old(board)@))) ==> r,
    decreases 81 - i,
{
    let ghost b0 = board@;
    if i >= 81 {
        let r = board.is_finished();
        proof {
            if r {
                lemma_finished_full(b0);
                assert(b0.solves(b0));
            } else {
                if (forall|j: int| 0 <= j < 81 ==> b0.grid[j] != 0) && (exists|s: BoardView|
                    #[trigger] s.solves(b0)) {
                    let s = choose|s: BoardView| s.solves(b0);
                    assert(s.grid =~= b0.grid);
                    lemma_finished_congruent(s, b0);
                    assert(false);
                }
            }
        }
        return r;
    }
    let x = i % 9;
    let y = i / 9;
    proof {
        assert(i as int == y as int * 9 + x && x < 9 && y < 9) by (nonlinear_arith)
            requires 0 <= i < 81, x == i as int % 9, y == i as int / 9;
    }
    if board.get_value(x, y) != 0 {
        let r = simple_brute_force_function(board, i + 1);
        return r;
    }
    let mut num: i32 = 1;
    while num <= 9
        invariant
            1 <= num <= 10,
            x < 9,
            y < 9,
            i as int == y as int * 9 + x,
            i < 81,
            board@ == b0,
            b0.cell(x as int, y as int) == 0,
            (forall|j: int| 0 <= j < i ==> b0.grid[j] != 0) ==> forall|s: BoardView|
                #[trigger] s.solves(b0) ==> s.cell(x as int, y as int) >= num,
        decreases 10 - num,
    {
        if board.is_possible(x, y, num) {
            proof {
                lemma_place_preserves_valid(b0, x as int, y as int, num as int);
                lemma_with_cell_counts(b0, x as int, y as int, num as int, 0, 81);
            }
            board.unchecked_set_num(x, y, num);
            let ghost b1 = board@;
            let r2 = simple_brute_force_function(board, i + 1);
            if r2 {
                proof {
                    lemma_solution_unplace(board@, b0, x as int, y as int, num as int);
                }
                return true;
            }
            board.unchecked_set_num(x, y, 0);
            proof {
                lemma_place_then_clear(b0, x as int, y as int, num as int);
                if forall|j: int| 0 <= j < i ==> b0.grid[j] != 0 {
                    assert forall|s: BoardView| #[trigger] s.solves(b0) implies s.cell(
                        x as int,
                        y as int,
                    ) >= num + 1 by {
                        if s.cell(x as int, y as int) == num {
                            lemma_solution_after_place(s, b0, x as int, y as int, num as int);
                            assert(forall|j: int| 0 <= j < i + 1 ==> b1.grid[j] != 0);
                            assert(false);
                        }
                    }
                }
            }
        } else {
            proof {
                if forall|j: int| 0 <= j < i ==> b0.grid[j] != 0 {
                    assert forall|s: BoardView| #[trigger] s.solves(b0) implies s.cell(
                        x as int,
                        y as int,
                    ) >= num + 1 by {
                        if s.cell(x as int, y as int) == num {
                            lemma_solution_digit_possible(s, b0, x as int, y as int);
                            assert(false);
                        }
                    }
                }
            }
        }
        num = num + 1;
    }
    proof {
        if (forall|j: int| 0 <= j < i ==> b0.grid[j] != 0) && (exists|s: BoardView|
            #[trigger] s.solves(b0)) {
            let s = choose|s: BoardView| s.solves(b0);
            assert(s.cell(x as int, y as int) >= 10);
            assert(s.grid[y as int * 9 + x] <= 9);
            assert(false);
        }
    }
    false
}

/// Strategy B: backtracking. Re-scans for the first empty cell at
/// every recursive call, tries the digits 1..9 in ascending order
/// under the full placement check, and undoes a speculative write
/// when the branch below it fails.
pub fn brute_force_with_backtracking(board: &mut Board) -> (r: bool)
    requires
        old(board)@.wf(),
        old(board)@.valid(),
    ensures
        final(board)@.wf(),
        !r ==> final(board)@ == old(board)@,
        r ==> final(board)@.solves(old(board)@) && final(board)@.solved == old(board)@.solved,
        (exists|s: BoardView| #[trigger] s.solves(old(board)@)) ==> r,
    decreases old(board)@.empty_count(),
{
    let ghost b0 = board@;
    let fe = first_empty(board);
    match fe {
        None => {
            let r = board.is_finished();
            proof {
                if r {
                    assert(b0.solves(b0));
                } else {
                    if exists|s: BoardView| #[trigger] s.solves(b0) {
                        let s = choose|s: BoardView| s.solves(b0);
                        assert(s.grid =~= b0.grid);
                        lemma_finished_congruent(s, b0);
                        assert(false);
                    }
                }
            }
            r
        },
        Some((x, y)) => {
            let mut num: i32 = 1;
            while num <= 9
                invariant
                    1 <= num <= 10,
                    x < 9,
                    y < 9,
                    board@ == b0,
                    b0.cell(x as int, y as int) == 0,
                    forall|s: BoardView|
                        #[trigger] s.solves(b0) ==> s.cell(x as int, y as int) >= num,
                decreases 10 - num,
            {
                if board.is_possible(x, y, num) {
                    proof {
                        lemma_place_preserves_valid(b0, x as int, y as int, num as int);
                        lemma_with_cell_counts(b0, x as int, y as int, num as int, 0, 81);
                    }
                    board.unchecked_set_num(x, y, num);
                    let ghost b1 = board@;
                    proof {
                        crate::board::lemma_counts_nonneg(b1, 0, 81);
                        assert(b1.empty_count() == b0.empty_count() - 1);
                    }
                    let r2 = brute_force_with_backtracking(board);
                    if r2 {
                        proof {
                            lemma_solution_unplace(board@, b0, x as int, y as int, num as int);
                        }
                        return true;
                    }
                    board.unchecked_set_num(x, y, 0);
                    proof {
                        lemma_place_then_clear(b0, x as int, y as int, num as int);
                        assert forall|s: BoardView| #[trigger] s.solves(b0) implies s.cell(
                            x as int,
                            y as int,
                        ) >= num + 1 by {
                            if s.cell(x as int, y as int) == num {
                                lemma_solution_after_place(s, b0, x as int, y as int, num as int);
                                assert(false);
                            }
                        }
                    }
                } else {
                    proof {
                        assert forall|s: BoardView| #[trigger] s.solves(b0) implies s.cell(
                            x as int,
                            y as int,
                        ) >= num + 1 by {
                            if s.cell(x as int, y as int) == num {
                                lemma_solution_digit_possible(s, b0, x as int, y as int);
                                assert(false);
                            }
                        }
                    }
                }
                num = num + 1;
            }
            proof {
                if exists|s: BoardView| #[trigger] s.solves(b0) {
                    let s = choose|s: BoardView| s.solves(b0);
                    assert(s.cell(x as int, y as int) >= 10);
                    assert(s.grid[y as int * 9 + x] <= 9);
                    assert(false);
                }
            }
            false
        },
    }
}

/// Strategy C: backtracking with cage-table pruning. At each empty
/// cell of a sum-constrained cage the candidate digits come from the
/// combination table entry for the cage's size and target sum; every
/// candidate is still guarded by the full placement check. Where the
/// cell's cage is unconstrained, where the table has no entry for the
/// pair, or where a listed candidate is not a digit 1..9, the search
/// falls back to plain enumeration of the digits 1..9. On a complete
/// table (see `table_complete`) the strategy finds every solution
/// whose cages repeat no digit.
pub fn brute_force_with_backtracking_and_cage_table(
    board: &mut Board,
    cage_table: &mut CageTable,
) -> (r: bool)
    requires
        old(board)@.wf(),
        old(board)@.valid(),
    ensures
        final(board)@.wf(),
        *final(cage_table) == *old(cage_table),
        !r ==> final(board)@ == old(board)@,
        r ==> final(board)@.solves(old(board)@) && final(board)@.solved == old(board)@.solved,
        (table_complete(old(cage_table)@) && (exists|s: BoardView|
            #[trigger] s.solves(old(board)@) && s.cage_distinct())) ==> r,
    decreases old(board)@.empty_count(),
{
    let ghost b0 = board@;
    let ghost ct0 = *old(cage_table);
    let fe = first_empty(board);
    match fe {
        None => {
            let r = board.is_finished();
            proof {
                if r {
                    assert(b0.solves(b0));
                } else {
                    if exists|s: BoardView| #[trigger] s.solves(b0) && s.cage_distinct() {
                        let s = choose|s: BoardView| s.solves(b0) && s.cage_distinct();
                        assert(s.grid =~= b0.grid);
                        lemma_finished_congruent(s, b0);
                        assert(false);
                    }
                }
            }
            r
        },
        Some((x, y)) => {
            let ghost pos = y as int * 9 + x as int;
            let ghost c = b0.cage_index[pos];
            let target = board.get_sum(x, y);
            let mut size: usize = 0;
            let mut item_opt: Option<TableItem> = None;
            if target > 0 {
                size = board.get_cage_size(x, y);
                proof {
                    lemma_counts_nonneg(b0, c, 81);
                }
                item_opt = cage_table.find(size as i32, target);
            }
            match item_opt {
                None => {
                    let mut num: i32 = 1;
                    while num <= 9
                        invariant
                            1 <= num <= 10,
                            x < 9,
                            y < 9,
                            board@ == b0,
                            *cage_table == ct0,
                            b0.cell(x as int, y as int) == 0,
                            table_complete(ct0@) ==> forall|s: BoardView|
                                (#[trigger] s.solves(b0)) && s.cage_distinct() ==> s.cell(
                                    x as int,
                                    y as int,
                                ) >= num,
                        decreases 10 - num,
                    {
                        if board.is_possible(x, y, num) {
                            proof {
                                lemma_place_preserves_valid(b0, x as int, y as int, num as int);
                                lemma_with_cell_counts(b0, x as int, y as int, num as int, 0, 81);
                            }
                            board.unchecked_set_num(x, y, num);
                            let ghost b1 = board@;
                            proof {
                                lemma_counts_nonneg(b1, 0, 81);
                                assert(b1.empty_count() == b0.empty_count() - 1);
                            }
                            let r2 = brute_force_with_backtracking_and_cage_table(
                                board,
                                cage_table,
                            );
                            if r2 {
                                proof {
                                    lemma_solution_unplace(
                                        board@,
                                        b0,
                                        x as int,
                                        y as int,
                                        num as int,
                                    );
                                }
                                return true;
                            }
                            board.unchecked_set_num(x, y, 0);
                            proof {
                                lemma_place_then_clear(b0, x as int, y as int, num as int);
                                if table_complete(ct0@) {
                                    assert forall|s: BoardView|
                                        (#[trigger] s.solves(b0)) && s.cage_distinct() implies s.cell(
                                        x as int,
                                        y as int,
                                    ) >= num + 1 by {
                                        if s.cell(x as int, y as int) == num {
                                            lemma_solution_after_place(
                                                s,
                                                b0,
                                                x as int,
                                                y as int,
                                                num as int,
                                            );
                                            assert(false);
                                        }
                                    }
                                }
                            }
                        } else {
                            proof {
                                if table_complete(ct0@) {
                                    assert forall|s: BoardView|
                                        (#[trigger] s.solves(b0)) && s.cage_distinct() implies s.cell(
                                        x as int,
                                        y as int,
                                    ) >= num + 1 by {
                                        if s.cell(x as int, y as int) == num {
                                            lemma_solution_digit_possible(
                                                s,
                                                b0,
                                                x as int,
                                                y as int,
                                            );
                                            assert(false);
                                        }
                                    }
                                }
                            }
                        }
                        num = num + 1;
                    }
                    proof {
                        if table_complete(ct0@) && (exists|s: BoardView|
                            #[trigger] s.solves(b0) && s.cage_distinct()) {
                            let s = choose|s: BoardView| s.solves(b0) && s.cage_distinct();
                            assert(s.cell(x as int, y as int) >= 10);
                            assert(s.grid[y as int * 9 + x] <= 9);
                            assert(false);
                        }
                    }
                    false
                },
                Some(item) => {
                    let ncombos = item.combinations.len();
                    let mut ci: usize = 0;
                    while ci < ncombos
                        invariant
                            ci <= ncombos,
                            x < 9,
                            y < 9,
                            board@ == b0,
                            *cage_table == ct0,
                            b0.cell(x as int, y as int) == 0,
                            table_complete(ct0@) ==> forall|s: BoardView|
                                (#[trigger] s.solves(b0)) && s.cage_distinct()
                                    ==> !appears_before(
                                    item@,
                                    s.cell(x as int, y as int),
                                    ci as int,
                                    0,
                                ),
                        decreases ncombos - ci,
                    {
                        let combo_len = item.combinations[ci].len();
                        let mut di: usize = 0;
                        while di < combo_len
                            invariant
                                di <= combo_len,
                                ci < ncombos,
                                board@ == b0,
                                *cage_table == ct0,
                                table_complete(ct0@) ==> forall|s: BoardView|
                                    (#[trigger] s.solves(b0)) && s.cage_distinct()
                                        ==> !appears_before(
                                        item@,
                                        s.cell(x as int, y as int),
                                        ci as int,
                                        di as int,
                                    ),
                            decreases combo_len - di,
                        {
                            let num_u = item.combinations[ci][di];
                            let ghost du = item@.combos[ci as int][di as int] as int;
                            let mut refuted = false;
                            if num_u >= 1 && num_u <= 9 {
                                let num = num_u as i32;
                                if board.is_possible(x, y, num) {
                                    proof {
                                        lemma_place_preserves_valid(
                                            b0,
                                            x as int,
                                            y as int,
                                            num as int,
                                        );
                                        lemma_with_cell_counts(
                                            b0,
                                            x as int,
                                            y as int,
                                            num as int,
                                            0,
                                            81,
                                        );
                                    }
                                    board.unchecked_set_num(x, y, num);
                                    let ghost b1 = board@;
                                    proof {
                                        lemma_counts_nonneg(b1, 0, 81);
                                        assert(b1.empty_count() == b0.empty_count() - 1);
                                    }
                                    let r2 = brute_force_with_backtracking_and_cage_table(
                                        board,
                                        cage_table,
                                    );
                                    if r2 {
                                        proof {
                                            lemma_solution_unplace(
                                                board@,
                                                b0,
                                                x as int,
                                                y as int,
                                                num as int,
                                            );
                                        }
                                        return true;
                                    }
                                    board.unchecked_set_num(x, y, 0);
                                    proof {
                                        lemma_place_then_clear(b0, x as int, y as int, num as int);
                                        if table_complete(ct0@) {
                                            assert forall|s: BoardView|
                                                (#[trigger] s.solves(b0))
                                                    && s.cage_distinct() implies s.cell(
                                                x as int,
                                                y as int,
                                            ) != du by {
                                                if s.cell(x as int, y as int) == num {
                                                    lemma_solution_after_place(
                                                        s,
                                                        b0,
                                                        x as int,
                                                        y as int,
                                                        num as int,
                                                    );
                                                    assert(false);
                                                }
                                            }
                                        }
                                    }
                                } else {
                                    proof {
                                        if table_complete(ct0@) {
                                            assert forall|s: BoardView|
                                                (#[trigger] s.solves(b0))
                                                    && s.cage_distinct() implies s.cell(
                                                x as int,
                                                y as int,
                                            ) != du by {
                                                if s.cell(x as int, y as int) == num {
                                                    lemma_solution_digit_possible(
                                                        s,
                                                        b0,
                                                        x as int,
                                                        y as int,
                                                    );
                                                    assert(false);
                                                }
                                            }
                                        }
                                    }
                                }
                            } else {
                                proof {
                                    if table_complete(ct0@) {
                                        assert forall|s: BoardView|
                                            (#[trigger] s.solves(b0))
                                                && s.cage_distinct() implies s.cell(
                                            x as int,
                                            y as int,
                                        ) != du by {
                                            assert(1 <= s.grid[y as int * 9 + x] <= 9);
                                        }
                                    }
                                }
                            }
                            proof {
                                if table_complete(ct0@) {
                                    assert forall|s: BoardView|
                                        (#[trigger] s.solves(b0))
                                            && s.cage_distinct() implies !appears_before(
                                        item@,
                                        s.cell(x as int, y as int),
                                        ci as int,
                                        di as int + 1,
                                    ) by {
                                        let d = s.cell(x as int, y as int);
                                        if appears_before(item@, d, ci as int, di as int + 1) {
                                            let (a2, b2) = choose|a2: int, b2: int|
                                                0 <= a2 < item@.combos.len() && 0 <= b2
                                                    < item@.combos[a2].len() && (a2 < ci as int || (
                                                a2 == ci as int && b2 < di as int + 1))
                                                    && item@.combos[a2][b2] as int == d;
                                            if a2 < ci as int || (a2 == ci as int && b2
                                                < di as int) {
                                                assert(appears_before(
                                                    item@,
                                                    d,
                                                    ci as int,
                                                    di as int,
                                                ));
                                            } else {
                                                assert(a2 == ci as int && b2 == di as int);
                                                assert(d == du);
                                            }
                                            assert(false);
                                        }
                                    }
                                }
                            }
                            di = di + 1;
                        }
                        proof {
                            if table_complete(ct0@) {
                                assert forall|s: BoardView|
                                    (#[trigger] s.solves(b0)) && s.cage_distinct() implies !appears_before(
                                    item@,
                                    s.cell(x as int, y as int),
                                    ci as int + 1,
                                    0,
                                ) by {
                                    let d = s.cell(x as int, y as int);
                                    if appears_before(item@, d, ci as int + 1, 0) {
                                        let (a2, b2) = choose|a2: int, b2: int|
                                            0 <= a2 < item@.combos.len() && 0 <= b2
                                                < item@.combos[a2].len() && (a2 < ci as int + 1 || (
                                            a2 == ci as int + 1 && b2 < 0)) && item@.combos[a2][b2]
                                                as int == d;
                                        assert(a2 < ci as int || (a2 == ci as int && b2
                                            < combo_len));
                                        assert(appears_before(item@, d, ci as int, combo_len as int));
                                        assert(false);
                                    }
                                }
                            }
                        }
                        ci = ci + 1;
                    }
                    proof {
                        if table_complete(ct0@) && (exists|s: BoardView|
                            #[trigger] s.solves(b0) && s.cage_distinct()) {
                            let s = choose|s: BoardView| s.solves(b0) && s.cage_distinct();
                            let d = s.cell(x as int, y as int);
                            lemma_find_from_entry(ct0@, size as int, target as int, 0);
                            let j = choose|j: int|
                                0 <= j < ct0@.len() && #[trigger] ct0@[j] == item@ && item@.size
                                    == size as int && item@.sum == target as int;
                            let q = s.cage_values_upto(c, 81);
                            lemma_cage_values(s, c, 81);
                            lemma_cage_values_distinct(s, c, 81);
                            lemma_cage_size_congruent(s, b0, c, 81);
                            lemma_full_no_empties(s, c, 81);
                            assert(s.cage_sum[pos] > 0);
                            assert(s.cage_filled_sum(s.cage_index[pos]) == s.cage_sum[pos]);
                            assert(q.len() == size as int);
                            assert(sum_upto(q, q.len() as int) == target as int);
                            assert forall|m: int| 0 <= m < q.len() implies 1 <= #[trigger] q[m]
                                <= 9 by {
                                let j2 = choose|j2: int|
                                    0 <= j2 < 81 && s.cage_index[j2] == c && s.grid[j2] == q[m];
                                assert(s.grid[j2] != 0);
                            }
                            assert(valid_combo(q, ct0@[j].size, ct0@[j].sum));
                            assert(q.contains(d)) by {
                                assert(s.cage_index[pos] == b0.cage_index[pos]);
                                assert(q.contains(s.grid[pos]));
                            }
                            assert(digit_in_entry(ct0@[j], d));
                            let (a2, b2) = choose|a2: int, b2: int|
                                0 <= a2 < item@.combos.len() && 0 <= b2 < item@.combos[a2].len()
                                    && item@.combos[a2][b2] as int == d;
                            assert(appears_before(item@, d, ncombos as int, 0));
                            assert(false);
                        }
                    }
                    false
                },
            }
        },
    }
}

} // verus!
