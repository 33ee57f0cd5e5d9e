//! A cheap heuristic for the next shot: every placement of every ship still
//! afloat that avoids the misses adds a weight to its cells not yet shot at, a
//! larger one the more unsunk hits it explains; a cell is then drawn with
//! probability proportional to its weight.
use vstd::prelude::*;
use crate::board::Board;
use crate::fleet::{hits_union, select};
use crate::mask::{bit_on, contains, in_grid, lemma_and_bits, lemma_not_bits, CELL_COUNT, GRID_SIZE};
use crate::chance::random_below;

verus! {

/// Largest weight one placement gives a cell.
pub const MAX_LIKELIHOOD: u64 = 48828125;

/// Sum of the first `n` weights.
pub open spec fn prefix_sum(w: Seq<u64>, n: int) -> nat
    decreases n,
{
    if n <= 0 {
        0
    } else {
        prefix_sum(w, n - 1) + w[n - 1] as nat
    }
}

/// The weight a placement gives each of its cells: the likelihood of the
/// placement (each unsunk hit it covers multiplies it by 5; one that covers none
/// while hits are on the board weighs a fifth), scaled by 5 so that it stays
/// whole. With no unsunk hit on the board, 5; with some, `5^(n + 1)` for a
/// placement that covers `n > 0` of them and 1 for one that covers none.
pub open spec fn spec_likelihood(n_hits: nat, any_hits: bool) -> nat
{
    if !any_hits {
        5
    } else if n_hits == 0 {
        1
    } else {
        5 * pow5(n_hits)
    }
}

/// `5^n`.
pub open spec fn pow5(n: nat) -> nat
    decreases n,
{
    if n == 0 {
        1
    } else {
        5 * pow5((n - 1) as nat)
    }
}

fn likelihood(n_hits: usize, any_hits: bool) -> (w: u64)
    requires
        n_hits <= 10,
    ensures
        w == spec_likelihood(n_hits as nat, any_hits),
        0 < w <= MAX_LIKELIHOOD,
{
    if !any_hits {
        return 5;
    }
    if n_hits == 0 {
        return 1;
    }
    let mut p: u64 = 5;
    let mut k: usize = 0;
    while k < n_hits
        invariant
            k <= n_hits <= 10,
            p == 5 * pow5(k as nat),
            p <= 5 * 9765625,
        decreases n_hits - k,
    {
        proof {
            lemma_pow5_bound(k as nat);
        }
        p = p * 5;
        k = k + 1;
        proof {
            lemma_pow5_bound(k as nat);
        }
    }
    proof {
        lemma_pow5_bound(n_hits as nat);
    }
    p
}

proof fn lemma_pow5_bound(n: nat)
    requires
        n <= 10,
    ensures
        1 <= pow5(n) <= 9765625,
{
    lemma_pow5_grows(n, 10);
    lemma_pow5_grows(0, n);
    reveal_with_fuel(pow5, 11);
    assert(pow5(10) == 9765625);
}

proof fn lemma_pow5_grows(n: nat, m: nat)
    requires
        n <= m,
    ensures
        pow5(n) <= pow5(m),
    decreases m,
{
    if n < m {
        lemma_pow5_grows(n, (m - 1) as nat);
    }
}

/// The heuristic weight of each cell; cells already shot at weigh nothing.
fn calc_pdf(board: &Board) -> (w: Vec<u64>)
    requires
        board.wf(),
    ensures
        w@.len() == CELL_COUNT,
        forall|c: int| 0 <= c < CELL_COUNT ==> #[trigger] w@[c] <= 10000 * MAX_LIKELIHOOD,
        forall|c: int|
            0 <= c < CELL_COUNT && bit_on(board.spec_guessed(), c) ==> #[trigger] w@[c] == 0,
{
    let unguessed = board.unguessed();
    let unsunk_hits = board.hit_coords(true, false);
    let misses_and_sunk = board.guessed() & !unsunk_hits;
    let lengths = board.ship_lengths_remaining();
    let any_hits = unsunk_hits != 0;
    let mut w: Vec<u64> = Vec::new();
    let mut c: usize = 0;
    while c < CELL_COUNT
        invariant
            c <= CELL_COUNT,
            w@.len() == c,
            forall|i: int| 0 <= i < c ==> #[trigger] w@[i] == 0,
        decreases CELL_COUNT - c,
    {
        w.push(0);
        c = c + 1;
    }
    assert(lengths@.len() <= 5) by {
        crate::board::lemma_lengths_remaining(*board);
    }
    let mut done: u64 = 0;
    let mut s: usize = 0;
    while s < lengths.len()
        invariant
            board.wf(),
            lengths@.len() <= 5,
            s <= lengths@.len(),
            done <= s * 200,
            w@.len() == CELL_COUNT,
            forall|i: int| 0 <= i < CELL_COUNT ==> #[trigger] w@[i] <= done * 10 * MAX_LIKELIHOOD,
            forall|i: int| #[trigger] bit_on(unguessed, i) <==> 0 <= i < CELL_COUNT && !bit_on(
                board.spec_guessed(),
                i,
            ),
            forall|i: int|
                0 <= i < CELL_COUNT && bit_on(board.spec_guessed(), i) ==> #[trigger] w@[i] == 0,
        decreases lengths@.len() - s,
    {
        let len = lengths[s];
        let mut start: usize = 0;
        while start < 2 * CELL_COUNT
            invariant
                board.wf(),
                s < lengths@.len() <= 5,
                start <= 2 * CELL_COUNT,
                done <= s * 200 + start,
                w@.len() == CELL_COUNT,
                forall|i: int| 0 <= i < CELL_COUNT ==> #[trigger] w@[i] <= done * 10 * MAX_LIKELIHOOD,
                forall|i: int| #[trigger] bit_on(unguessed, i) <==> 0 <= i < CELL_COUNT && !bit_on(
                    board.spec_guessed(),
                    i,
                ),
                forall|i: int|
                    0 <= i < CELL_COUNT && bit_on(board.spec_guessed(), i) ==> #[trigger] w@[i] == 0,
            decreases 2 * CELL_COUNT - start,
        {
            let cell = start / 2;
            let horizontal = start % 2 == 0;
            let origin = (cell / GRID_SIZE, cell % GRID_SIZE);
            if len <= GRID_SIZE {
                let placement = board.calc_placement(origin, len, horizontal);
                if board.valid_placement(&placement, misses_and_sunk) {
                    let mut n_hits: usize = 0;
                    let mut k: usize = 0;
                    while k < placement.len()
                        invariant
                            k <= placement@.len(),
                            placement@.len() == len,
                            len <= GRID_SIZE,
                            n_hits <= k,
                            crate::board::fits(placement@, misses_and_sunk),
                        decreases placement@.len() - k,
                    {
                        let (r, q) = placement[k];
                        assert(in_grid(placement@[k as int].0 as int, placement@[k as int].1 as int));
                        assert(r * 10 + q < 100) by (nonlinear_arith)
                            requires
                                r < 10,
                                q < 10,
                        ;
                        if contains(unsunk_hits, r * GRID_SIZE + q) {
                            n_hits = n_hits + 1;
                        }
                        k = k + 1;
                    }
                    let lw = likelihood(n_hits, any_hits);
                    let mut k: usize = 0;
                    while k < placement.len()
                        invariant
                            k <= placement@.len(),
                            crate::board::fits(placement@, misses_and_sunk),
                            w@.len() == CELL_COUNT,
                            placement@.len() == len,
                            len <= GRID_SIZE,
                            done < 1000,
                            lw <= MAX_LIKELIHOOD,
                            placement@.len() <= GRID_SIZE,
                            forall|i: int|
                                0 <= i < CELL_COUNT ==> #[trigger] w@[i] <= (done * 10 + k) * MAX_LIKELIHOOD,
                            forall|i: int| #[trigger] bit_on(unguessed, i) <==> 0 <= i < CELL_COUNT
                                && !bit_on(board.spec_guessed(), i),
                            forall|i: int|
                                0 <= i < CELL_COUNT && bit_on(board.spec_guessed(), i) ==> #[trigger] w@[i]
                                    == 0,
                        decreases placement@.len() - k,
                    {
                        let (r, q) = placement[k];
                        assert(in_grid(placement@[k as int].0 as int, placement@[k as int].1 as int));
                        assert(r * 10 + q < 100) by (nonlinear_arith)
                            requires
                                r < 10,
                                q < 10,
                        ;
                        let i = r * GRID_SIZE + q;
                        if contains(unguessed, i) {
                            let v = w[i] + lw;
                            w.set(i, v);
                        }
                        k = k + 1;
                    }
                }
            }
            done = done + 1;
            start = start + 1;
        }
        s = s + 1;
    }
    w
}

/// The first cell at which the running sum of the weights passes `pick`.
pub fn sample_pdf(w: &Vec<u64>, pick: u64) -> (c: usize)
    requires
        w@.len() == CELL_COUNT,
        pick < prefix_sum(w@, CELL_COUNT as int),
    ensures
        c < CELL_COUNT,
        prefix_sum(w@, c as int) <= pick < prefix_sum(w@, c + 1),
{
    let mut sum: u128 = 0;
    let mut c: usize = 0;
    while c < CELL_COUNT
        invariant
            c <= CELL_COUNT,
            w@.len() == CELL_COUNT,
            sum == prefix_sum(w@, c as int),
            sum <= pick,
            pick < prefix_sum(w@, CELL_COUNT as int),
        decreases CELL_COUNT - c,
    {
        proof {
            lemma_prefix_bound(w@, c as int + 1);
        }
        sum = sum + w[c] as u128;
        if (pick as u128) < sum {
            return c;
        }
        c = c + 1;
    }
    c
}

proof fn lemma_prefix_bound(w: Seq<u64>, n: int)
    requires
        0 <= n <= w.len(),
    ensures
        prefix_sum(w, n) <= n * 18446744073709551615,
    decreases n,
{
    if n > 0 {
        lemma_prefix_bound(w, n - 1);
    }
}

/// Total of the weights.
fn total(w: &Vec<u64>) -> (t: u64)
    requires
        w@.len() == CELL_COUNT,
        forall|c: int| 0 <= c < CELL_COUNT ==> #[trigger] w@[c] <= 10000 * MAX_LIKELIHOOD,
    ensures
        t == prefix_sum(w@, CELL_COUNT as int),
{
    let mut t: u64 = 0;
    let mut c: usize = 0;
    while c < CELL_COUNT
        invariant
            c <= CELL_COUNT,
            w@.len() == CELL_COUNT,
            forall|i: int| 0 <= i < CELL_COUNT ==> #[trigger] w@[i] <= 10000 * MAX_LIKELIHOOD,
            t == prefix_sum(w@, c as int),
            t <= c * 10000 * MAX_LIKELIHOOD,
        decreases CELL_COUNT - c,
    {
        t = t + w[c];
        c = c + 1;
    }
    t
}

/// Draws the next shot from the heuristic weights: a cell not shot at yet,
/// unless no placement gives any cell a weight, in which case any cell of the grid.
pub fn calc_pdf_and_guess(board: &Board) -> (r: (usize, usize))
    requires
        board.wf(),
    ensures
        in_grid(r.0 as int, r.1 as int),
{
    let w = calc_pdf(board);
    let t = total(&w);
    if t == 0 {
        let k = random_below(CELL_COUNT as u64) as usize;
        return (k / GRID_SIZE, k % GRID_SIZE);
    }
    let pick = random_below(t);
    let c = sample_pdf(&w, pick);
    (c / GRID_SIZE, c % GRID_SIZE)
}

} // verus!
