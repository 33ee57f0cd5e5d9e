//! Exact posterior over where the remaining ships lie.
//!
//! Every joint configuration of the remaining ships (one placement per ship,
//! pairwise disjoint, avoiding misses and sunk cells, covering every unsunk hit)
//! is equally likely. The engine counts those configurations, and for each cell
//! those that occupy it, by a depth-first search that prunes with future-union
//! masks and memoizes subproblems keyed by depth and occupied cells.
use vstd::prelude::*;
use std::collections::HashMap;
use rayon::iter::{IntoParallelRefIterator, ParallelIterator};
use crate::mask::{
    cell_index, count_below, disjoint, bit_on, in_grid, lemma_count_add, lemma_count_disjoint_union, lemma_count_zero, lemma_single_bits, lemma_bits_equal, subset, lemma_bit_zero, lemma_or_bits, on_grid, single, CELL_COUNT, GRID_SIZE,
};

verus! {

/// Whether the set bits of `m` are exactly the cells listed in `coords`.
pub open spec fn mask_of(m: u128, coords: Seq<(usize, usize)>) -> bool {
    forall|i: int|
        #[trigger] bit_on(m, i) <==> exists|j: int|
            0 <= j < coords.len() && cell_index(coords[j].0 as int, coords[j].1 as int) == i
}

/// Whether every coordinate lies on the grid.
pub open spec fn all_in_grid(coords: Seq<(usize, usize)>) -> bool {
    forall|j: int| 0 <= j < coords.len() ==> in_grid(#[trigger] coords[j].0 as int, coords[j].1 as int)
}

/// Mask of `len` cells from bit `start` on, `step` bits apart.
pub open spec fn run_mask(start: int, len: int, step: int) -> u128
    decreases len,
{
    if len <= 0 {
        0u128
    } else {
        run_mask(start, len - 1, step) | (1u128 << ((start + (len - 1) * step) as u128))
    }
}

/// Number of places a run of `len` cells can start at along one line of the grid.
pub open spec fn starts(len: int) -> int {
    GRID_SIZE as int + 1 - len
}

/// Horizontal runs of `len` cells in row `r`, left to right.
pub open spec fn row_runs(r: int, len: int) -> Seq<u128> {
    Seq::new(starts(len) as nat, |c: int| run_mask(cell_index(r, c), len, 1))
}

/// Vertical runs of `len` cells in column `c`, top to bottom.
pub open spec fn column_runs(c: int, len: int) -> Seq<u128> {
    Seq::new(starts(len) as nat, |r: int| run_mask(cell_index(r, c), len, GRID_SIZE as int))
}

/// Horizontal runs in the first `rows` rows, row by row.
pub open spec fn horizontal_runs(len: int, rows: int) -> Seq<u128>
    decreases rows,
{
    if rows <= 0 {
        Seq::empty()
    } else {
        horizontal_runs(len, rows - 1) + row_runs(rows - 1, len)
    }
}

/// Vertical runs in the first `cols` columns, column by column.
pub open spec fn vertical_runs(len: int, cols: int) -> Seq<u128>
    decreases cols,
{
    if cols <= 0 {
        Seq::empty()
    } else {
        vertical_runs(len, cols - 1) + column_runs(cols - 1, len)
    }
}

/// Every placement of a ship of `len` cells: horizontal ones row-major, then
/// vertical ones column-major; none where the ship does not fit.
pub open spec fn all_runs(len: int) -> Seq<u128> {
    if len > GRID_SIZE as int {
        Seq::empty()
    } else {
        horizontal_runs(len, GRID_SIZE as int) + vertical_runs(len, GRID_SIZE as int)
    }
}

/// Whether a placement avoids every cell of `exclude`.
pub open spec fn avoids(exclude: u128) -> spec_fn(u128) -> bool {
    |m: u128| disjoint(m, exclude)
}

/// The placements of a ship of `len` cells that avoid every cell of `exclude`.
pub open spec fn placements_avoiding(exclude: u128, len: int) -> Seq<u128> {
    all_runs(len).filter(avoids(exclude))
}

proof fn lemma_filter_push(s: Seq<u128>, x: u128, exclude: u128)
    ensures
        s.push(x).filter(avoids(exclude)) == if disjoint(x, exclude) {
            s.filter(avoids(exclude)).push(x)
        } else {
            s.filter(avoids(exclude))
        },
{
    reveal(Seq::filter);
    assert(s.push(x).drop_last() =~= s);
}

/// Packs coordinates into a mask, with bit `r * GRID_SIZE + c` set for each `(r, c)`.
pub fn coords_to_mask(coords: &[(usize, usize)]) -> (m: u128)
    requires
        all_in_grid(coords@),
    ensures
        mask_of(m, coords@),
        on_grid(m),
{
    let mut m: u128 = 0;
    let mut j: usize = 0;
    proof {
        assert forall|i: int| #[trigger] bit_on(m, i) == false by {
            if 0 <= i < 128 {
                lemma_bit_zero(i as u128);
            }
        }
    }
    while j < coords.len()
        invariant
            j <= coords@.len(),
            all_in_grid(coords@),
            mask_of(m, coords@.take(j as int)),
        decreases coords@.len() - j,
    {
        let (r, c) = coords[j];
        assert(in_grid(coords@[j as int].0 as int, coords@[j as int].1 as int));
        let bit = single(r * GRID_SIZE + c);
        proof {
            lemma_or_bits(m, bit);
            let next = coords@.take(j + 1);
            assert forall|i: int| #[trigger] bit_on(m | bit, i) <==> exists|k: int|
                0 <= k < next.len() && cell_index(next[k].0 as int, next[k].1 as int) == i by {
                if bit_on(m, i) {
                    let k = choose|k: int|
                        0 <= k < j && cell_index(
                            coords@.take(j as int)[k].0 as int,
                            coords@.take(j as int)[k].1 as int,
                        ) == i;
                    assert(next[k] == coords@.take(j as int)[k]);
                }
                if i == cell_index(r as int, c as int) {
                    assert(next[j as int] == coords@[j as int]);
                }
                if exists|k: int|
                    0 <= k < next.len() && cell_index(next[k].0 as int, next[k].1 as int) == i {
                    let k = choose|k: int|
                        0 <= k < next.len() && cell_index(next[k].0 as int, next[k].1 as int)
                            == i;
                    if k < j {
                        assert(next[k] == coords@.take(j as int)[k]);
                    }
                }
            }
        }
        m = m | bit;
        j = j + 1;
    }
    proof {
        assert(coords@.take(coords@.len() as int) =~= coords@);
        assert forall|i: int| #[trigger] bit_on(m, i) implies 0 <= i < CELL_COUNT as int by {
            let k = choose|k: int|
                0 <= k < coords@.len() && cell_index(coords@[k].0 as int, coords@[k].1 as int)
                    == i;
            assert(in_grid(coords@[k].0 as int, coords@[k].1 as int));
        }
    }
    m
}

/// Mask of the run of `len` cells from bit `start`, `step` bits apart.
fn run(start: usize, len: usize, step: usize) -> (m: u128)
    requires
        len >= 1 ==> start + (len - 1) * step < 128,
    ensures
        m == run_mask(start as int, len as int, step as int),
{
    let mut m: u128 = 0;
    let mut k: usize = 0;
    while k < len
        invariant
            k <= len,
            len >= 1 ==> start + (len - 1) * step < 128,
            m == run_mask(start as int, k as int, step as int),
        decreases len - k,
    {
        assert(start + k * step <= start + (len - 1) * step) by (nonlinear_arith)
            requires
                k < len,
        ;
        m = m | (1u128 << ((start + k * step) as u128));
        k = k + 1;
    }
    m
}

/// Every placement of a ship of `length` cells that shares no cell with `exclude_mask`.
pub fn gen_placements(exclude_mask: u128, length: usize) -> (out: Vec<u128>)
    ensures
        out@ == placements_avoiding(exclude_mask, length as int),
        forall|i: int| 0 <= i < out@.len() ==> covers_len(#[trigger] out@[i], length as int),
{
    proof {
        lemma_placements_sized(exclude_mask, length as int);
    }
    let mut out: Vec<u128> = Vec::new();
    if length > GRID_SIZE {
        assert(all_runs(length as int) =~= Seq::<u128>::empty());
        return out;
    }
    let ghost len = length as int;
    let mut r: usize = 0;
    while r < GRID_SIZE
        invariant
            r <= GRID_SIZE,
            length <= GRID_SIZE,
            len == length,
            out@ == horizontal_runs(len, r as int).filter(avoids(exclude_mask)),
        decreases GRID_SIZE - r,
    {
        let mut c: usize = 0;
        while c <= GRID_SIZE - length
            invariant
                r < GRID_SIZE,
                c <= GRID_SIZE - length + 1,
                length <= GRID_SIZE,
                len == length,
                out@ == (horizontal_runs(len, r as int) + row_runs(r as int, len).take(
                    c as int,
                )).filter(avoids(exclude_mask)),
            decreases GRID_SIZE - length + 1 - c,
        {
            assert(r * GRID_SIZE + c + length <= 100) by (nonlinear_arith)
                requires
                    r < 10,
                    c + length <= 10,
            ;
            let m = run(r * GRID_SIZE + c, length, 1);
            proof {
                let a = horizontal_runs(len, r as int);
                let b = row_runs(r as int, len);
                assert(b[c as int] == m);
                assert((a + b.take(c as int)).push(m) =~= a + b.take(c + 1));
                lemma_filter_push(a + b.take(c as int), m, exclude_mask);
            }
            if m & exclude_mask == 0 {
                out.push(m);
            }
            c = c + 1;
        }
        assert(row_runs(r as int, len).take(starts(len)) =~= row_runs(r as int, len));
        r = r + 1;
    }
    let ghost hs = out@;
    let mut c: usize = 0;
    while c < GRID_SIZE
        invariant
            c <= GRID_SIZE,
            length <= GRID_SIZE,
            len == length,
            hs == horizontal_runs(len, GRID_SIZE as int).filter(avoids(exclude_mask)),
            out@ == hs + vertical_runs(len, c as int).filter(avoids(exclude_mask)),
        decreases GRID_SIZE - c,
    {
        let mut r: usize = 0;
        while r <= GRID_SIZE - length
            invariant
                c < GRID_SIZE,
                r <= GRID_SIZE - length + 1,
                length <= GRID_SIZE,
                len == length,
                hs == horizontal_runs(len, GRID_SIZE as int).filter(avoids(exclude_mask)),
                out@ == hs + (vertical_runs(len, c as int) + column_runs(c as int, len).take(
                    r as int,
                )).filter(avoids(exclude_mask)),
            decreases GRID_SIZE - length + 1 - r,
        {
            let m = if length == 0 {
                0u128
            } else {
                assert(r * GRID_SIZE + c + (length - 1) * GRID_SIZE < 100) by (nonlinear_arith)
                    requires
                        c < 10,
                        r + length <= 10,
                        length >= 1,
                ;
                run(r * GRID_SIZE + c, length, GRID_SIZE)
            };
            proof {
                let a = vertical_runs(len, c as int);
                let b = column_runs(c as int, len);
                assert(b[r as int] == m);
                assert((a + b.take(r as int)).push(m) =~= a + b.take(r + 1));
                lemma_filter_push(a + b.take(r as int), m, exclude_mask);
            }
            if m & exclude_mask == 0 {
                out.push(m);
            }
            r = r + 1;
        }
        assert(column_runs(c as int, len).take(starts(len)) =~= column_runs(c as int, len));
        c = c + 1;
    }
    proof {
        Seq::filter_distributes_over_add(
            horizontal_runs(len, GRID_SIZE as int),
            vertical_runs(len, GRID_SIZE as int),
            avoids(exclude_mask),
        );
    }
    out
}

/// Whether `m` holds every bit of `hit`.
pub open spec fn covers(m: u128, hit: u128) -> bool {
    m & hit == hit
}

/// Number of placements that ship `d` can choose from (none past the last ship).
pub open spec fn options(pl: Seq<Seq<u128>>, d: int) -> int {
    if 0 <= d < pl.len() {
        pl[d].len() as int
    } else {
        0
    }
}

/// Number of ways to place ships `d..` on top of the occupied cells `used`,
/// ship `d` taking one of its first `k` placements and each later ship any of its
/// own, every placement disjoint from the cells taken before it, such that the
/// final occupied cells cover `hit`. With `cell >= 0` only the ways whose final
/// occupied cells include `cell` are counted.
pub open spec fn configs(
    pl: Seq<Seq<u128>>,
    hit: u128,
    d: int,
    used: u128,
    k: int,
    cell: int,
) -> nat
    decreases pl.len() - d, k,
{
    if d < 0 || d >= pl.len() {
        if covers(used, hit) && (cell < 0 || bit_on(used, cell)) {
            1
        } else {
            0
        }
    } else if k <= 0 {
        0
    } else {
        let p = pl[d][k - 1];
        configs(pl, hit, d, used, k - 1, cell) + if disjoint(p, used) {
            configs(pl, hit, d + 1, used | p, options(pl, d + 1), cell)
        } else {
            0
        }
    }
}

/// Number of ways to complete the ships `d..` given the occupied cells `used`:
/// all of them with `cell < 0`, else those that occupy `cell`.
pub open spec fn completions(pl: Seq<Seq<u128>>, hit: u128, d: int, used: u128, cell: int) -> nat {
    configs(pl, hit, d, used, options(pl, d), cell)
}

/// Union of the masks of `s`.
pub open spec fn union_of(s: Seq<u128>) -> u128
    decreases s.len(),
{
    if s.len() == 0 {
        0u128
    } else {
        union_of(s.drop_last()) | s.last()
    }
}

/// Union of every placement of the ships `d..`.
pub open spec fn future_union(pl: Seq<Seq<u128>>, d: int) -> u128
    decreases pl.len() - d,
{
    if d < 0 || d >= pl.len() {
        0u128
    } else {
        future_union(pl, d + 1) | union_of(pl[d])
    }
}

proof fn lemma_in_union(s: Seq<u128>, i: int)
    requires
        0 <= i < s.len(),
    ensures
        subset(s[i], union_of(s)),
    decreases s.len(),
{
    let u = union_of(s.drop_last());
    let x = s.last();
    if i < s.len() - 1 {
        lemma_in_union(s.drop_last(), i);
        let y = s[i];
        assert(y & u == y ==> y & (u | x) == y) by (bit_vector);
    } else {
        assert(x & (u | x) == x) by (bit_vector);
    }
}

/// A placement of ship `d`, and the future union of `d + 1`, lie in the future union of `d`.
proof fn lemma_future_union_grows(pl: Seq<Seq<u128>>, d: int, i: int)
    requires
        0 <= d < pl.len(),
        0 <= i < pl[d].len(),
    ensures
        subset(pl[d][i], future_union(pl, d)),
        subset(future_union(pl, d + 1), future_union(pl, d)),
{
    lemma_in_union(pl[d], i);
    let p = pl[d][i];
    let f = future_union(pl, d + 1);
    let u = union_of(pl[d]);
    assert(p & u == p ==> p & (f | u) == p) by (bit_vector);
    assert(f & (f | u) == f) by (bit_vector);
}

/// If the occupied cells and every placement still to come cannot cover `hit`,
/// no completion exists.
proof fn lemma_prune(pl: Seq<Seq<u128>>, hit: u128, d: int, used: u128, k: int, cell: int)
    requires
        0 <= d <= pl.len(),
        k <= options(pl, d),
        !covers(used | future_union(pl, d), hit),
    ensures
        configs(pl, hit, d, used, k, cell) == 0,
    decreases pl.len() - d, k,
{
    if d < pl.len() && k > 0 {
        lemma_prune(pl, hit, d, used, k - 1, cell);
        let p = pl[d][k - 1];
        if disjoint(p, used) {
            lemma_future_union_grows(pl, d, k - 1);
            let f = future_union(pl, d);
            let g = future_union(pl, d + 1);
            assert(p & f == p && g & f == g && (used | f) & hit != hit ==> ((used | p) | g) & hit
                != hit) by (bit_vector);
            lemma_prune(pl, hit, d + 1, used | p, options(pl, d + 1), cell);
        }
    } else if d == pl.len() {
        let u = used;
        assert(u | 0u128 == u) by (bit_vector);
    }
}

/// Counting only the ways that occupy one cell never gives more than counting all.
proof fn lemma_cell_at_most_all(pl: Seq<Seq<u128>>, hit: u128, d: int, used: u128, k: int, cell: int)
    requires
        0 <= d <= pl.len(),
    ensures
        configs(pl, hit, d, used, k, cell) <= configs(pl, hit, d, used, k, -1),
    decreases pl.len() - d, k,
{
    if d < pl.len() && k > 0 {
        lemma_cell_at_most_all(pl, hit, d, used, k - 1, cell);
        let p = pl[d][k - 1];
        if disjoint(p, used) {
            lemma_cell_at_most_all(pl, hit, d + 1, used | p, options(pl, d + 1), cell);
        }
    }
}

/// Allowing ship `d` more of its placements never lowers the count.
proof fn lemma_configs_grow(pl: Seq<Seq<u128>>, hit: u128, d: int, used: u128, k: int, k2: int, cell: int)
    requires
        0 <= d < pl.len(),
        0 <= k <= k2,
    ensures
        configs(pl, hit, d, used, k, cell) <= configs(pl, hit, d, used, k2, cell),
    decreases k2,
{
    if k < k2 {
        lemma_configs_grow(pl, hit, d, used, k, k2 - 1, cell);
    }
}

/// Unnormalized evidence: a number of equally likely configurations, and for each
/// cell how many of them occupy it.
pub struct Tally {
    pub weight: u128,
    pub counts: Vec<u128>,
}

impl Tally {
    /// One count per cell, none above the weight.
    pub open spec fn wf(&self) -> bool {
        &&& self.counts@.len() == CELL_COUNT
        &&& forall|c: int| 0 <= c < CELL_COUNT ==> #[trigger] self.counts@[c] <= self.weight
    }

    /// The tally counts exactly the completions of ships `d..` given `used`.
    pub open spec fn counts_completions(
        &self,
        pl: Seq<Seq<u128>>,
        hit: u128,
        d: int,
        used: u128,
    ) -> bool {
        &&& self.counts@.len() == CELL_COUNT
        &&& self.weight == completions(pl, hit, d, used, -1)
        &&& forall|c: int|
            0 <= c < CELL_COUNT ==> #[trigger] self.counts@[c] == completions(pl, hit, d, used, c)
    }

    /// The tally with no configuration.
    pub fn zero() -> (t: Tally)
        ensures
            t.wf(),
            t.weight == 0,
            forall|c: int| 0 <= c < CELL_COUNT ==> #[trigger] t.counts@[c] == 0,
    {
        let mut counts: Vec<u128> = Vec::new();
        let mut c: usize = 0;
        while c < CELL_COUNT
            invariant
                c <= CELL_COUNT,
                counts@.len() == c,
                forall|i: int| 0 <= i < c ==> #[trigger] counts@[i] == 0,
            decreases CELL_COUNT - c,
        {
            counts.push(0);
            c = c + 1;
        }
        Tally { weight: 0, counts }
    }

    /// Adds `other` into `self`, cell by cell; `false`, leaving `self` unchanged,
    /// when the weight would not fit.
    pub fn add(&mut self, other: &Tally) -> (ok: bool)
        requires
            old(self).wf(),
            other.wf(),
        ensures
            ok == (old(self).weight + other.weight <= u128::MAX),
            ok ==> final(self).wf(),
            ok ==> final(self).weight == old(self).weight + other.weight,
            ok ==> forall|c: int|
                0 <= c < CELL_COUNT ==> #[trigger] final(self).counts@[c] == old(self).counts@[c]
                    + other.counts@[c],
            !ok ==> *final(self) == *old(self),
    {
        if self.weight > u128::MAX - other.weight {
            return false;
        }
        let ghost before = self.counts@;
        self.weight = self.weight + other.weight;
        let mut c: usize = 0;
        while c < CELL_COUNT
            invariant
                c <= CELL_COUNT,
                other.wf(),
                before.len() == CELL_COUNT,
                self.counts@.len() == CELL_COUNT,
                self.weight == old(self).weight + other.weight,
                before == old(self).counts@,
                old(self).wf(),
                forall|i: int|
                    0 <= i < c ==> #[trigger] self.counts@[i] == before[i] + other.counts@[i],
                forall|i: int| c <= i < CELL_COUNT ==> #[trigger] self.counts@[i] == before[i],
            decreases CELL_COUNT - c,
        {
            assert(before[c as int] <= old(self).weight);
            assert(other.counts@[c as int] <= other.weight);
            let v = self.counts[c] + other.counts[c];
            self.counts.set(c, v);
            c = c + 1;
        }
        true
    }
}

/// The exact posterior for one set of observations.
pub struct Posterior {
    miss_mask: u128,
    hit_mask: u128,
    /// The placements of each remaining ship, fewest first.
    placements: Vec<Vec<u128>>,
    /// `future_union[d]` is the union of every placement of the ships `d..`.
    future_union: Vec<u128>,
}

/// The memo of one search: at index `d`, tallies keyed by occupied cells.
pub open spec fn memo_sound(
    memo: Seq<HashMap<u128, Tally>>,
    pl: Seq<Seq<u128>>,
    hit: u128,
) -> bool {
    &&& memo.len() == pl.len() + 1
    &&& forall|d: int, used: u128|
        0 <= d < memo.len() && #[trigger] memo[d]@.contains_key(used) ==> {
            &&& memo[d]@[used].wf()
            &&& memo[d]@[used].counts_completions(pl, hit, d, used)
        }
}

impl Posterior {
    /// The placement lists, fewest first.
    pub closed spec fn lists(&self) -> Seq<Seq<u128>> {
        self.placements@.map_values(|v: Vec<u128>| v@)
    }

    /// Cells known to be misses or sunk.
    pub closed spec fn misses(&self) -> u128 {
        self.miss_mask
    }

    /// Cells known to be unsunk hits.
    pub closed spec fn hits(&self) -> u128 {
        self.hit_mask
    }

    pub closed spec fn wf(&self) -> bool {
        &&& self.future_union@.len() == self.placements@.len() + 1
        &&& forall|d: int|
            0 <= d <= self.placements@.len() ==> #[trigger] self.future_union@[d] == future_union(
                self.lists(),
                d,
            )
    }

    /// Adds into `acc` every completion of the ships `depth..` given `used`;
    /// `false` when the total weight would not fit.
    fn search(
        &self,
        depth: usize,
        used: u128,
        memo: &mut Vec<HashMap<u128, Tally>>,
        acc: &mut Tally,
    ) -> (ok: bool)
        requires
            self.wf(),
            depth <= self.placements@.len(),
            memo_sound(old(memo)@, self.lists(), self.hit_mask),
            old(acc).wf(),
        ensures
            memo_sound(final(memo)@, self.lists(), self.hit_mask),
            ok == (old(acc).weight + completions(self.lists(), self.hit_mask, depth as int, used, -1)
                <= u128::MAX),
            ok ==> final(acc).wf(),
            ok ==> final(acc).weight == old(acc).weight + completions(
                self.lists(),
                self.hit_mask,
                depth as int,
                used,
                -1,
            ),
            ok ==> forall|c: int|
                0 <= c < CELL_COUNT ==> #[trigger] final(acc).counts@[c] == old(acc).counts@[c]
                    + completions(self.lists(), self.hit_mask, depth as int, used, c),
        decreases self.placements@.len() - depth,
    {
        broadcast use vstd::std_specs::hash::group_hash_axioms;

        let ghost pl = self.lists();
        let ghost hit = self.hit_mask;
        let ghost d = depth as int;
        let n = self.placements.len();
        if (used | self.future_union[depth]) & self.hit_mask != self.hit_mask {
            proof {
                assert forall|c: int| completions(pl, hit, d, used, c) == 0 by {
                    lemma_prune(pl, hit, d, used, options(pl, d), c);
                }
                assert(completions(pl, hit, d, used, -1) == 0);
            }
            return true;
        }
        if depth == n {
            if used & self.hit_mask != self.hit_mask {
                return true;
            }
            if acc.weight == u128::MAX {
                return false;
            }
            let ghost before = acc.counts@;
            acc.weight = acc.weight + 1;
            let mut c: usize = 0;
            while c < CELL_COUNT
                invariant
                    c <= CELL_COUNT,
                    before.len() == CELL_COUNT,
                    acc.counts@.len() == CELL_COUNT,
                    acc.weight == old(acc).weight + 1,
                    before == old(acc).counts@,
                    old(acc).wf(),
                    d == pl.len(),
                    covers(used, hit),
                    forall|i: int|
                        0 <= i < c ==> #[trigger] acc.counts@[i] == before[i] + completions(
                            pl,
                            hit,
                            d,
                            used,
                            i,
                        ),
                    forall|i: int| c <= i < CELL_COUNT ==> #[trigger] acc.counts@[i] == before[i],
                decreases CELL_COUNT - c,
            {
                assert(before[c as int] <= old(acc).weight);
                if (used >> (c as u128)) & 1 == 1 {
                    let v = acc.counts[c] + 1;
                    acc.counts.set(c, v);
                }
                c = c + 1;
            }
            return true;
        }
        match memo[depth].get(&used) {
            Some(t) => {
                proof {
                    assert(memo@[d]@.contains_key(used));
                }
                return acc.add(t);
            },
            None => {},
        }
        let mut local = Tally::zero();
        let mut i: usize = 0;
        let count = self.placements[depth].len();
        assert(pl[d] == self.placements@[d]@);
        assert(count == options(pl, d));
        while i < count
            invariant
                self.wf(),
                d < pl.len(),
                d == depth,
                depth < self.placements@.len(),
                n == self.placements@.len(),
                pl == self.lists(),
                pl[d] == self.placements@[d]@,
                hit == self.hit_mask,
                count == options(pl, d),
                i <= count,
                memo_sound(memo@, pl, hit),
                local.wf(),
                local.weight == configs(pl, hit, d, used, i as int, -1),
                forall|c: int|
                    0 <= c < CELL_COUNT ==> #[trigger] local.counts@[c] == configs(
                        pl,
                        hit,
                        d,
                        used,
                        i as int,
                        c,
                    ),
            decreases count - i,
        {
            let p = self.placements[depth][i];
            assert(p == pl[d][i as int]);
            if p & used == 0 {
                let ghost before = local.weight;
                let ok = self.search(depth + 1, used | p, memo, &mut local);
                if !ok {
                    proof {
                        assert(configs(pl, hit, d, used, i + 1, -1) == before + completions(
                            pl,
                            hit,
                            d + 1,
                            used | p,
                            -1,
                        ));
                        lemma_configs_grow(pl, hit, d, used, i + 1, options(pl, d), -1);
                    }
                    return false;
                }
            }
            i = i + 1;
        }
        let ok = acc.add(&local);
        memo[depth].insert(used, local);
        ok
    }
}

/// What one branch of the search reports: the tally of the configurations in which
/// the first ship takes `first`, or nothing when their number does not fit.
pub open spec fn branch_result(
    r: Option<Tally>,
    pl: Seq<Seq<u128>>,
    hit: u128,
    first: u128,
) -> bool {
    match r {
        Some(t) => t.wf() && t.counts_completions(pl, hit, 1, first),
        None => completions(pl, hit, 1, first, -1) > u128::MAX,
    }
}

/// What the whole search reports: the tally of every configuration, or nothing
/// when their number does not fit.
pub open spec fn total_result(r: Option<Tally>, pl: Seq<Seq<u128>>, hit: u128) -> bool {
    match r {
        Some(t) => t.wf() && t.counts_completions(pl, hit, 0, 0),
        None => completions(pl, hit, 0, 0, -1) > u128::MAX,
    }
}

/// Whether each list is no longer than the ones after it.
pub open spec fn fewest_first(pl: Seq<Seq<u128>>) -> bool {
    forall|a: int, b: int| 0 <= a < b < pl.len() ==> #[trigger] pl[a].len() <= #[trigger] pl[b].len()
}

/// Number of cells of the placements of a list: those of its first one.
pub open spec fn list_cells(l: Seq<u128>) -> nat {
    if l.len() > 0 {
        count_below(l[0], CELL_COUNT as int)
    } else {
        0
    }
}

/// Whether the placements of a list all cover the same number of grid cells.
pub open spec fn same_size(l: Seq<u128>) -> bool {
    forall|i: int| 0 <= i < l.len() ==> covers_len(#[trigger] l[i], list_cells(l) as int)
}

/// Number of cells of each ship, as its placements show.
pub open spec fn lens_of(pl: Seq<Seq<u128>>) -> Seq<nat> {
    pl.map_values(|l: Seq<u128>| list_cells(l))
}

/// Number of leading lists with at most `n` placements.
pub open spec fn not_longer(s: Seq<Seq<u128>>, n: nat) -> int
    decreases s.len(),
{
    if s.len() == 0 || s[0].len() > n {
        0
    } else {
        1 + not_longer(s.drop_first(), n)
    }
}

/// `s` with `x` inserted after every leading list that has no more placements.
pub open spec fn insert_by_count(s: Seq<Seq<u128>>, x: Seq<u128>) -> Seq<Seq<u128>> {
    s.insert(not_longer(s, x.len()), x)
}

/// The lists ordered by number of placements, fewest first, lists with as many
/// placements keeping their order.
pub open spec fn sort_by_count(s: Seq<Seq<u128>>) -> Seq<Seq<u128>>
    decreases s.len(),
{
    if s.len() == 0 {
        s
    } else {
        insert_by_count(sort_by_count(s.drop_last()), s.last())
    }
}

proof fn lemma_not_longer(s: Seq<Seq<u128>>, n: nat, j: int)
    requires
        0 <= j <= s.len(),
        forall|a: int| 0 <= a < j ==> (#[trigger] s[a]).len() <= n,
        j < s.len() ==> s[j].len() > n,
    ensures
        not_longer(s, n) == j,
    decreases j,
{
    if j > 0 {
        let t = s.drop_first();
        assert forall|a: int| 0 <= a < j - 1 implies (#[trigger] t[a]).len() <= n by {
            assert(t[a] == s[a + 1]);
        }
        if j < s.len() {
            assert(t[j - 1] == s[j]);
        }
        lemma_not_longer(t, n, j - 1);
    }
}

/// Whether a posterior was set up from these misses, hits and ship lengths.
pub open spec fn built_from(
    post: Posterior,
    misses: Seq<(usize, usize)>,
    hits: Seq<(usize, usize)>,
    lengths: Seq<usize>,
) -> bool {
    &&& post.wf()
    &&& mask_of(post.misses(), misses)
    &&& mask_of(post.hits(), hits)
    &&& post.lists() == sort_by_count(lists_for(lengths, post.misses()))
}

/// The placement lists of ships of the given lengths, in the order given.
pub open spec fn lists_for(lengths: Seq<usize>, exclude: u128) -> Seq<Seq<u128>> {
    lengths.map_values(|l: usize| placements_avoiding(exclude, l as int))
}

/// Relies on rayon's `par_iter().map(..).collect()` over a slice: the collected vector
/// holds the image of each item, in the order of the items.
#[verifier::external_body]
fn branches_in_parallel(post: &Posterior, firsts: &Vec<u128>) -> (r: Vec<Option<Tally>>)
    requires
        post.wf(),
        post.lists().len() > 0,
    ensures
        r@.len() == firsts@.len(),
        forall|i: int|
            0 <= i < r@.len() ==> branch_result(
                #[trigger] r@[i],
                post.lists(),
                post.hits(),
                firsts@[i],
            ),
{
    firsts.par_iter().map(|first| post.branch(*first)).collect()
}

impl Posterior {
    /// Sets up the posterior for the given misses (and sunk cells), unsunk hits and
    /// lengths of the ships not yet sunk.
    pub fn new(
        misses: &[(usize, usize)],
        hits: &[(usize, usize)],
        unsunk_ship_lengths: &[usize],
    ) -> (post: Posterior)
        requires
            all_in_grid(misses@),
            all_in_grid(hits@),
        ensures
            post.wf(),
            mask_of(post.misses(), misses@),
            mask_of(post.hits(), hits@),
            fewest_first(post.lists()),
            post.lists().to_multiset() == lists_for(unsunk_ship_lengths@, post.misses()).to_multiset(),
            sized(post.lists(), lens_of(post.lists())),
            built_from(post, misses@, hits@, unsunk_ship_lengths@),
    {
        broadcast use vstd::multiset::group_multiset_axioms;

        let miss_mask = coords_to_mask(misses);
        let hit_mask = coords_to_mask(hits);
        let ghost want = lists_for(unsunk_ship_lengths@, miss_mask);
        let mut placements: Vec<Vec<u128>> = Vec::new();
        let mut i: usize = 0;
        assert(placements@.map_values(|v: Vec<u128>| v@) =~= want.take(0));
        assert(sort_by_count(want.take(0)) =~= want.take(0));
        while i < unsunk_ship_lengths.len()
            invariant
                i <= unsunk_ship_lengths@.len(),
                want == lists_for(unsunk_ship_lengths@, miss_mask),
                fewest_first(placements@.map_values(|v: Vec<u128>| v@)),
                forall|e: int|
                    0 <= e < placements@.len() ==> same_size(#[trigger] placements@[e]@),
                placements@.map_values(|v: Vec<u128>| v@).to_multiset() == want.take(
                    i as int,
                ).to_multiset(),
                placements@.map_values(|v: Vec<u128>| v@) == sort_by_count(want.take(i as int)),
            decreases unsunk_ship_lengths@.len() - i,
        {
            let list = gen_placements(miss_mask, unsunk_ship_lengths[i]);
            let ghost before = placements@.map_values(|v: Vec<u128>| v@);
            let mut j: usize = 0;
            while j < placements.len() && placements[j].len() <= list.len()
                invariant
                    j <= placements@.len(),
                    before == placements@.map_values(|v: Vec<u128>| v@),
                    forall|a: int| 0 <= a < j ==> #[trigger] before[a].len() <= list@.len(),
                decreases placements@.len() - j,
            {
                j = j + 1;
            }
            let ghost entry = list@;
            let ghost old_lists = placements@;
            assert(same_size(entry));
            placements.insert(j, list);
            assert forall|e: int| 0 <= e < placements@.len() implies same_size(
                #[trigger] placements@[e]@,
            ) by {
                if e < j {
                    assert(placements@[e] == old_lists[e]);
                } else if e > j {
                    assert(placements@[e] == old_lists[e - 1]);
                }
            }
            proof {
                let after = placements@.map_values(|v: Vec<u128>| v@);
                assert(after =~= before.insert(j as int, entry));
                lemma_not_longer(before, entry.len(), j as int);
                assert(want.take(i + 1).drop_last() =~= want.take(i as int));
                assert(want.take(i + 1).last() == entry);
                vstd::seq_lib::to_multiset_insert(before, j as int, entry);
                vstd::seq_lib::to_multiset_build(want.take(i as int), want[i as int]);
                assert(after.to_multiset() == before.insert(j as int, entry).to_multiset());
                assert(entry == want[i as int]);
                assert(want.take(i as int).push(want[i as int]).to_multiset() == want.take(
                    i as int,
                ).to_multiset().insert(want[i as int]));
                assert(want.take(i + 1) =~= want.take(i as int).push(want[i as int]));
                assert forall|a: int, b: int| 0 <= a < b < after.len() implies #[trigger] after[a].len()
                    <= #[trigger] after[b].len() by {
                    if j < before.len() {
                        assert(before[j as int].len() > entry.len());
                    }
                    if a < j && b > j {
                        assert(before[b - 1].len() >= before[j as int].len() || b - 1 == j);
                    }
                }
            }
            i = i + 1;
        }
        proof {
            assert(want.take(unsunk_ship_lengths@.len() as int) =~= want);
            let v = placements@.map_values(|v: Vec<u128>| v@);
            assert forall|e: int, i: int|
                0 <= e < v.len() && 0 <= i < v[e].len() implies count_below(#[trigger] v[e][i], CELL_COUNT as int)
                == lens_of(v)[e] && on_grid(v[e][i]) by {
                assert(same_size(placements@[e]@));
            }
        }
        let ghost pl = placements@.map_values(|v: Vec<u128>| v@);
        let n = placements.len();
        let mut unions: Vec<u128> = Vec::new();
        let mut k: usize = 0;
        unions.push(0);
        while k < n
            invariant
                k <= n,
                n == placements@.len(),
                unions@.len() == k + 1,
                forall|e: int| 0 <= e <= k ==> #[trigger] unions@[e] == 0,
            decreases n - k,
        {
            unions.push(0);
            k = k + 1;
        }
        let mut d: usize = n;
        while d > 0
            invariant
                d <= n,
                n == placements@.len(),
                pl == placements@.map_values(|v: Vec<u128>| v@),
                unions@.len() == n + 1,
                unions@[n as int] == 0,
                forall|e: int| d <= e <= n ==> #[trigger] unions@[e] == future_union(pl, e),
            decreases d,
        {
            d = d - 1;
            let list = &placements[d];
            assert(list@ == pl[d as int]);
            let mut u: u128 = 0;
            let mut m: usize = 0;
            while m < list.len()
                invariant
                    m <= list@.len(),
                    u == union_of(list@.take(m as int)),
                decreases list@.len() - m,
            {
                assert(list@.take(m + 1).drop_last() =~= list@.take(m as int));
                u = u | list[m];
                m = m + 1;
            }
            assert(list@.take(list@.len() as int) =~= list@);
            let v = unions[d + 1] | u;
            unions.set(d, v);
        }
        Posterior { miss_mask, hit_mask, placements, future_union: unions }
    }

    /// Tally of the configurations in which the first ship takes `first`; a
    /// placement that, with every placement of the later ships, cannot cover the
    /// hits is answered at once with an empty tally.
    pub fn branch(&self, first: u128) -> (r: Option<Tally>)
        requires
            self.wf(),
            self.lists().len() > 0,
        ensures
            branch_result(r, self.lists(), self.hits(), first),
    {
        let mut acc = Tally::zero();
        if (first | self.future_union[1]) & self.hit_mask != self.hit_mask {
            proof {
                assert forall|c: int| completions(self.lists(), self.hit_mask, 1, first, c) == 0 by {
                    lemma_prune(
                        self.lists(),
                        self.hit_mask,
                        1,
                        first,
                        options(self.lists(), 1),
                        c,
                    );
                }
            }
            return Some(acc);
        }
        let mut memo: Vec<HashMap<u128, Tally>> = Vec::new();
        memo.push(HashMap::new());
        let mut d: usize = 0;
        while d < self.placements.len()
            invariant
                d <= self.placements@.len(),
                memo@.len() == d + 1,
                forall|e: int| 0 <= e <= d ==> #[trigger] memo@[e]@ == Map::<u128, Tally>::empty(),
            decreases self.placements@.len() - d,
        {
            memo.push(HashMap::new());
            d = d + 1;
        }
        if self.search(1, first, &mut memo, &mut acc) {
            Some(acc)
        } else {
            None
        }
    }

    /// Sums the branch tallies of the first ship's placements, in order.
    fn sum_branches(&self, parts: Vec<Option<Tally>>) -> (r: Option<Tally>)
        requires
            self.wf(),
            self.lists().len() > 0,
            parts@.len() == self.lists()[0].len(),
            forall|i: int|
                0 <= i < parts@.len() ==> branch_result(
                    #[trigger] parts@[i],
                    self.lists(),
                    self.hits(),
                    self.lists()[0][i],
                ),
        ensures
            total_result(r, self.lists(), self.hits()),
    {
        let ghost pl = self.lists();
        let ghost hit = self.hit_mask;
        let mut acc = Tally::zero();
        let mut i: usize = 0;
        while i < parts.len()
            invariant
                i <= parts@.len(),
                parts@.len() == pl[0].len(),
                pl == self.lists(),
                hit == self.hit_mask,
                pl.len() > 0,
                forall|k: int|
                    0 <= k < parts@.len() ==> branch_result(
                        #[trigger] parts@[k],
                        pl,
                        hit,
                        pl[0][k],
                    ),
                acc.wf(),
                acc.weight == configs(pl, hit, 0, 0, i as int, -1),
                forall|c: int|
                    0 <= c < CELL_COUNT ==> #[trigger] acc.counts@[c] == configs(
                        pl,
                        hit,
                        0,
                        0,
                        i as int,
                        c,
                    ),
            decreases parts@.len() - i,
        {
            let ghost p = pl[0][i as int];
            assert(p & 0u128 == 0u128 && 0u128 | p == p) by (bit_vector);
            assert(branch_result(parts@[i as int], pl, hit, p));
            match &parts[i] {
                Some(t) => {
                    if !acc.add(t) {
                        proof {
                            lemma_configs_grow(pl, hit, 0, 0, i + 1, options(pl, 0), -1);
                        }
                        return None;
                    }
                },
                None => {
                    proof {
                        lemma_configs_grow(pl, hit, 0, 0, i + 1, options(pl, 0), -1);
                    }
                    return None;
                },
            }
            i = i + 1;
        }
        Some(acc)
    }

    /// Tally of every configuration of the remaining ships, one branch of the
    /// first ship's placements after another; nothing when the number of
    /// configurations does not fit in a `u128`.
    pub fn compute_sequential(&self) -> (r: Option<Tally>)
        requires
            self.wf(),
        ensures
            total_result(r, self.lists(), self.hits()),
    {
        if self.placements.len() == 0 {
            return self.compute_without_ships();
        }
        let firsts = &self.placements[0];
        let mut parts: Vec<Option<Tally>> = Vec::new();
        let mut i: usize = 0;
        while i < firsts.len()
            invariant
                self.wf(),
                self.lists().len() > 0,
                firsts@ == self.lists()[0],
                i <= firsts@.len(),
                parts@.len() == i,
                forall|k: int|
                    0 <= k < i ==> branch_result(
                        #[trigger] parts@[k],
                        self.lists(),
                        self.hits(),
                        firsts@[k],
                    ),
            decreases firsts@.len() - i,
        {
            parts.push(self.branch(firsts[i]));
            i = i + 1;
        }
        self.sum_branches(parts)
    }

    /// Tally of every configuration of the remaining ships, the branches of the
    /// first ship's placements run in parallel; nothing when the number of
    /// configurations does not fit in a `u128`.
    pub fn compute(&self) -> (r: Option<Tally>)
        requires
            self.wf(),
        ensures
            total_result(r, self.lists(), self.hits()),
    {
        if self.placements.len() == 0 {
            return self.compute_without_ships();
        }
        let parts = branches_in_parallel(self, &self.placements[0]);
        self.sum_branches(parts)
    }

    /// With no ship left the only configuration is the empty one.
    fn compute_without_ships(&self) -> (r: Option<Tally>)
        requires
            self.wf(),
            self.lists().len() == 0,
        ensures
            total_result(r, self.lists(), self.hits()),
    {
        let mut acc = Tally::zero();
        let mut memo: Vec<HashMap<u128, Tally>> = Vec::new();
        memo.push(HashMap::new());
        if self.search(0, 0, &mut memo, &mut acc) {
            Some(acc)
        } else {
            None
        }
    }

    /// Number of remaining ships.
    pub fn ship_count(&self) -> (n: usize)
        ensures
            n == self.lists().len(),
    {
        self.placements.len()
    }
}

/// Per-cell occupancy probabilities as fractions over one denominator: cell `c`
/// has probability `numerators[c] / denominator`.
pub struct Heatmap {
    pub numerators: Vec<u128>,
    pub denominator: u128,
}

impl Heatmap {
    /// The heatmap that gives every cell `1 / CELL_COUNT`.
    pub open spec fn is_uniform(&self) -> bool {
        &&& self.denominator == CELL_COUNT
        &&& self.numerators@.len() == CELL_COUNT
        &&& forall|c: int| 0 <= c < CELL_COUNT ==> #[trigger] self.numerators@[c] == 1
    }

    /// The heatmap that gives every cell probability zero.
    pub open spec fn is_zero(&self) -> bool {
        &&& self.denominator == 1
        &&& self.numerators@.len() == CELL_COUNT
        &&& forall|c: int| 0 <= c < CELL_COUNT ==> #[trigger] self.numerators@[c] == 0
    }

    /// The numerator of the cell at row `r`, column `c`.
    pub fn numerator(&self, r: usize, c: usize) -> (v: u128)
        requires
            in_grid(r as int, c as int),
            self.numerators@.len() == CELL_COUNT,
        ensures
            v == self.numerators@[cell_index(r as int, c as int)],
    {
        assert(r * GRID_SIZE + c < CELL_COUNT) by (nonlinear_arith)
            requires
                r < 10,
                c < 10,
        ;
        self.numerators[r * GRID_SIZE + c]
    }
}

/// Turns a tally into probabilities: each cell's count over the weight, or the
/// uniform heatmap when no configuration was found.
pub fn normalize(t: Tally) -> (h: Heatmap)
    requires
        t.wf(),
    ensures
        t.weight == 0 ==> h.is_uniform(),
        t.weight > 0 ==> h.denominator == t.weight && h.numerators@ == t.counts@,
        h.numerators@.len() == CELL_COUNT,
        h.denominator > 0,
{
    if t.weight == 0 {
        let mut numerators: Vec<u128> = Vec::new();
        let mut c: usize = 0;
        while c < CELL_COUNT
            invariant
                c <= CELL_COUNT,
                numerators@.len() == c,
                forall|i: int| 0 <= i < c ==> #[trigger] numerators@[i] == 1,
            decreases CELL_COUNT - c,
        {
            numerators.push(1);
            c = c + 1;
        }
        Heatmap { numerators, denominator: CELL_COUNT as u128 }
    } else {
        Heatmap { numerators: t.counts, denominator: t.weight }
    }
}

/// What the heatmap of a posterior is: all zero without ships; else, when the
/// number of configurations fits, each cell's share of the configurations that
/// occupy it, or the uniform heatmap when there is none.
pub open spec fn heatmap_result(r: Option<Heatmap>, pl: Seq<Seq<u128>>, hit: u128) -> bool {
    if pl.len() == 0 {
        r.is_some() && r.unwrap().is_zero()
    } else {
        match r {
            Some(h) => {
                &&& h.numerators@.len() == CELL_COUNT
                &&& completions(pl, hit, 0, 0, -1) <= u128::MAX
                &&& completions(pl, hit, 0, 0, -1) == 0 ==> h.is_uniform()
                &&& completions(pl, hit, 0, 0, -1) > 0 ==> {
                    &&& h.denominator == completions(pl, hit, 0, 0, -1)
                    &&& forall|c: int|
                        0 <= c < CELL_COUNT ==> #[trigger] h.numerators@[c] == completions(
                            pl,
                            hit,
                            0,
                            0,
                            c,
                        )
                }
            },
            None => completions(pl, hit, 0, 0, -1) > u128::MAX,
        }
    }
}

impl Posterior {
    /// The posterior heatmap; nothing when the number of configurations does not
    /// fit in a `u128`.
    pub fn heatmap(&self) -> (r: Option<Heatmap>)
        requires
            self.wf(),
        ensures
            heatmap_result(r, self.lists(), self.hits()),
    {
        if self.placements.len() == 0 {
            let mut numerators: Vec<u128> = Vec::new();
            let mut c: usize = 0;
            while c < CELL_COUNT
                invariant
                    c <= CELL_COUNT,
                    numerators@.len() == c,
                    forall|i: int| 0 <= i < c ==> #[trigger] numerators@[i] == 0,
                decreases CELL_COUNT - c,
            {
                numerators.push(0);
                c = c + 1;
            }
            return Some(Heatmap { numerators, denominator: 1 });
        }
        match self.compute() {
            Some(t) => Some(normalize(t)),
            None => None,
        }
    }
}

/// However the work is split, two results that meet the contract of the search
/// are the same: the parallel and the sequential computation, or two runs on the
/// same input, agree exactly.
pub proof fn lemma_results_agree(a: Option<Tally>, b: Option<Tally>, pl: Seq<Seq<u128>>, hit: u128)
    requires
        total_result(a, pl, hit),
        total_result(b, pl, hit),
    ensures
        a.is_some() == b.is_some(),
        a.is_some() ==> a.unwrap().weight == b.unwrap().weight && a.unwrap().counts@
            == b.unwrap().counts@,
{
    if a.is_some() {
        let x = a.unwrap();
        let y = b.unwrap();
        assert(x.counts@ =~= y.counts@);
    }
}

/// Two placement lists that agree from depth `d` on give the same counts from there.
proof fn lemma_same_from(
    pl: Seq<Seq<u128>>,
    ql: Seq<Seq<u128>>,
    hit: u128,
    d: int,
    used: u128,
    k: int,
    cell: int,
)
    requires
        pl.len() == ql.len(),
        0 <= d <= pl.len(),
        forall|t: int| d <= t < pl.len() ==> #[trigger] pl[t] == ql[t],
    ensures
        configs(pl, hit, d, used, k, cell) == configs(ql, hit, d, used, k, cell),
    decreases pl.len() - d, k,
{
    if d < pl.len() && k > 0 {
        lemma_same_from(pl, ql, hit, d, used, k - 1, cell);
        let p = pl[d][k - 1];
        if disjoint(p, used) {
            lemma_same_from(pl, ql, hit, d + 1, used | p, options(pl, d + 1), cell);
        }
    }
}

/// Dropping placement `j` of ship `e` never raises a count taken at a depth up to `e`.
proof fn lemma_drop_placement(
    pl: Seq<Seq<u128>>,
    hit: u128,
    e: int,
    j: int,
    d: int,
    used: u128,
    k: int,
    cell: int,
)
    requires
        0 <= e < pl.len(),
        0 <= j < pl[e].len(),
        0 <= d <= e,
        0 <= k <= options(pl, d),
        d == e ==> k <= pl[e].len() - 1,
    ensures
        configs(pl.update(e, pl[e].remove(j)), hit, d, used, k, cell) <= configs(
            pl,
            hit,
            d,
            used,
            if d == e && k >= j {
                k + 1
            } else {
                k
            },
            cell,
        ),
    decreases e - d, k,
{
    let ql = pl.update(e, pl[e].remove(j));
    assert forall|t: int| e < t < pl.len() implies #[trigger] pl[t] == ql[t] by {}
    if d < e {
        if k > 0 {
            lemma_drop_placement(pl, hit, e, j, d, used, k - 1, cell);
            let p = pl[d][k - 1];
            assert(ql[d] == pl[d]);
            if disjoint(p, used) {
                assert(options(ql, d + 1) == if d + 1 == e {
                    options(pl, e) - 1
                } else {
                    options(pl, d + 1)
                });
                lemma_drop_placement(pl, hit, e, j, d + 1, used | p, options(ql, d + 1), cell);
            }
        }
    } else {
        if k > 0 {
            lemma_drop_placement(pl, hit, e, j, d, used, k - 1, cell);
            let q = ql[e][k - 1];
            let kk = if k - 1 >= j { k } else { k - 1 };
            assert(q == pl[e][kk]);
            if disjoint(q, used) {
                lemma_same_from(ql, pl, hit, e + 1, used | q, options(pl, e + 1), cell);
            }
            if k - 1 == j {
                let p = pl[e][j];
                if disjoint(p, used) {
                    lemma_same_from(ql, pl, hit, e + 1, used | p, options(pl, e + 1), cell);
                }
                assert(configs(pl, hit, e, used, k, cell) <= configs(pl, hit, e, used, k + 1, cell));
            }
        } else if j == 0 {
            lemma_configs_grow(pl, hit, e, used, 0, 1, cell);
        }
    }
}

/// Removing one candidate placement of any ship never raises the number of
/// configurations, in total or through any cell: pruning only takes
/// configurations away.
pub proof fn lemma_pruning_monotone(pl: Seq<Seq<u128>>, hit: u128, e: int, j: int, cell: int)
    requires
        0 <= e < pl.len(),
        0 <= j < pl[e].len(),
    ensures
        completions(pl.update(e, pl[e].remove(j)), hit, 0, 0, cell) <= completions(
            pl,
            hit,
            0,
            0,
            cell,
        ),
{
    let ql = pl.update(e, pl[e].remove(j));
    if e == 0 {
        lemma_drop_placement(pl, hit, e, j, 0, 0, pl[0].len() - 1, cell);
        assert(options(ql, 0) == pl[0].len() - 1);
    } else {
        lemma_drop_placement(pl, hit, e, j, 0, 0, options(pl, 0), cell);
    }
}

/// When some unsunk hit lies outside every placement of every remaining ship, no
/// configuration explains the observations and the heatmap is the uniform one.
pub proof fn lemma_contradiction_uniform(r: Option<Heatmap>, pl: Seq<Seq<u128>>, hit: u128)
    requires
        pl.len() > 0,
        !covers(future_union(pl, 0), hit),
        heatmap_result(r, pl, hit),
    ensures
        r.is_some(),
        r.unwrap().is_uniform(),
{
    let f = future_union(pl, 0);
    assert(0u128 | f == f) by (bit_vector);
    lemma_prune(pl, hit, 0, 0, options(pl, 0), -1);
}

/// Whether every placement of ship `e` covers `lens[e]` cells, all on the grid.
pub open spec fn sized(pl: Seq<Seq<u128>>, lens: Seq<nat>) -> bool {
    &&& pl.len() == lens.len()
    &&& forall|e: int, i: int|
        0 <= e < pl.len() && 0 <= i < pl[e].len() ==> count_below(#[trigger] pl[e][i], CELL_COUNT as int)
            == lens[e] && on_grid(pl[e][i])
}

/// Number of cells the ships `d..` cover.
pub open spec fn cells_after(lens: Seq<nat>, d: int) -> nat
    decreases lens.len() - d,
{
    if d < 0 || d >= lens.len() {
        0
    } else {
        lens[d] + cells_after(lens, d + 1)
    }
}

/// Sum over the cells below `n` of the counts through each cell.
pub open spec fn cell_sum(pl: Seq<Seq<u128>>, hit: u128, d: int, used: u128, k: int, n: int) -> nat
    decreases n,
{
    if n <= 0 {
        0
    } else {
        cell_sum(pl, hit, d, used, k, n - 1) + configs(pl, hit, d, used, k, n - 1)
    }
}

/// Sum of the first `n` entries.
pub open spec fn seq_sum(s: Seq<u128>, n: int) -> nat
    decreases n,
{
    if n <= 0 {
        0
    } else {
        seq_sum(s, n - 1) + s[n - 1] as nat
    }
}

/// With no ship left, each way counts each of its cells once.
proof fn lemma_cell_sum_done(pl: Seq<Seq<u128>>, hit: u128, used: u128, k: int, n: int)
    requires
        0 <= n <= 128,
    ensures
        cell_sum(pl, hit, pl.len() as int, used, k, n) == if covers(used, hit) {
            count_below(used, n)
        } else {
            0
        },
    decreases n,
{
    if n > 0 {
        lemma_cell_sum_done(pl, hit, used, k, n - 1);
    }
}

/// With no placement allowed for ship `d`, nothing is counted through any cell.
proof fn lemma_cell_sum_none(pl: Seq<Seq<u128>>, hit: u128, d: int, used: u128, n: int)
    requires
        0 <= d < pl.len(),
    ensures
        cell_sum(pl, hit, d, used, 0, n) == 0,
    decreases n,
{
    if n > 0 {
        lemma_cell_sum_none(pl, hit, d, used, n - 1);
    }
}

/// Summing over cells follows the sum over the placements of ship `d`.
proof fn lemma_cell_sum_step(pl: Seq<Seq<u128>>, hit: u128, d: int, used: u128, k: int, n: int)
    requires
        0 <= d < pl.len(),
        k > 0,
    ensures
        cell_sum(pl, hit, d, used, k, n) == cell_sum(pl, hit, d, used, k - 1, n) + if disjoint(
            pl[d][k - 1],
            used,
        ) {
            cell_sum(pl, hit, d + 1, used | pl[d][k - 1], options(pl, d + 1), n)
        } else {
            0
        },
    decreases n,
{
    if n > 0 {
        lemma_cell_sum_step(pl, hit, d, used, k, n - 1);
    }
}

/// The counts through each cell add up to the number of ways times the cells each
/// way occupies.
proof fn lemma_mass(pl: Seq<Seq<u128>>, hit: u128, lens: Seq<nat>, d: int, used: u128, k: int)
    requires
        sized(pl, lens),
        on_grid(used),
        0 <= d <= pl.len(),
        0 <= k <= options(pl, d),
    ensures
        cell_sum(pl, hit, d, used, k, CELL_COUNT as int) == configs(pl, hit, d, used, k, -1) * (
        count_below(used, CELL_COUNT as int) + cells_after(lens, d)),
    decreases pl.len() - d, k,
{
    let n = CELL_COUNT as int;
    if d == pl.len() {
        lemma_cell_sum_done(pl, hit, used, k, n);
        assert(cells_after(lens, d) == 0);
        let c = count_below(used, n);
        if covers(used, hit) {
            assert(configs(pl, hit, d, used, k, -1) == 1);
            assert(1 * (c + 0) == c) by (nonlinear_arith);
        } else {
            assert(configs(pl, hit, d, used, k, -1) == 0);
            assert(0 * (c + 0) == 0) by (nonlinear_arith);
        }
    } else if k == 0 {
        lemma_cell_sum_none(pl, hit, d, used, n);
        assert(configs(pl, hit, d, used, k, -1) == 0);
        let m = count_below(used, n) + cells_after(lens, d);
        assert(0 * m == 0) by (nonlinear_arith);
    } else {
        lemma_mass(pl, hit, lens, d, used, k - 1);
        lemma_cell_sum_step(pl, hit, d, used, k, n);
        let p = pl[d][k - 1];
        let a = configs(pl, hit, d, used, k - 1, -1);
        let m = count_below(used, n) + cells_after(lens, d);
        if disjoint(p, used) {
            let u = used | p;
            lemma_or_bits(used, p);
            assert(on_grid(u));
            lemma_mass(pl, hit, lens, d + 1, u, options(pl, d + 1));
            assert(p & used == 0 ==> used & p == 0) by (bit_vector);
            lemma_count_disjoint_union(used, p, n);
            let b = configs(pl, hit, d + 1, u, options(pl, d + 1), -1);
            assert(count_below(u, n) + cells_after(lens, d + 1) == m);
            assert(a * m + b * m == (a + b) * m) by (nonlinear_arith);
            assert(configs(pl, hit, d, used, k, -1) == a + b);
            assert(cell_sum(pl, hit, d + 1, u, options(pl, d + 1), n) == b * m);
        } else {
            assert(configs(pl, hit, d, used, k, -1) == a);
        }
    }
}

/// Per-cell counts add up to the number of configurations times the number of
/// cells the remaining ships cover, when every placement of each ship covers that
/// ship's length in cells: the probabilities of a heatmap add up to the number of
/// ship cells still afloat, and so to one exactly when that number is one.
pub proof fn lemma_cell_counts_sum(pl: Seq<Seq<u128>>, hit: u128, lens: Seq<nat>)
    requires
        sized(pl, lens),
    ensures
        cell_sum(pl, hit, 0, 0, options(pl, 0), CELL_COUNT as int) == completions(pl, hit, 0, 0, -1)
            * cells_after(lens, 0),
{
    assert forall|i: int| #[trigger] bit_on(0u128, i) implies 0 <= i < CELL_COUNT as int by {
        lemma_bit_zero(i as u128);
    }
    lemma_count_zero(CELL_COUNT as int);
    lemma_mass(pl, hit, lens, 0, 0, options(pl, 0));
}

/// The numerators of a heatmap add up to its denominator times the number of ship
/// cells still afloat; with the uniform fallback, to its denominator. The heatmap
/// sums to one exactly when one ship cell is afloat, or when no configuration
/// explains the observations.
pub proof fn lemma_heatmap_sums(r: Option<Heatmap>, pl: Seq<Seq<u128>>, hit: u128, lens: Seq<nat>)
    requires
        pl.len() > 0,
        sized(pl, lens),
        heatmap_result(r, pl, hit),
        r.is_some(),
    ensures
        completions(pl, hit, 0, 0, -1) > 0 ==> seq_sum(r.unwrap().numerators@, CELL_COUNT as int)
            == r.unwrap().denominator * cells_after(lens, 0),
        completions(pl, hit, 0, 0, -1) == 0 ==> seq_sum(r.unwrap().numerators@, CELL_COUNT as int)
            == r.unwrap().denominator,
{
    let h = r.unwrap();
    if completions(pl, hit, 0, 0, -1) > 0 {
        lemma_sum_matches(h.numerators@, pl, hit, CELL_COUNT as int);
        lemma_cell_counts_sum(pl, hit, lens);
    } else {
        lemma_sum_ones(h.numerators@, CELL_COUNT as int);
    }
}

proof fn lemma_sum_matches(s: Seq<u128>, pl: Seq<Seq<u128>>, hit: u128, n: int)
    requires
        0 <= n <= s.len(),
        forall|c: int| 0 <= c < s.len() ==> #[trigger] s[c] == completions(pl, hit, 0, 0, c),
    ensures
        seq_sum(s, n) == cell_sum(pl, hit, 0, 0, options(pl, 0), n),
    decreases n,
{
    if n > 0 {
        lemma_sum_matches(s, pl, hit, n - 1);
    }
}

proof fn lemma_sum_ones(s: Seq<u128>, n: int)
    requires
        0 <= n <= s.len(),
        forall|c: int| 0 <= c < s.len() ==> #[trigger] s[c] == 1,
    ensures
        seq_sum(s, n) == n,
    decreases n,
{
    if n > 0 {
        lemma_sum_ones(s, n - 1);
    }
}

/// A placement of a ship of `len` cells: exactly that many cells, all on the grid.
pub open spec fn covers_len(m: u128, len: int) -> bool {
    count_below(m, CELL_COUNT as int) == len && on_grid(m)
}

/// Bit of cell `j` of a run from bit `s`, `step` bits apart.
pub open spec fn run_cell(s: int, j: int, step: int) -> int {
    s + j * step
}

/// The bits of a run are its cells.
proof fn lemma_run_bits(s: int, len: int, step: int)
    requires
        s >= 0,
        step >= 1,
        len >= 1 ==> s + (len - 1) * step < 128,
    ensures
        forall|i: int|
            #[trigger] bit_on(run_mask(s, len, step), i) ==> exists|j: int|
                0 <= j < len && i == #[trigger] run_cell(s, j, step),
    decreases len,
{
    if len <= 0 {
        assert forall|i: int| #[trigger] bit_on(run_mask(s, len, step), i) implies false by {
            if 0 <= i < 128 {
                lemma_bit_zero(i as u128);
            }
        }
    } else {
        let k = s + (len - 1) * step;
        if len > 1 {
            assert(s + (len - 2) * step < k) by (nonlinear_arith)
                requires
                    step >= 1,
                    k == s + (len - 1) * step,
            ;
        }
        lemma_run_bits(s, len - 1, step);
        lemma_or_bits(run_mask(s, len - 1, step), 1u128 << (k as u128));
        lemma_single_bits(k as u128);
        assert forall|i: int| #[trigger] bit_on(run_mask(s, len, step), i) implies exists|j: int|
            0 <= j < len && i == #[trigger] run_cell(s, j, step) by {
            if i != k {
                let j = choose|j: int| 0 <= j < len - 1 && i == #[trigger] run_cell(s, j, step);
                assert(0 <= j < len && i == run_cell(s, j, step));
            } else {
                assert(0 <= len - 1 < len && i == run_cell(s, len - 1, step));
            }
        }
    }
}

/// A run of `len` cells ending below bit `n` counts `len` cells below `n`.
proof fn lemma_run_count(s: int, len: int, step: int, n: int)
    requires
        s >= 0,
        step >= 1,
        len >= 0,
        n <= 128,
        len >= 1 ==> s + (len - 1) * step < n,
    ensures
        count_below(run_mask(s, len, step), n) == len,
        forall|i: int| #[trigger] bit_on(run_mask(s, len, step), i) ==> 0 <= i < n,
    decreases len,
{
    if len == 0 {
        lemma_count_zero(n);
        assert forall|i: int| #[trigger] bit_on(run_mask(s, len, step), i) implies 0 <= i < n by {
            if 0 <= i < 128 {
                lemma_bit_zero(i as u128);
            }
        }
    } else {
        let k = s + (len - 1) * step;
        if len > 1 {
            assert(s + (len - 2) * step < k) by (nonlinear_arith)
                requires
                    step >= 1,
                    k == s + (len - 1) * step,
            ;
        }
        lemma_run_count(s, len - 1, step, n);
        lemma_run_bits(s, len - 1, step);
        let prev = run_mask(s, len - 1, step);
        if bit_on(prev, k) {
            let j = choose|j: int| 0 <= j < len - 1 && k == #[trigger] run_cell(s, j, step);
            assert(s + j * step < s + (len - 1) * step) by (nonlinear_arith)
                requires
                    j < len - 1,
                    step >= 1,
            ;
        }
        lemma_count_add(prev, k as u128, n);
        lemma_or_bits(prev, 1u128 << (k as u128));
        lemma_single_bits(k as u128);
    }
}

/// Every run in the first `rows` rows covers `len` cells of the grid.
proof fn lemma_horizontal_sized(len: int, rows: int)
    requires
        0 <= len <= GRID_SIZE,
        rows <= GRID_SIZE,
    ensures
        forall|i: int|
            0 <= i < horizontal_runs(len, rows).len() ==> covers_len(
                #[trigger] horizontal_runs(len, rows)[i],
                len,
            ),
    decreases rows,
{
    if rows > 0 {
        lemma_horizontal_sized(len, rows - 1);
        let a = horizontal_runs(len, rows - 1);
        let b = row_runs(rows - 1, len);
        assert forall|i: int| 0 <= i < (a + b).len() implies covers_len(#[trigger] (a + b)[i], len) by {
            if i >= a.len() {
                let c = i - a.len();
                let st = (rows - 1) * 10 + c;
                assert(st >= 0 && (len >= 1 ==> st + (len - 1) * 1 < 100)) by (nonlinear_arith)
                    requires
                        0 <= c < GRID_SIZE + 1 - len,
                        1 <= rows <= 10,
                        st == (rows - 1) * 10 + c,
                ;
                lemma_run_count(st, len, 1, CELL_COUNT as int);
                assert(b[c] == run_mask(st, len, 1));
            }
        }
    }
}

/// Every run in the first `cols` columns covers `len` cells of the grid.
proof fn lemma_vertical_sized(len: int, cols: int)
    requires
        0 <= len <= GRID_SIZE,
        cols <= GRID_SIZE,
    ensures
        forall|i: int|
            0 <= i < vertical_runs(len, cols).len() ==> covers_len(
                #[trigger] vertical_runs(len, cols)[i],
                len,
            ),
    decreases cols,
{
    if cols > 0 {
        lemma_vertical_sized(len, cols - 1);
        let a = vertical_runs(len, cols - 1);
        let b = column_runs(cols - 1, len);
        assert forall|i: int| 0 <= i < (a + b).len() implies covers_len(#[trigger] (a + b)[i], len) by {
            if i >= a.len() {
                let r = i - a.len();
                let st = r * 10 + (cols - 1);
                assert(st >= 0 && (len >= 1 ==> st + (len - 1) * 10 < 100)) by (nonlinear_arith)
                    requires
                        0 <= r < GRID_SIZE + 1 - len,
                        1 <= cols <= 10,
                        st == r * 10 + (cols - 1),
                ;
                lemma_run_count(st, len, 10, CELL_COUNT as int);
                assert(b[r] == run_mask(st, len, 10));
            }
        }
    }
}

/// Filtering keeps placements that cover `len` cells.
proof fn lemma_filter_sized(s: Seq<u128>, exclude: u128, len: int)
    requires
        forall|i: int| 0 <= i < s.len() ==> covers_len(#[trigger] s[i], len),
    ensures
        forall|i: int|
            0 <= i < s.filter(avoids(exclude)).len() ==> covers_len(
                #[trigger] s.filter(avoids(exclude))[i],
                len,
            ),
    decreases s.len(),
{
    if s.len() > 0 {
        let rest = s.drop_last();
        assert forall|i: int| 0 <= i < rest.len() implies covers_len(#[trigger] rest[i], len) by {
            assert(rest[i] == s[i]);
        }
        lemma_filter_sized(rest, exclude, len);
        lemma_filter_push(rest, s.last(), exclude);
        assert(rest.push(s.last()) =~= s);
        assert(covers_len(s[s.len() - 1], len));
    }
}

/// Every placement avoiding `exclude` of a ship of `len` cells covers `len` cells
/// of the grid.
pub proof fn lemma_placements_sized(exclude: u128, len: int)
    requires
        len >= 0,
    ensures
        forall|i: int|
            0 <= i < placements_avoiding(exclude, len).len() ==> covers_len(
                #[trigger] placements_avoiding(exclude, len)[i],
                len,
            ),
{
    if len <= GRID_SIZE {
        lemma_horizontal_sized(len, GRID_SIZE as int);
        lemma_vertical_sized(len, GRID_SIZE as int);
        let h = horizontal_runs(len, GRID_SIZE as int);
        let v = vertical_runs(len, GRID_SIZE as int);
        let all = all_runs(len);
        assert(all == h + v);
        assert forall|i: int| 0 <= i < all.len() implies covers_len(#[trigger] all[i], len) by {
            if i < h.len() {
                assert(all[i] == h[i]);
            } else {
                assert(all[i] == v[i - h.len()]);
            }
        }
        lemma_filter_sized(all, exclude, len);
    } else {
        assert(all_runs(len) =~= Seq::<u128>::empty());
        reveal(Seq::filter);
    }
}

/// Two posteriors set up from the same observations and ship lengths have the same
/// placement lists and hits, and so the same exact result: the computation is a
/// function of its inputs.
pub proof fn lemma_same_inputs_agree(
    a: Posterior,
    b: Posterior,
    misses: Seq<(usize, usize)>,
    hits: Seq<(usize, usize)>,
    lengths: Seq<usize>,
)
    requires
        built_from(a, misses, hits, lengths),
        built_from(b, misses, hits, lengths),
    ensures
        a.lists() == b.lists(),
        a.hits() == b.hits(),
{
    assert forall|i: int| 0 <= i < 128 implies #[trigger] bit_on(a.misses(), i) == bit_on(
        b.misses(),
        i,
    ) by {}
    lemma_bits_equal(a.misses(), b.misses());
    assert forall|i: int| 0 <= i < 128 implies #[trigger] bit_on(a.hits(), i) == bit_on(b.hits(), i) by {}
    lemma_bits_equal(a.hits(), b.hits());
}

/// `f(0) + ... + f(n - 1)`.
pub open spec fn sum_to(f: spec_fn(int) -> nat, n: int) -> nat
    decreases n,
{
    if n <= 0 {
        0
    } else {
        sum_to(f, n - 1) + f(n - 1)
    }
}

/// The contribution of each placement of ship `d` to the count from depth `d`.
pub open spec fn branch_term(pl: Seq<Seq<u128>>, hit: u128, d: int, used: u128, cell: int) -> spec_fn(
    int,
) -> nat {
    |i: int|
        if disjoint(pl[d][i], used) {
            completions(pl, hit, d + 1, used | pl[d][i], cell)
        } else {
            0
        }
}

spec fn row(t: spec_fn(int, int) -> nat, i: int) -> spec_fn(int) -> nat {
    |j: int| t(i, j)
}

spec fn col(t: spec_fn(int, int) -> nat, j: int) -> spec_fn(int) -> nat {
    |i: int| t(i, j)
}

spec fn rows_sum(t: spec_fn(int, int) -> nat, m: int) -> spec_fn(int) -> nat {
    |i: int| sum_to(row(t, i), m)
}

spec fn cols_sum(t: spec_fn(int, int) -> nat, n: int) -> spec_fn(int) -> nat {
    |j: int| sum_to(col(t, j), n)
}

proof fn lemma_sum_ext(f: spec_fn(int) -> nat, g: spec_fn(int) -> nat, n: int)
    requires
        forall|i: int| 0 <= i < n ==> #[trigger] f(i) == g(i),
    ensures
        sum_to(f, n) == sum_to(g, n),
    decreases n,
{
    if n > 0 {
        lemma_sum_ext(f, g, n - 1);
    }
}

proof fn lemma_sum_add(f: spec_fn(int) -> nat, g: spec_fn(int) -> nat, h: spec_fn(int) -> nat, n: int)
    requires
        forall|i: int| 0 <= i < n ==> #[trigger] h(i) == f(i) + g(i),
    ensures
        sum_to(h, n) == sum_to(f, n) + sum_to(g, n),
    decreases n,
{
    if n > 0 {
        lemma_sum_add(f, g, h, n - 1);
    }
}

proof fn lemma_sum_zero(f: spec_fn(int) -> nat, n: int)
    requires
        forall|i: int| 0 <= i < n ==> #[trigger] f(i) == 0,
    ensures
        sum_to(f, n) == 0,
    decreases n,
{
    if n > 0 {
        lemma_sum_zero(f, n - 1);
    }
}

/// A double sum can be taken row by row or column by column.
proof fn lemma_sum_exchange(t: spec_fn(int, int) -> nat, n: int, m: int)
    requires
        n >= 0,
        m >= 0,
    ensures
        sum_to(rows_sum(t, m), n) == sum_to(cols_sum(t, n), m),
    decreases n,
{
    if n == 0 {
        lemma_sum_zero(cols_sum(t, 0), m);
    } else {
        lemma_sum_exchange(t, n - 1, m);
        assert forall|j: int| 0 <= j < m implies #[trigger] cols_sum(t, n)(j) == cols_sum(t, n - 1)(j) + row(
            t,
            n - 1,
        )(j) by {}
        lemma_sum_add(cols_sum(t, n - 1), row(t, n - 1), cols_sum(t, n), m);
    }
}

/// Counting from depth `d` sums the contributions of the placements of ship `d`.
proof fn lemma_configs_sum(pl: Seq<Seq<u128>>, hit: u128, d: int, used: u128, k: int, cell: int)
    requires
        0 <= d < pl.len(),
        0 <= k <= pl[d].len(),
    ensures
        configs(pl, hit, d, used, k, cell) == sum_to(branch_term(pl, hit, d, used, cell), k),
    decreases k,
{
    if k > 0 {
        lemma_configs_sum(pl, hit, d, used, k - 1, cell);
    }
}

/// Placing two ships one way or the other gives the same cells, allowed together.
proof fn lemma_two_placements(a: u128, b: u128, u: u128)
    ensures
        (disjoint(a, u) && disjoint(b, u | a)) == (disjoint(b, u) && disjoint(a, u | b)),
        (u | a) | b == (u | b) | a,
{
    assert((a & u == 0 && b & (u | a) == 0) == (b & u == 0 && a & (u | b) == 0)) by (bit_vector);
    assert((u | a) | b == (u | b) | a) by (bit_vector);
}

/// The lists with ships `d` and `d + 1` swapped.
pub open spec fn swap_ships(pl: Seq<Seq<u128>>, d: int) -> Seq<Seq<u128>> {
    pl.update(d, pl[d + 1]).update(d + 1, pl[d])
}

/// The two-ship table of contributions from depth `d`: ship `d` takes placement
/// `i`, ship `d + 1` placement `j`.
spec fn pair_term(pl: Seq<Seq<u128>>, hit: u128, d: int, used: u128, cell: int) -> spec_fn(
    int,
    int,
) -> nat {
    |i: int, j: int|
        if disjoint(pl[d][i], used) && disjoint(pl[d + 1][j], used | pl[d][i]) {
            completions(pl, hit, d + 2, (used | pl[d][i]) | pl[d + 1][j], cell)
        } else {
            0
        }
}

/// The count from depth `d` is the double sum of the two-ship table.
proof fn lemma_pair_sum(pl: Seq<Seq<u128>>, hit: u128, d: int, used: u128, cell: int)
    requires
        0 <= d,
        d + 1 < pl.len(),
    ensures
        completions(pl, hit, d, used, cell) == sum_to(
            rows_sum(pair_term(pl, hit, d, used, cell), pl[d + 1].len() as int),
            pl[d].len() as int,
        ),
{
    let t = pair_term(pl, hit, d, used, cell);
    let m = pl[d + 1].len() as int;
    lemma_configs_sum(pl, hit, d, used, pl[d].len() as int, cell);
    assert forall|i: int| 0 <= i < pl[d].len() implies #[trigger] branch_term(pl, hit, d, used, cell)(i)
        == rows_sum(t, m)(i) by {
        let a = pl[d][i];
        if disjoint(a, used) {
            lemma_configs_sum(pl, hit, d + 1, used | a, m, cell);
            lemma_sum_ext(branch_term(pl, hit, d + 1, used | a, cell), row(t, i), m);
        } else {
            lemma_sum_zero(row(t, i), m);
        }
    }
    lemma_sum_ext(branch_term(pl, hit, d, used, cell), rows_sum(t, m), pl[d].len() as int);
}

/// Swapping ships `d` and `d + 1` leaves the count from depth `d` unchanged.
proof fn lemma_swap_at(pl: Seq<Seq<u128>>, hit: u128, d: int, used: u128, cell: int)
    requires
        0 <= d,
        d + 1 < pl.len(),
    ensures
        completions(swap_ships(pl, d), hit, d, used, cell) == completions(pl, hit, d, used, cell),
{
    let ql = swap_ships(pl, d);
    let n = pl[d].len() as int;
    let m = pl[d + 1].len() as int;
    let t = pair_term(pl, hit, d, used, cell);
    let s = pair_term(ql, hit, d, used, cell);
    lemma_pair_sum(pl, hit, d, used, cell);
    lemma_pair_sum(ql, hit, d, used, cell);
    assert(ql[d] == pl[d + 1] && ql[d + 1] == pl[d]);
    assert forall|j: int, i: int| 0 <= j < m && 0 <= i < n implies #[trigger] s(j, i) == t(i, j) by {
        let a = pl[d][i];
        let b = pl[d + 1][j];
        lemma_two_placements(a, b, used);
        assert forall|x: int| d + 2 <= x < pl.len() implies #[trigger] pl[x] == ql[x] by {}
        lemma_same_from(pl, ql, hit, d + 2, (used | a) | b, options(pl, d + 2), cell);
    }
    assert forall|j: int| 0 <= j < m implies #[trigger] rows_sum(s, n)(j) == cols_sum(t, n)(j) by {
        lemma_sum_ext(row(s, j), col(t, j), n);
    }
    lemma_sum_ext(rows_sum(s, n), cols_sum(t, n), m);
    lemma_sum_exchange(t, n, m);
}

/// Swapping ships `d` and `d + 1` leaves every count from a depth up to `d` unchanged.
proof fn lemma_swap_from(pl: Seq<Seq<u128>>, hit: u128, d: int, e: int, used: u128, k: int, cell: int)
    requires
        0 <= e < d,
        d + 1 < pl.len(),
        0 <= k <= pl[e].len(),
    ensures
        configs(swap_ships(pl, d), hit, e, used, k, cell) == configs(pl, hit, e, used, k, cell),
    decreases d - e, k,
{
    let ql = swap_ships(pl, d);
    if k > 0 {
        lemma_swap_from(pl, hit, d, e, used, k - 1, cell);
        assert(ql[e] == pl[e]);
        let p = pl[e][k - 1];
        if disjoint(p, used) {
            if e + 1 == d {
                lemma_swap_at(pl, hit, d, used | p, cell);
            } else {
                lemma_swap_from(pl, hit, d, e + 1, used | p, options(pl, e + 1), cell);
            }
        }
    }
}

/// The order in which the ships are searched does not change any count: swapping
/// two neighbouring ships leaves the number of configurations, in all and through
/// each cell, as it was. Sorting the ships is a matter of speed only.
pub proof fn lemma_ship_order_irrelevant(pl: Seq<Seq<u128>>, hit: u128, d: int, cell: int)
    requires
        0 <= d,
        d + 1 < pl.len(),
    ensures
        completions(swap_ships(pl, d), hit, 0, 0, cell) == completions(pl, hit, 0, 0, cell),
{
    if d == 0 {
        lemma_swap_at(pl, hit, 0, 0, cell);
    } else {
        lemma_swap_from(pl, hit, d, 0, 0, pl[0].len() as int, cell);
    }
}

/// The lists after swapping neighbours at each index of `ds`, in turn.
pub open spec fn swaps(pl: Seq<Seq<u128>>, ds: Seq<int>) -> Seq<Seq<u128>>
    decreases ds.len(),
{
    if ds.len() == 0 {
        pl
    } else {
        swap_ships(swaps(pl, ds.drop_last()), ds.last())
    }
}

/// Whether each swap of `ds` is between two ships of `n`.
pub open spec fn swaps_within(ds: Seq<int>, n: int) -> bool {
    forall|i: int| 0 <= i < ds.len() ==> 0 <= #[trigger] ds[i] && ds[i] + 1 < n
}

proof fn lemma_swaps_len(pl: Seq<Seq<u128>>, ds: Seq<int>)
    requires
        swaps_within(ds, pl.len() as int),
    ensures
        swaps(pl, ds).len() == pl.len(),
    decreases ds.len(),
{
    if ds.len() > 0 {
        assert(swaps_within(ds.drop_last(), pl.len() as int)) by {
            assert forall|i: int| 0 <= i < ds.drop_last().len() implies 0 <= #[trigger] ds.drop_last()[i]
                && ds.drop_last()[i] + 1 < pl.len() by {
                assert(ds.drop_last()[i] == ds[i]);
            }
        }
        lemma_swaps_len(pl, ds.drop_last());
    }
}

/// Swaps between neighbours never change any count.
proof fn lemma_swaps_keep_counts(pl: Seq<Seq<u128>>, hit: u128, ds: Seq<int>, cell: int)
    requires
        swaps_within(ds, pl.len() as int),
    ensures
        completions(swaps(pl, ds), hit, 0, 0, cell) == completions(pl, hit, 0, 0, cell),
    decreases ds.len(),
{
    if ds.len() > 0 {
        let rest = ds.drop_last();
        assert(swaps_within(rest, pl.len() as int)) by {
            assert forall|i: int| 0 <= i < rest.len() implies 0 <= #[trigger] rest[i] && rest[i] + 1
                < pl.len() by {
                assert(rest[i] == ds[i]);
            }
        }
        lemma_swaps_keep_counts(pl, hit, rest, cell);
        lemma_swaps_len(pl, rest);
        assert(0 <= ds[ds.len() - 1]);
        lemma_ship_order_irrelevant(swaps(pl, rest), hit, ds.last(), cell);
    }
}

proof fn lemma_swaps_append(pl: Seq<Seq<u128>>, a: Seq<int>, b: Seq<int>)
    ensures
        swaps(pl, a + b) == swaps(swaps(pl, a), b),
    decreases b.len(),
{
    if b.len() == 0 {
        assert(a + b =~= a);
    } else {
        lemma_swaps_append(pl, a, b.drop_last());
        assert((a + b).drop_last() =~= a + b.drop_last());
    }
}

/// Swaps among the first lists do not touch one appended after them.
proof fn lemma_swaps_push(ys: Seq<Seq<u128>>, x: Seq<u128>, ds: Seq<int>)
    requires
        swaps_within(ds, ys.len() as int),
    ensures
        swaps(ys.push(x), ds) == swaps(ys, ds).push(x),
    decreases ds.len(),
{
    if ds.len() > 0 {
        let rest = ds.drop_last();
        assert(swaps_within(rest, ys.len() as int)) by {
            assert forall|i: int| 0 <= i < rest.len() implies 0 <= #[trigger] rest[i] && rest[i] + 1
                < ys.len() by {
                assert(rest[i] == ds[i]);
            }
        }
        lemma_swaps_push(ys, x, rest);
        lemma_swaps_len(ys, rest);
        assert(0 <= ds[ds.len() - 1]);
        assert(swap_ships(swaps(ys, rest).push(x), ds.last()) =~= swap_ships(swaps(ys, rest), ds.last()).push(
            x,
        ));
    }
}

/// The swaps that move the last of `n` lists down to index `j`.
pub open spec fn moves_down(n: int, j: int) -> Seq<int>
    decreases n - j,
{
    if j >= n - 1 {
        Seq::empty()
    } else {
        moves_down(n, j + 1).push(j)
    }
}

proof fn lemma_moves_down(ys: Seq<Seq<u128>>, x: Seq<u128>, j: int)
    requires
        0 <= j <= ys.len(),
    ensures
        swaps_within(moves_down((ys.len() + 1) as int, j), (ys.len() + 1) as int),
        swaps(ys.push(x), moves_down((ys.len() + 1) as int, j)) == ys.insert(j, x),
    decreases ys.len() - j,
{
    let n = (ys.len() + 1) as int;
    if j >= n - 1 {
        assert(ys.push(x) =~= ys.insert(j, x));
    } else {
        lemma_moves_down(ys, x, j + 1);
        let ds = moves_down(n, j);
        assert(ds.drop_last() == moves_down(n, j + 1));
        assert forall|i: int| 0 <= i < ds.len() implies 0 <= #[trigger] ds[i] && ds[i] + 1 < n by {
            if i < ds.len() - 1 {
                assert(ds[i] == moves_down(n, j + 1)[i]);
            }
        }
        assert(swap_ships(ys.insert(j + 1, x), j) =~= ys.insert(j, x));
    }
}

/// The swaps that sort the lists by number of placements, as `sort_by_count` does.
pub open spec fn sorting_swaps(s: Seq<Seq<u128>>) -> Seq<int>
    decreases s.len(),
{
    if s.len() == 0 {
        Seq::empty()
    } else {
        let sorted = sort_by_count(s.drop_last());
        sorting_swaps(s.drop_last()) + moves_down(
            s.len() as int,
            not_longer(sorted, s.last().len()),
        )
    }
}

proof fn lemma_not_longer_bound(s: Seq<Seq<u128>>, n: nat)
    ensures
        0 <= not_longer(s, n) <= s.len(),
    decreases s.len(),
{
    if s.len() > 0 && s[0].len() <= n {
        lemma_not_longer_bound(s.drop_first(), n);
    }
}

proof fn lemma_sort_swaps(s: Seq<Seq<u128>>)
    ensures
        sort_by_count(s).len() == s.len(),
        swaps_within(sorting_swaps(s), s.len() as int),
        swaps(s, sorting_swaps(s)) == sort_by_count(s),
    decreases s.len(),
{
    if s.len() > 0 {
        let ys = s.drop_last();
        let x = s.last();
        lemma_sort_swaps(ys);
        let sorted = sort_by_count(ys);
        let j = not_longer(sorted, x.len());
        lemma_not_longer_bound(sorted, x.len());
        let a = sorting_swaps(ys);
        let b = moves_down(s.len() as int, j);
        lemma_moves_down(sorted, x, j);
        assert(ys.push(x) =~= s);
        lemma_swaps_push(ys, x, a);
        lemma_swaps_append(s, a, b);
        let ds = a + b;
        assert forall|i: int| 0 <= i < ds.len() implies 0 <= #[trigger] ds[i] && ds[i] + 1 < s.len() by {
            if i < a.len() {
                assert(ds[i] == a[i]);
            } else {
                assert(ds[i] == b[i - a.len()]);
            }
        }
    }
}

/// Counting over the lists sorted fewest first gives the counts of the lists in
/// the order given.
pub proof fn lemma_sorted_counts(s: Seq<Seq<u128>>, hit: u128, cell: int)
    ensures
        completions(sort_by_count(s), hit, 0, 0, cell) == completions(s, hit, 0, 0, cell),
{
    lemma_sort_swaps(s);
    lemma_swaps_keep_counts(s, hit, sorting_swaps(s), cell);
}

/// The counts of a posterior, whose ships are searched fewest placements first,
/// are those of the ships in the order the lengths were given: reordering the
/// ships changes the speed of the search, not its result.
pub proof fn lemma_counts_as_given(
    post: Posterior,
    misses: Seq<(usize, usize)>,
    hits: Seq<(usize, usize)>,
    lengths: Seq<usize>,
    cell: int,
)
    requires
        built_from(post, misses, hits, lengths),
    ensures
        completions(post.lists(), post.hits(), 0, 0, cell) == completions(
            lists_for(lengths, post.misses()),
            post.hits(),
            0,
            0,
            cell,
        ),
{
    lemma_sorted_counts(lists_for(lengths, post.misses()), post.hits(), cell);
}

} // verus!
