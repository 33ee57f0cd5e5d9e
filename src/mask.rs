//! Cell masks: a set of grid cells packed into one `u128`, bit `r * GRID_SIZE + c`
//! standing for the cell at row `r`, column `c`.
use vstd::prelude::*;

verus! {

/// Side of the square grid.
pub const GRID_SIZE: usize = 10;

/// Number of cells of the grid.
pub const CELL_COUNT: usize = 100;

/// Whether bit `i` of `m` is set.
pub open spec fn bit_on(m: u128, i: int) -> bool {
    0 <= i < 128 && (m >> (i as u128)) & 1u128 == 1u128
}

/// The bit that stands for the cell at row `r`, column `c`.
pub open spec fn cell_index(r: int, c: int) -> int {
    r * GRID_SIZE as int + c
}

/// Whether `(r, c)` lies on the grid.
pub open spec fn in_grid(r: int, c: int) -> bool {
    0 <= r < GRID_SIZE as int && 0 <= c < GRID_SIZE as int
}

/// Every set bit of `a` is set in `b`.
pub open spec fn subset(a: u128, b: u128) -> bool {
    a & b == a
}

/// `a` and `b` share no bit.
pub open spec fn disjoint(a: u128, b: u128) -> bool {
    a & b == 0
}

/// All set bits of `m` lie on the grid.
pub open spec fn on_grid(m: u128) -> bool {
    forall|i: int| #[trigger] bit_on(m, i) ==> 0 <= i < CELL_COUNT as int
}

pub proof fn lemma_bit_or(a: u128, b: u128, i: u128)
    requires
        i < 128,
    ensures
        bit_on(a | b, i as int) == (bit_on(a, i as int) || bit_on(b, i as int)),
{
    assert(((a | b) >> i) & 1u128 == 1u128 <==> ((a >> i) & 1u128 == 1u128 || (b >> i) & 1u128
        == 1u128)) by (bit_vector);
}

pub proof fn lemma_bit_and(a: u128, b: u128, i: u128)
    requires
        i < 128,
    ensures
        bit_on(a & b, i as int) == (bit_on(a, i as int) && bit_on(b, i as int)),
{
    assert(((a & b) >> i) & 1u128 == 1u128 <==> ((a >> i) & 1u128 == 1u128 && (b >> i) & 1u128
        == 1u128)) by (bit_vector);
}

pub proof fn lemma_bit_single(k: u128, i: u128)
    requires
        k < 128,
        i < 128,
    ensures
        bit_on(1u128 << k, i as int) == (i == k),
{
    assert(((1u128 << k) >> i) & 1u128 == 1u128 <==> i == k) by (bit_vector)
        requires
            k < 128,
            i < 128,
    ;
}

pub proof fn lemma_bit_zero(i: u128)
    requires
        i < 128,
    ensures
        bit_on(0u128, i as int) == false,
{
    assert((0u128 >> i) & 1u128 == 0u128) by (bit_vector);
}

/// The bits of `a | b` are those of `a` and those of `b`.
pub proof fn lemma_or_bits(a: u128, b: u128)
    ensures
        forall|i: int| #[trigger] bit_on(a | b, i) == (bit_on(a, i) || bit_on(b, i)),
{
    assert forall|i: int| #[trigger] bit_on(a | b, i) == (bit_on(a, i) || bit_on(b, i)) by {
        if 0 <= i < 128 {
            lemma_bit_or(a, b, i as u128);
        }
    }
}

pub proof fn lemma_and_bits(a: u128, b: u128)
    ensures
        forall|i: int| #[trigger] bit_on(a & b, i) == (bit_on(a, i) && bit_on(b, i)),
{
    assert forall|i: int| #[trigger] bit_on(a & b, i) == (bit_on(a, i) && bit_on(b, i)) by {
        if 0 <= i < 128 {
            lemma_bit_and(a, b, i as u128);
        }
    }
}

pub proof fn lemma_single_bits(k: u128)
    requires
        k < 128,
    ensures
        forall|i: int| #[trigger] bit_on(1u128 << k, i) == (i == k),
{
    assert forall|i: int| #[trigger] bit_on(1u128 << k, i) == (i == k) by {
        if 0 <= i < 128 {
            lemma_bit_single(k, i as u128);
        }
    }
}

/// Two masks with the same bits are equal.
pub proof fn lemma_bits_equal(a: u128, b: u128)
    requires
        forall|i: int| 0 <= i < 128 ==> #[trigger] bit_on(a, i) == bit_on(b, i),
    ensures
        a == b,
{
    let x = a ^ b;
    assert forall|i: u128| i < 128 implies (x >> i) & 1u128 == 0u128 by {
        assert(bit_on(a, i as int) == bit_on(b, i as int));
        assert(((a >> i) & 1u128 == 1u128) == ((b >> i) & 1u128 == 1u128) ==> ((a ^ b) >> i)
            & 1u128 == 0u128) by (bit_vector);
    }
    lemma_no_bits_zero(x);
    assert(a ^ b == 0u128 ==> a == b) by (bit_vector);
}

/// A mask without a set bit is zero.
pub proof fn lemma_no_bits_zero(x: u128)
    requires
        forall|i: u128| i < 128 ==> (x >> i) & 1u128 == 0u128,
    ensures
        x == 0,
{
    lemma_high_bits_zero(x, 0);
    assert(x >> 0u128 == 0u128 ==> x == 0) by (bit_vector);
}

proof fn lemma_high_bits_zero(x: u128, k: u128)
    requires
        k < 128,
        forall|i: u128| i < 128 ==> (x >> i) & 1u128 == 0u128,
    ensures
        x >> k == 0u128,
    decreases 127 - k,
{
    assert((x >> k) & 1u128 == 0u128);
    if k == 127 {
        assert((x >> 127u128) & 1u128 == 0u128 ==> x >> 127u128 == 0u128) by (bit_vector);
    } else {
        lemma_high_bits_zero(x, (k + 1) as u128);
        assert(k < 127 && x >> ((k + 1) as u128) == 0u128 && (x >> k) & 1u128 == 0u128 ==> x >> k
            == 0u128) by (bit_vector);
    }
}

/// `a` and `b` share no bit exactly when no index is set in both.
pub proof fn lemma_disjoint_bits(a: u128, b: u128)
    ensures
        disjoint(a, b) <==> (forall|i: int| !(#[trigger] bit_on(a, i) && bit_on(b, i))),
{
    lemma_and_bits(a, b);
    if forall|i: int| !(#[trigger] bit_on(a, i) && bit_on(b, i)) {
        assert forall|i: int| 0 <= i < 128 implies #[trigger] bit_on(a & b, i) == bit_on(0u128, i) by {
            lemma_bit_zero(i as u128);
        }
        lemma_bits_equal(a & b, 0u128);
    }
    if disjoint(a, b) {
        assert forall|i: int| !(#[trigger] bit_on(a, i) && bit_on(b, i)) by {
            if 0 <= i < 128 {
                lemma_bit_zero(i as u128);
                assert(bit_on(a & b, i) == (bit_on(a, i) && bit_on(b, i)));
            }
        }
    }
}

/// `a` is a subset of `b` exactly when each bit of `a` is set in `b`.
pub proof fn lemma_subset_bits(a: u128, b: u128)
    ensures
        subset(a, b) <==> (forall|i: int| #[trigger] bit_on(a, i) ==> bit_on(b, i)),
{
    lemma_and_bits(a, b);
    if forall|i: int| #[trigger] bit_on(a, i) ==> bit_on(b, i) {
        assert forall|i: int| 0 <= i < 128 implies #[trigger] bit_on(a & b, i) == bit_on(a, i) by {}
        lemma_bits_equal(a & b, a);
    }
}

/// The mask of the single cell at bit `k`.
pub fn single(k: usize) -> (r: u128)
    requires
        k < 128,
    ensures
        r == 1u128 << (k as u128),
        forall|i: int| #[trigger] bit_on(r, i) == (i == k),
{
    proof {
        lemma_single_bits(k as u128);
    }
    1u128 << (k as u128)
}

/// Number of set bits of `m` below bit `n`.
pub open spec fn count_below(m: u128, n: int) -> nat
    decreases n,
{
    if n <= 0 {
        0
    } else {
        count_below(m, n - 1) + if bit_on(m, n - 1) {
            1nat
        } else {
            0nat
        }
    }
}

/// Number of cells of a mask.
pub open spec fn count_cells(m: u128) -> nat {
    count_below(m, 128)
}

/// The empty mask has no cell.
pub proof fn lemma_count_zero(n: int)
    ensures
        count_below(0u128, n) == 0,
    decreases n,
{
    if n > 0 {
        lemma_count_zero(n - 1);
        if 0 <= n - 1 < 128 {
            lemma_bit_zero((n - 1) as u128);
        }
    }
}

/// A subset has no more cells.
pub proof fn lemma_count_subset(a: u128, b: u128, n: int)
    requires
        subset(a, b),
    ensures
        count_below(a, n) <= count_below(b, n),
    decreases n,
{
    if n > 0 {
        lemma_subset_bits(a, b);
        lemma_count_subset(a, b, n - 1);
    }
}

/// A mask has at most as many cells below `n` as there are bits below `n`.
pub proof fn lemma_count_at_most(m: u128, n: int)
    requires
        n >= 0,
    ensures
        count_below(m, n) <= n,
    decreases n,
{
    if n > 0 {
        lemma_count_at_most(m, n - 1);
    }
}

/// Number of cells of `m`.
pub fn cell_count(m: u128) -> (r: usize)
    ensures
        r == count_cells(m),
        r <= 128,
{
    let mut r: usize = 0;
    let mut i: usize = 0;
    while i < 128
        invariant
            i <= 128,
            r == count_below(m, i as int),
        decreases 128 - i,
    {
        proof {
            lemma_count_at_most(m, i as int);
        }
        if (m >> (i as u128)) & 1 == 1 {
            r = r + 1;
        }
        i = i + 1;
    }
    proof {
        lemma_count_at_most(m, 128);
    }
    r
}

/// Whether the cell at bit `i` is set in `m`.
pub fn contains(m: u128, i: usize) -> (r: bool)
    requires
        i < 128,
    ensures
        r == bit_on(m, i as int),
{
    (m >> (i as u128)) & 1 == 1
}

/// The mask of every cell of the grid.
pub const ALL_CELLS: u128 = 0xf_ffff_ffff_ffff_ffff_ffff_ffffu128;

pub proof fn lemma_all_cells()
    ensures
        forall|i: int| #[trigger] bit_on(ALL_CELLS, i) <==> 0 <= i < CELL_COUNT as int,
{
    assert forall|i: int| #[trigger] bit_on(ALL_CELLS, i) <==> 0 <= i < CELL_COUNT as int by {
        if 0 <= i < 128 {
            let k = i as u128;
            assert((0xf_ffff_ffff_ffff_ffff_ffff_ffffu128 >> k) & 1u128 == 1u128 <==> k < 100)
                by (bit_vector)
                requires
                    k < 128,
            ;
        }
    }
}

pub proof fn lemma_not_bits(a: u128)
    ensures
        forall|i: int| 0 <= i < 128 ==> #[trigger] bit_on(!a, i) == !bit_on(a, i),
{
    assert forall|i: int| 0 <= i < 128 implies #[trigger] bit_on(!a, i) == !bit_on(a, i) by {
        let k = i as u128;
        assert(((!a) >> k) & 1u128 == 1u128 <==> !((a >> k) & 1u128 == 1u128)) by (bit_vector)
            requires
                k < 128,
        ;
    }
}

/// Adding a cell that was not there adds one to the count.
pub proof fn lemma_count_add(m: u128, k: u128, n: int)
    requires
        k < 128,
        !bit_on(m, k as int),
        0 <= n <= 128,
    ensures
        count_below(m | (1u128 << k), n) == count_below(m, n) + if k < n {
            1nat
        } else {
            0nat
        },
    decreases n,
{
    if n > 0 {
        lemma_count_add(m, k, n - 1);
        lemma_or_bits(m, 1u128 << k);
        lemma_single_bits(k);
    }
}

/// The cells of two disjoint masks add up.
pub proof fn lemma_count_disjoint_union(a: u128, b: u128, n: int)
    requires
        disjoint(a, b),
        n <= 128,
    ensures
        count_below(a | b, n) == count_below(a, n) + count_below(b, n),
    decreases n,
{
    if n > 0 {
        lemma_count_disjoint_union(a, b, n - 1);
        lemma_or_bits(a, b);
        lemma_disjoint_bits(a, b);
        assert(!(bit_on(a, n - 1) && bit_on(b, n - 1)));
    }
}

} // verus!
