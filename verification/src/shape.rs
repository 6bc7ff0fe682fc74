//! Occupancy shapes: which of the sixteen cells of a board hold a tile.

use vstd::prelude::*;
use vstd::arithmetic::div_mod::lemma_div_denominator;
use vstd::arithmetic::power2::{
    pow2, lemma_pow2_pos, lemma_pow2_strictly_increases, lemma_pow2_unfold, lemma2_to64,
};
use vstd::bits::lemma_u16_shr_is_div;

verus! {

/// Number of cells on one side of a board.
pub const SIDE: usize = 4;

/// Number of cells of a board.
pub const CELLS: usize = 16;

/// Whether bit `k` of `mask` is set, counting from the least significant bit.
pub open spec fn bit(mask: nat, k: nat) -> bool {
    (mask / pow2(k)) % 2 == 1
}

/// How many of the bits `0 .. k` of `mask` are set.
pub open spec fn bits_below(mask: nat, k: nat) -> nat
    decreases k,
{
    if k == 0 {
        0
    } else {
        bits_below(mask, (k - 1) as nat) + if bit(mask, (k - 1) as nat) {
            1nat
        } else {
            0nat
        }
    }
}

/// The number of set bits of `mask`, by halving.
pub open spec fn popcount(mask: nat) -> nat
    decreases mask,
{
    if mask == 0 {
        0
    } else {
        (mask % 2) + popcount(mask / 2)
    }
}

/// A 4×4 occupancy pattern. Cell `k` stands in row `k / 4` and column `k % 4`
/// and is bit `k` of `mask`, so the scan order of the cells is the order of
/// the bits from the least significant one.
#[derive(Clone, Copy, Debug, PartialEq, Eq, Structural)]
pub struct Shape {
    pub mask: u16,
}

impl Shape {
    /// Whether cell `k` holds a tile.
    pub open spec fn occupied(&self, k: int) -> bool {
        0 <= k < CELLS && bit(self.mask as nat, k as nat)
    }

    /// The number of occupied cells that come before cell `k` in scan order.
    pub open spec fn rank(&self, k: int) -> nat {
        bits_below(self.mask as nat, k as nat)
    }

    /// The number of occupied cells.
    pub open spec fn count(&self) -> nat {
        bits_below(self.mask as nat, CELLS as nat)
    }

    /// The shape with the given occupancy mask.
    pub fn new(mask: u16) -> (shape: Shape)
        ensures
            shape.mask == mask,
    {
        Shape { mask }
    }

    /// Whether the cell with index `cell` holds a tile.
    pub fn is_occupied(&self, cell: usize) -> (held: bool)
        requires
            cell < CELLS,
        ensures
            held == self.occupied(cell as int),
    {
        proof {
            lemma_u16_shr_is_div(self.mask, cell as u16);
        }
        (self.mask >> (cell as u16)) % 2 == 1
    }

    /// The number of occupied cells.
    pub fn filled(&self) -> (n: usize)
        ensures
            n == self.count(),
            n <= CELLS,
    {
        let mut n: usize = 0;
        let mut k: usize = 0;
        while k < CELLS
            invariant
                k <= CELLS,
                n <= k,
                n == bits_below(self.mask as nat, k as nat),
            decreases CELLS - k,
        {
            if self.is_occupied(k) {
                n += 1;
            }
            k += 1;
        }
        n
    }

    /// The shape that holds a tile exactly in the cells marked `true`.
    pub fn from_cells(held: &[bool; 16]) -> (shape: Shape)
        ensures
            forall|k: int| 0 <= k < CELLS ==> shape.occupied(k) == held[k],
    {
        let mut mask: u16 = 0;
        let mut k: usize = CELLS;
        proof {
            lemma2_to64();
        }
        while k > 0
            invariant
                k <= CELLS,
                mask < pow2((CELLS - k) as nat),
                forall|j: int| k <= j < CELLS ==> bit(mask as nat, (j - k) as nat) == held[j],
            decreases k,
        {
            let ghost before = mask;
            let ghost above = k;
            k -= 1;
            proof {
                lemma2_to64();
                lemma_pow2_unfold((CELLS - k) as nat);
                if k > 0 {
                    lemma_pow2_strictly_increases((CELLS - k) as nat, CELLS as nat);
                }
            }
            mask = mask * 2 + if held[k] {
                1
            } else {
                0
            };
            proof {
                assert forall|j: int| k <= j < CELLS implies bit(mask as nat, (j - k) as nat)
                    == held[j] by {
                    lemma_bit_double(before as nat, held[k as int], (j - k) as nat);
                    if j > k {
                        assert(bit(before as nat, (j - above) as nat) == held[j]);
                    }
                }
            }
        }
        Shape { mask }
    }

    /// For each cell in scan order, whether it holds a tile.
    pub fn cells(&self) -> (held: [bool; 16])
        ensures
            forall|k: int| 0 <= k < CELLS ==> held[k] == self.occupied(k),
    {
        let mut held = [false; 16];
        let mut k: usize = 0;
        while k < CELLS
            invariant
                k <= CELLS,
                forall|j: int| 0 <= j < k ==> held[j] == self.occupied(j),
            decreases CELLS - k,
        {
            held[k] = self.is_occupied(k);
            k += 1;
        }
        held
    }
}

/// The lowest bit is the parity.
pub proof fn lemma_bit_zero(mask: nat)
    ensures
        bit(mask, 0) == (mask % 2 == 1),
{
    lemma2_to64();
}

/// Bit `k + 1` of a number is bit `k` of its half.
pub proof fn lemma_bit_halve(mask: nat, k: nat)
    ensures
        bit(mask, k + 1) == bit(mask / 2, k),
{
    lemma_pow2_unfold(k + 1);
    lemma_pow2_pos(k);
    lemma_div_denominator(mask as int, 2, pow2(k) as int);
}

/// The bits of `2 * half + low`, where `low` is one bit.
pub proof fn lemma_bit_double(half: nat, low: bool, k: nat)
    ensures
        bit(
            2 * half + if low {
                1nat
            } else {
                0nat
            },
            k,
        ) == if k == 0 {
            low
        } else {
            bit(half, (k - 1) as nat)
        },
{
    let whole = 2 * half + if low {
        1nat
    } else {
        0nat
    };
    assert(whole / 2 == half);
    if k == 0 {
        lemma_bit_zero(whole);
    } else {
        lemma_bit_halve(whole, (k - 1) as nat);
    }
}

/// Two numbers below `2^n` with the same bits are the same number.
pub proof fn lemma_bits_determine(a: nat, b: nat, n: nat)
    requires
        a < pow2(n),
        b < pow2(n),
        forall|k: nat| k < n ==> bit(a, k) == bit(b, k),
    ensures
        a == b,
    decreases n,
{
    lemma2_to64();
    if n > 0 {
        lemma_pow2_unfold(n);
        let half_a = a / 2;
        let half_b = b / 2;
        assert forall|k: nat| k < n - 1 implies bit(half_a, k) == bit(half_b, k) by {
            lemma_bit_halve(a, k);
            lemma_bit_halve(b, k);
            assert(bit(a, k + 1) == bit(b, k + 1));
        }
        lemma_bits_determine(half_a, half_b, (n - 1) as nat);
        lemma_bit_zero(a);
        lemma_bit_zero(b);
        assert(bit(a, 0) == bit(b, 0));
    }
}

/// Counting the set bits from the low end or from the high end gives the same.
pub proof fn lemma_bits_below_halve(mask: nat, k: nat)
    ensures
        bits_below(mask, k + 1) == bits_below(mask / 2, k) + if mask % 2 == 1 {
            1nat
        } else {
            0nat
        },
    decreases k,
{
    if k == 0 {
        lemma_bit_zero(mask);
        assert(bits_below(mask, 0) == 0);
        assert(bits_below(mask / 2, 0) == 0);
    } else {
        lemma_bits_below_halve(mask, (k - 1) as nat);
        lemma_bit_halve(mask, (k - 1) as nat);
    }
}

/// The set bits of a number below `2^n` are all among its lowest `n` bits.
pub proof fn lemma_bits_below_is_popcount(mask: nat, n: nat)
    requires
        mask < pow2(n),
    ensures
        bits_below(mask, n) == popcount(mask),
    decreases n,
{
    lemma2_to64();
    if n == 0 {
    } else {
        lemma_pow2_unfold(n);
        lemma_bits_below_is_popcount(mask / 2, (n - 1) as nat);
        lemma_bits_below_halve(mask, (n - 1) as nat);
    }
}

/// Shapes with the same occupied cells are equal.
pub proof fn lemma_shape_by_cells(a: Shape, b: Shape)
    requires
        forall|k: int| 0 <= k < CELLS ==> a.occupied(k) == b.occupied(k),
    ensures
        a == b,
{
    lemma2_to64();
    assert forall|k: nat| k < 16 implies bit(a.mask as nat, k) == bit(b.mask as nat, k) by {
        assert(a.occupied(k as int) == b.occupied(k as int));
    }
    lemma_bits_determine(a.mask as nat, b.mask as nat, 16);
}

/// The number of occupied cells of a shape is the population count of its mask.
pub proof fn lemma_count_is_popcount(shape: Shape)
    ensures
        shape.count() == popcount(shape.mask as nat),
        shape.count() <= CELLS,
{
    lemma2_to64();
    lemma_bits_below_is_popcount(shape.mask as nat, 16);
    lemma_bits_below_bound(shape.mask as nat, 16);
}

/// At most `k` of the lowest `k` bits are set, and the count grows with `k`.
pub proof fn lemma_bits_below_bound(mask: nat, k: nat)
    ensures
        bits_below(mask, k) <= k,
    decreases k,
{
    if k > 0 {
        lemma_bits_below_bound(mask, (k - 1) as nat);
    }
}

/// For every choice of sixteen cells there is a mask that has exactly the
/// bits of the chosen cells.
pub proof fn lemma_mask_exists(held: Seq<bool>) -> (mask: u16)
    requires
        held.len() == CELLS,
    ensures
        forall|k: int| 0 <= k < CELLS ==> bit(mask as nat, k as nat) == held[k],
{
    lemma2_to64();
    let m = lemma_mask_of(held, 0);
    assert forall|k: int| 0 <= k < CELLS implies bit(m, k as nat) == held[k] by {
        assert(bit(m, k as nat) == held[0 + (k as nat) as int]);
    }
    m as u16
}

/// A number below `2^(16 - from)` whose bit `j` is the choice for cell
/// `from + j`.
proof fn lemma_mask_of(held: Seq<bool>, from: int) -> (mask: nat)
    requires
        held.len() == CELLS,
        0 <= from <= CELLS,
    ensures
        mask < pow2((CELLS - from) as nat),
        forall|j: nat| j < CELLS - from ==> #[trigger] bit(mask, j) == held[from + j],
    decreases CELLS - from,
{
    lemma2_to64();
    if from == CELLS {
        0
    } else {
        let rest = lemma_mask_of(held, from + 1);
        lemma_pow2_unfold((CELLS - from) as nat);
        let mask = 2 * rest + if held[from] {
            1nat
        } else {
            0nat
        };
        assert forall|j: nat| j < CELLS - from implies #[trigger] bit(mask, j) == held[from
            + j] by {
            lemma_bit_double(rest, held[from], j);
            if j > 0 {
                assert(bit(rest, (j - 1) as nat) == held[from + 1 + (j - 1)]);
            }
        }
        mask
    }
}

} // verus!
