//! The exhaustive catalog: every occupancy mask, grouped by its number of
//! tiles, in ascending order of the masks.

use vstd::prelude::*;
use vstd::arithmetic::power2::{pow2, lemma_pow2_pos, lemma_pow2_unfold, lemma2_to64};
use crate::catalog::{
    Catalog, Entry, Group, GroupView, answers, first_id, group_holding, groups_view,
    has_id, is_first, lemma_group_holding_range, lemma_total_step, total, well_formed,
};
use crate::shape::{CELLS, Shape, popcount, lemma_count_is_popcount};

verus! {

/// The number of ways to choose `k` of `n` things.
pub open spec fn binomial(n: nat, k: nat) -> nat
    decreases n,
{
    if k == 0 {
        1
    } else if n == 0 {
        0
    } else {
        binomial((n - 1) as nat, (k - 1) as nat) + binomial((n - 1) as nat, k)
    }
}

/// The number of masks `base + i` with `i < len` that have `t` bits set.
pub open spec fn masks_between(base: nat, len: nat, t: nat) -> nat
    decreases len,
{
    if len == 0 {
        0
    } else {
        masks_between(base, (len - 1) as nat, t) + if popcount((base + len - 1) as nat) == t {
            1nat
        } else {
            0nat
        }
    }
}

/// The number of masks below `bound` that have `t` bits set.
pub open spec fn masks_below(bound: nat, t: nat) -> nat {
    masks_between(0, bound, t)
}

/// The number of masks below `bound` that have fewer than `n` bits set.
pub open spec fn masks_under(bound: nat, n: nat) -> nat
    decreases bound,
{
    if bound == 0 {
        0
    } else {
        masks_under((bound - 1) as nat, n) + if popcount((bound - 1) as nat) < n {
            1nat
        } else {
            0nat
        }
    }
}

/// A run of masks splits in two.
pub proof fn lemma_masks_split(base: nat, first: nat, second: nat, t: nat)
    ensures
        masks_between(base, first + second, t) == masks_between(base, first, t) + masks_between(
            base + first,
            second,
            t,
        ),
    decreases second,
{
    if second > 0 {
        lemma_masks_split(base, first, (second - 1) as nat, t);
    }
}

/// A mask with the bit `n` on top of a mask below `2^n` has one bit more.
pub proof fn lemma_popcount_high(n: nat, low: nat)
    requires
        low < pow2(n),
    ensures
        popcount(pow2(n) + low) == 1 + popcount(low),
    decreases n,
{
    lemma2_to64();
    if n == 0 {
        assert(low == 0);
        assert(popcount(1) == 1 + popcount(0)) by {
            assert(popcount(0) == 0);
            assert(1nat / 2 == 0);
        }
    } else {
        lemma_pow2_unfold(n);
        lemma_pow2_pos((n - 1) as nat);
        let whole = pow2(n) + low;
        assert(whole / 2 == pow2((n - 1) as nat) + low / 2);
        assert(whole % 2 == low % 2);
        lemma_popcount_high((n - 1) as nat, low / 2);
        if low == 0 {
            assert(popcount(0) == 0);
        }
    }
}

/// Among the masks from `2^n` on there are as many with `t` bits as there
/// are with one bit less among the masks from 0 on.
pub proof fn lemma_masks_high(n: nat, len: nat, t: nat)
    requires
        len <= pow2(n),
    ensures
        masks_between(pow2(n), len, t) == if t == 0 {
            0
        } else {
            masks_below(len, (t - 1) as nat)
        },
    decreases len,
{
    if len > 0 {
        lemma_masks_high(n, (len - 1) as nat, t);
        lemma_popcount_high(n, (len - 1) as nat);
    }
}

/// Of the masks below `2^n`, `binomial(n, t)` have `t` bits set.
pub proof fn lemma_masks_binomial(n: nat, t: nat)
    ensures
        masks_below(pow2(n), t) == binomial(n, t),
    decreases n,
{
    lemma2_to64();
    if n == 0 {
        assert(masks_between(0, 0, t) == 0);
        assert(popcount(0) == 0);
    } else {
        let half = pow2((n - 1) as nat);
        lemma_pow2_unfold(n);
        lemma_masks_split(0, half, half, t);
        lemma_masks_high((n - 1) as nat, half, t);
        lemma_masks_binomial((n - 1) as nat, t);
        if t > 0 {
            lemma_masks_binomial((n - 1) as nat, (t - 1) as nat);
        } else {
            lemma_binomial_zero((n - 1) as nat);
        }
    }
}

/// There is one way to choose nothing.
pub proof fn lemma_binomial_zero(n: nat)
    ensures
        binomial(n, 0) == 1,
{
}

/// The masks with fewer than `n + 1` bits are those with fewer than `n`
/// and those with `n`.
pub proof fn lemma_masks_under_step(bound: nat, n: nat)
    ensures
        masks_under(bound, n + 1) == masks_under(bound, n) + masks_below(bound, n),
        masks_under(bound, 0) == 0,
        masks_under(bound, n) <= bound,
    decreases bound,
{
    if bound > 0 {
        lemma_masks_under_step((bound - 1) as nat, n);
    }
}

/// Every mask below `2^16` has at most 16 bits set.
pub proof fn lemma_masks_under_all(bound: nat)
    requires
        bound <= 0x10000,
    ensures
        masks_under(bound, 17) == bound,
    decreases bound,
{
    if bound > 0 {
        lemma_masks_under_all((bound - 1) as nat);
        lemma_count_is_popcount(Shape { mask: (bound - 1) as u16 });
    }
}

/// There is a way to choose `k` of `n` things where `k` is not above `n`.
pub proof fn lemma_binomial_positive(n: nat, k: nat)
    requires
        k <= n,
    ensures
        binomial(n, k) > 0,
    decreases n,
{
    if k > 0 && n > 0 {
        lemma_binomial_positive((n - 1) as nat, (k - 1) as nat);
    }
}

/// The number of masks: `2^16`.
pub const MASKS: u32 = 0x10000;

/// Whether the entries are the shapes with `t` tiles whose mask is below
/// `bound`, each of them once, in ascending order of the masks, under the
/// ids from `first` on.
pub open spec fn lists_below(entries: Seq<Entry>, t: nat, first: nat, bound: nat) -> bool {
    &&& entries.len() == masks_below(bound, t)
    &&& forall|j: int|
        0 <= j < entries.len() ==> {
            &&& (#[trigger] entries[j]).shape.count() == t
            &&& entries[j].shape.mask < bound
            &&& entries[j].global_id == first + j
        }
    &&& forall|a: int, b: int|
        0 <= a < b < entries.len() ==> (#[trigger] entries[a]).shape.mask < (
        #[trigger] entries[b]).shape.mask
    &&& forall|shape: Shape|
        #[trigger] shape.count() == t && shape.mask < bound ==> exists|j: int|
            0 <= j < entries.len() && (#[trigger] entries[j]).shape == shape
}

/// Whether the groups are the exhaustive catalog: one group for each number
/// of tiles from 0 to 16, which lists all the shapes with that many tiles in
/// ascending order of their masks, with the ids running from 1 on through
/// the groups.
pub open spec fn is_exhaustive(groups: Seq<GroupView>) -> bool {
    &&& groups.len() == CELLS + 1
    &&& forall|t: int|
        0 <= t <= CELLS ==> {
            &&& (#[trigger] groups[t]).t == t
            &&& lists_below(groups[t].entries, t as nat, first_id(groups, t), MASKS as nat)
        }
}

/// The shapes with `t` tiles in ascending order of their masks, under the
/// ids from `first` on.
fn shapes_with(t: usize, first: u64) -> (entries: Vec<Entry>)
    requires
        t <= CELLS,
        first <= 2 * MASKS,
    ensures
        lists_below(entries@, t as nat, first as nat, MASKS as nat),
{
    let mut entries: Vec<Entry> = Vec::new();
    let mut m: u32 = 0;
    while m < MASKS
        invariant
            m <= MASKS,
            t <= CELLS,
            first <= 2 * MASKS,
            entries@.len() <= m,
            lists_below(entries@, t as nat, first as nat, m as nat),
        decreases MASKS - m,
    {
        let shape = Shape::new(m as u16);
        let ghost before = entries@;
        proof {
            lemma_count_is_popcount(shape);
        }
        if shape.filled() == t {
            entries.push(Entry { global_id: first + entries.len() as u64, shape });
            proof {
                let after = entries@;
                assert forall|other: Shape| #[trigger]
                    other.count() == t && other.mask < m + 1 implies exists|j: int|
                    0 <= j < after.len() && (#[trigger] after[j]).shape == other by {
                    if other.mask < m {
                        let j = choose|j: int|
                            0 <= j < before.len() && (#[trigger] before[j]).shape == other;
                        assert(after[j].shape == other);
                    } else {
                        assert(after[after.len() - 1].shape == other);
                    }
                }
                assert forall|j: int| 0 <= j < after.len() implies {
                    &&& (#[trigger] after[j]).shape.count() == t
                    &&& after[j].shape.mask < m + 1
                    &&& after[j].global_id == first + j
                } by {
                    if j < before.len() {
                        assert(after[j] == before[j]);
                    }
                }
                assert forall|a: int, b: int| 0 <= a < b < after.len() implies (
                #[trigger] after[a]).shape.mask < (#[trigger] after[b]).shape.mask by {
                    assert(after[a] == before[a]);
                    if b < before.len() {
                        assert(after[b] == before[b]);
                    }
                }
            }
        } else {
            proof {
                assert forall|other: Shape| #[trigger]
                    other.count() == t && other.mask < m + 1 implies exists|j: int|
                    0 <= j < before.len() && (#[trigger] before[j]).shape == other by {
                    assert(other.mask != m) by {
                        if other.mask == m {
                            assert(other == shape);
                        }
                    }
                }
            }
        }
        m += 1;
    }
    entries
}

impl Catalog {
    /// Builds the exhaustive catalog: for each number of tiles from 0 to 16
    /// every mask with that many bits, in ascending order, with the ids
    /// given out in sequence from 1 on.
    pub fn build() -> (catalog: Catalog)
        ensures
            catalog.wf(),
            is_exhaustive(catalog@),
            total(catalog@) == MASKS,
            forall|t: int|
                0 <= t <= CELLS ==> (#[trigger] catalog@[t]).entries.len() == binomial(
                    CELLS as nat,
                    t as nat,
                ),
    {
        let mut groups: Vec<Group> = Vec::new();
        let mut t: usize = 0;
        let mut next: u64 = 1;
        proof {
            lemma_masks_under_step(MASKS as nat, 0);
        }
        while t <= CELLS
            invariant
                t <= CELLS + 1,
                groups@.len() == t,
                next == 1 + total(groups_view(groups@)),
                total(groups_view(groups@)) == masks_under(MASKS as nat, t as nat),
                forall|g: int|
                    0 <= g < t ==> {
                        &&& (#[trigger] groups_view(groups@)[g]).t == g
                        &&& lists_below(
                            groups_view(groups@)[g].entries,
                            g as nat,
                            first_id(groups_view(groups@), g),
                            MASKS as nat,
                        )
                    },
            decreases CELLS + 1 - t,
        {
            let ghost before = groups_view(groups@);
            proof {
                lemma_masks_under_step(MASKS as nat, t as nat);
                lemma_masks_under_step(MASKS as nat, (t + 1) as nat);
            }
            let entries = shapes_with(t, next);
            next = next + entries.len() as u64;
            groups.push(Group { t: t as u32, entries });
            proof {
                let after = groups_view(groups@);
                assert(after.drop_last() =~= before);
                assert(after.take(t as int) =~= before);
                assert forall|g: int| 0 <= g < t + 1 implies {
                    &&& (#[trigger] after[g]).t == g
                    &&& lists_below(after[g].entries, g as nat, first_id(after, g), MASKS as nat)
                } by {
                    if g < t {
                        assert(after[g] == before[g]);
                        assert(after.take(g) =~= before.take(g));
                    }
                }
            }
            t += 1;
        }
        let catalog = Catalog { groups };
        proof {
            let view = catalog@;
            lemma2_to64();
            lemma_masks_under_all(MASKS as nat);
            assert forall|g: int| 0 <= g <= CELLS implies (#[trigger] view[g]).entries.len()
                == binomial(CELLS as nat, g as nat) && view[g].entries.len() > 0 by {
                lemma_masks_binomial(CELLS as nat, g as nat);
                lemma_binomial_positive(CELLS as nat, g as nat);
            }
            assert forall|i: int, j: int| 0 <= i < j < view.len() implies view[i].t
                < view[j].t by {
                assert(view[i].t == i);
                assert(view[j].t == j);
            }
        }
        catalog
    }
}

/// The groups of the exhaustive catalog before group `t` hold the masks with
/// fewer than `t` bits.
proof fn lemma_exhaustive_prefix(groups: Seq<GroupView>, t: int)
    requires
        is_exhaustive(groups),
        0 <= t <= CELLS + 1,
    ensures
        total(groups.take(t)) == masks_under(MASKS as nat, t as nat),
    decreases t,
{
    if t == 0 {
        assert(groups.take(0) =~= Seq::<GroupView>::empty());
        lemma_masks_under_step(MASKS as nat, 0);
    } else {
        lemma_exhaustive_prefix(groups, t - 1);
        lemma_total_step(groups, t - 1);
        lemma_masks_under_step(MASKS as nat, (t - 1) as nat);
        assert(lists_below(
            groups[t - 1].entries,
            (t - 1) as nat,
            first_id(groups, t - 1),
            MASKS as nat,
        ));
    }
}

/// The exhaustive catalog lists `binomial(16, t)` shapes with `t` tiles and
/// `2^16` shapes in all, and it is a catalog in order.
pub proof fn lemma_exhaustive_counts(groups: Seq<GroupView>)
    requires
        is_exhaustive(groups),
    ensures
        forall|t: int|
            0 <= t <= CELLS ==> (#[trigger] groups[t]).entries.len() == binomial(
                CELLS as nat,
                t as nat,
            ),
        total(groups) == MASKS,
        well_formed(groups),
{
    lemma2_to64();
    assert forall|t: int| 0 <= t <= CELLS implies (#[trigger] groups[t]).entries.len()
        == binomial(CELLS as nat, t as nat) && groups[t].entries.len() > 0 by {
        lemma_masks_binomial(CELLS as nat, t as nat);
        lemma_binomial_positive(CELLS as nat, t as nat);
    }
    lemma_exhaustive_prefix(groups, CELLS as int + 1);
    assert(groups.take(CELLS as int + 1) =~= groups);
    lemma_masks_under_all(MASKS as nat);
    assert forall|i: int, j: int| 0 <= i < j < groups.len() implies groups[i].t < groups[j].t by {
        assert(groups[i].t == i);
        assert(groups[j].t == j);
    }
}

/// In the exhaustive catalog the ids run from 1 to `2^16` without a gap and
/// without a double: each of them is carried by one entry, in the group
/// whose range holds it, and the lookup of the id gives that entry.
pub proof fn lemma_exhaustive_ids(groups: Seq<GroupView>, id: u64) -> (entry: Entry)
    requires
        is_exhaustive(groups),
        1 <= id <= MASKS,
    ensures
        entry.global_id == id,
        answers(groups, id, Ok(entry)),
        forall|t: int, j: int|
            0 <= t <= CELLS && 0 <= j < groups[t].entries.len() && (
            #[trigger] groups[t].entries[j]).global_id == id ==> groups[t].entries[j] == entry
                && t == group_holding(groups, id as nat),
{
    lemma_exhaustive_counts(groups);
    lemma_group_holding_range(groups, id as nat);
    let g = group_holding(groups, id as nat);
    lemma_total_step(groups, g);
    let entries = groups[g].entries;
    assert(lists_below(entries, g as nat, first_id(groups, g), MASKS as nat));
    let at = id - first_id(groups, g);
    let entry = entries[at];
    assert(entry.global_id == id);
    assert forall|j: int| 0 <= j < at implies !has_id(id)(#[trigger] entries[j]) by {
        assert(entries[j].global_id == first_id(groups, g) + j);
    }
    assert(is_first(entries, has_id(id), Some(entry)));
    assert forall|t: int, j: int|
        0 <= t <= CELLS && 0 <= j < groups[t].entries.len() && (
        #[trigger] groups[t].entries[j]).global_id == id implies groups[t].entries[j] == entry
        && t == g by {
        assert(lists_below(groups[t].entries, t as nat, first_id(groups, t), MASKS as nat));
        lemma_total_step(groups, t);
        lemma_total_ordered(groups, t, g);
    }
    entry
}

/// The totals of the groups before a place grow with the place.
proof fn lemma_total_ordered(groups: Seq<GroupView>, a: int, b: int)
    requires
        0 <= a < groups.len(),
        0 <= b < groups.len(),
    ensures
        a < b ==> total(groups.take(a + 1)) <= total(groups.take(b)),
        b < a ==> total(groups.take(b + 1)) <= total(groups.take(a)),
{
    if a < b {
        crate::catalog::lemma_total_split(groups.take(b), a + 1);
        assert(groups.take(b).take(a + 1) =~= groups.take(a + 1));
    }
    if b < a {
        crate::catalog::lemma_total_split(groups.take(a), b + 1);
        assert(groups.take(a).take(b + 1) =~= groups.take(b + 1));
    }
}

/// There is no way to choose more than there is.
pub proof fn lemma_binomial_beyond(n: nat, k: nat)
    requires
        k > n,
    ensures
        binomial(n, k) == 0,
    decreases n,
{
    if n > 0 {
        lemma_binomial_beyond((n - 1) as nat, (k - 1) as nat);
        lemma_binomial_beyond((n - 1) as nat, k);
    }
}

/// The fourth row of the triangle of binomials.
proof fn lemma_binomials_of_four()
    ensures
        binomial(4, 0) == 1,
        binomial(4, 1) == 4,
        binomial(4, 2) == 6,
        binomial(4, 3) == 4,
        binomial(4, 4) == 1,
{
    reveal_with_fuel(binomial, 6);
}

/// The eighth row of the triangle of binomials.
proof fn lemma_binomials_of_eight()
    ensures
        binomial(8, 0) == 1,
        binomial(8, 1) == 8,
        binomial(8, 2) == 28,
        binomial(8, 3) == 56,
        binomial(8, 4) == 70,
        binomial(8, 5) == 56,
        binomial(8, 6) == 28,
        binomial(8, 7) == 8,
        binomial(8, 8) == 1,
{
    lemma_binomials_of_four();
    lemma_binomial_beyond(4, 5);
    lemma_binomial_beyond(4, 6);
    lemma_binomial_beyond(4, 7);
    lemma_binomial_beyond(4, 8);
    reveal_with_fuel(binomial, 5);
}

/// The twelfth row of the triangle of binomials.
proof fn lemma_binomials_of_twelve()
    ensures
        binomial(12, 0) == 1,
        binomial(12, 1) == 12,
        binomial(12, 2) == 66,
        binomial(12, 3) == 220,
        binomial(12, 4) == 495,
        binomial(12, 5) == 792,
        binomial(12, 6) == 924,
        binomial(12, 7) == 792,
        binomial(12, 8) == 495,
        binomial(12, 9) == 220,
        binomial(12, 10) == 66,
        binomial(12, 11) == 12,
        binomial(12, 12) == 1,
{
    lemma_binomials_of_eight();
    lemma_binomial_beyond(8, 9);
    lemma_binomial_beyond(8, 10);
    lemma_binomial_beyond(8, 11);
    lemma_binomial_beyond(8, 12);
    reveal_with_fuel(binomial, 5);
}

/// The sizes of the seventeen groups of the exhaustive catalog.
pub proof fn lemma_binomials_of_sixteen()
    ensures
        binomial(16, 0) == 1,
        binomial(16, 1) == 16,
        binomial(16, 2) == 120,
        binomial(16, 3) == 560,
        binomial(16, 4) == 1820,
        binomial(16, 5) == 4368,
        binomial(16, 6) == 8008,
        binomial(16, 7) == 11440,
        binomial(16, 8) == 12870,
        binomial(16, 9) == 11440,
        binomial(16, 10) == 8008,
        binomial(16, 11) == 4368,
        binomial(16, 12) == 1820,
        binomial(16, 13) == 560,
        binomial(16, 14) == 120,
        binomial(16, 15) == 16,
        binomial(16, 16) == 1,
{
    lemma_binomials_of_twelve();
    lemma_binomial_beyond(12, 13);
    lemma_binomial_beyond(12, 14);
    lemma_binomial_beyond(12, 15);
    lemma_binomial_beyond(12, 16);
    reveal_with_fuel(binomial, 5);
}

} // verus!
