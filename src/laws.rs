//! Properties that hold across calls of the allocator, proved from the
//! contracts of its operations.
use crate::model::{
    bit_of, block_end, block_start, consistent, level_base, level_len, lemma_bit_index, lemma_layout,
    lemma_nonempty, lemma_overlap_above, lemma_same_level, occupied, overlap, valid_block, Block,
};
use crate::tree::{lemma_occupied_other, lemma_occupied_up, lemma_path_compose, RawBuddies};
use vstd::arithmetic::power2::{lemma_pow2_pos, pow2};
use vstd::prelude::*;
use vstd::set_lib::{lemma_int_range, lemma_len_subset, lemma_map_size, set_int_range};

verus! {

/// Every bit of the region but the last belongs to exactly one level.
proof fn lemma_find_level(num: nat, k: int, c: nat) -> (r: (nat, nat))
    requires
        1 <= num,
        c < num,
        level_base(num, c) <= k < pow2(num) - 1,
    ensures
        valid_block(num, r),
        level_base(num, r.0) + r.1 == k,
    decreases num - c,
{
    lemma_layout(num, c);
    if k < level_base(num, (c + 1) as nat) {
        (c, (k - level_base(num, c)) as nat)
    } else {
        if c + 1 == num {
            lemma_pow2_pos(0);
            vstd::arithmetic::power2::lemma2_to64();
        }
        lemma_find_level(num, k, (c + 1) as nat)
    }
}

/// The set of live allocations fixes the whole bit region.
proof fn lemma_bitmap_determined(num: nat, b1: Seq<bool>, b2: Seq<bool>, l1: Set<Block>, l2: Set<Block>)
    requires
        consistent(num, b1, l1),
        consistent(num, b2, l2),
        forall|b: nat, j: nat| valid_block(num, (b, j)) ==> occupied(l1, b, j) ==> occupied(l2, b, j),
    ensures
        forall|k: int| 0 <= k < b1.len() ==> #[trigger] b1[k] ==> b2[k],
{
    assert forall|k: int| 0 <= k < b1.len() implies #[trigger] b1[k] ==> b2[k] by {
        if k < pow2(num) - 1 {
            lemma_pow2_pos(num);
            vstd::arithmetic::power2::lemma2_to64();
            let blk = lemma_find_level(num, k, 0);
            assert(bit_of(num, b1, blk.0, blk.1) == b1[k]);
            assert(bit_of(num, b2, blk.0, blk.1) == b2[k]);
        }
    }
}

/// Disjointness: two distinct live allocations cover disjoint element
/// ranges.
pub proof fn lemma_disjoint<T>(t: &RawBuddies<T>, a: Block, c: Block)
    requires
        t.wf(),
        t.allocations().contains(a),
        t.allocations().contains(c),
        a != c,
    ensures
        block_end(a) <= block_start(c) || block_end(c) <= block_start(a),
{
}

/// Round trip: allocating a free block and then freeing it gives back the
/// bit region as it was.
pub proof fn lemma_round_trip<T>(
    before: &RawBuddies<T>,
    mid: &RawBuddies<T>,
    after: &RawBuddies<T>,
    n: nat,
    i: nat,
)
    requires
        before.wf(),
        mid.wf(),
        after.wf(),
        mid.levels() == before.levels(),
        after.levels() == before.levels(),
        valid_block(before.levels(), (n, i)),
        !before.marked(n, i),
        mid.allocations() == before.allocations().insert((n, i)),
        after.allocations() == mid.allocations().remove((n, i)),
    ensures
        after.bitmap() == before.bitmap(),
{
    lemma_nonempty((n, i));
    assert(!before.allocations().contains((n, i)));
    assert(after.allocations() =~= before.allocations());
    let num = before.levels();
    lemma_bitmap_determined(num, before.bitmap(), after.bitmap(), before.allocations(), after.allocations());
    lemma_bitmap_determined(num, after.bitmap(), before.bitmap(), after.allocations(), before.allocations());
    assert(after.bitmap() =~= before.bitmap());
}

/// Full coalescing: with no live allocation, every bit is clear.
pub proof fn lemma_all_free<T>(t: &RawBuddies<T>)
    requires
        t.wf(),
        t.allocations() == Set::<Block>::empty(),
    ensures
        forall|k: int| 0 <= k < t.bitmap().len() ==> !#[trigger] t.bitmap()[k],
{
    let num = t.levels();
    let zeros = Seq::new(pow2(num), |k: int| false);
    assert forall|b: nat, j: nat| valid_block(num, (b, j)) implies #[trigger] bit_of(num, zeros, b, j)
        == occupied(Set::<Block>::empty(), b, j) by {
        lemma_bit_index(num, b, j, b, j);
    }
    lemma_pow2_pos(num);
    lemma_bitmap_determined(num, t.bitmap(), zeros, t.allocations(), Set::<Block>::empty());
}

/// Capacity: when every live allocation has size `n`, there are at most
/// `2^(num - n - 1)` of them, and another fits iff there are fewer.
pub proof fn lemma_capacity<T>(t: &RawBuddies<T>, n: nat)
    requires
        t.wf(),
        n < t.levels(),
        forall|a: Block| #[trigger] t.allocations().contains(a) ==> a.0 == n,
    ensures
        t.allocations().len() <= level_len(t.levels(), n),
        t.has_free(n) <==> t.allocations().len() < level_len(t.levels(), n),
{
    let num = t.levels();
    let l = level_len(num, n);
    let live = t.allocations();
    let f = |j: int| (n, j as nat);
    let full = set_int_range(0, l as int).map(f);
    lemma_int_range(0, l as int);
    assert(full =~= Set::new(|a: Block| a.0 == n && a.1 < l)) by {
        assert forall|a: Block| a.0 == n && a.1 < l implies full.contains(a) by {
            assert(set_int_range(0, l as int).contains(a.1 as int));
            assert(f(a.1 as int) == a);
        }
    }
    lemma_map_size(set_int_range(0, l as int), full, f);
    assert(live.subset_of(full));
    lemma_len_subset(live, full);
    // a size-n block is busy iff it is itself live
    assert forall|j: nat| j < l implies #[trigger] t.marked(n, j) == live.contains((n, j)) by {
        lemma_nonempty((n, j));
        if occupied(live, n, j) {
            let a = choose|a: Block| #[trigger] live.contains(a) && overlap(a, (n, j));
            if a.1 != j {
                lemma_same_level(n, a.1, j);
            }
        }
    }
    if t.has_free(n) {
        let j = choose|j: nat| j < l && !#[trigger] t.marked(n, j);
        assert(live.subset_of(full.remove((n, j))));
        lemma_len_subset(live, full.remove((n, j)));
    }
    if live.len() < l {
        if !t.has_free(n) {
            assert(full.subset_of(live)) by {
                assert forall|a: Block| full.contains(a) implies live.contains(a) by {
                    assert(!t.marked(n, a.1) ==> t.has_free(n));
                }
            }
            lemma_len_subset(full, live);
        }
    }
}

/// Exhaustion: `can_allocate(n)` answers false exactly when `allocate(n)`
/// on the same state finds nothing.
pub proof fn lemma_exhaustion<T>(t: &RawBuddies<T>, n: nat, can: bool, r: Option<(usize, usize)>)
    requires
        t.wf(),
        n < t.levels(),
        can == t.has_free(n),
        r is None <==> !t.has_free(n),
    ensures
        !can <==> r is None,
{
}

/// Selection order: when the live allocations are the size-`n` blocks
/// `0 .. k`, the lowest free size-`n` position is `k`.
pub proof fn lemma_selection_order<T>(t: &RawBuddies<T>, n: nat, k: nat)
    requires
        t.wf(),
        n < t.levels(),
        k < level_len(t.levels(), n),
        t.allocations() == Set::new(|a: Block| a.0 == n && a.1 < k),
    ensures
        !t.marked(n, k),
        forall|j: nat| j < k ==> #[trigger] t.marked(n, j),
{
    let live = t.allocations();
    assert forall|j: nat| j < k implies #[trigger] t.marked(n, j) by {
        lemma_nonempty((n, j));
        assert(live.contains((n, j)));
    }
    if occupied(live, n, k) {
        let a = choose|a: Block| #[trigger] live.contains(a) && overlap(a, (n, k));
        lemma_same_level(n, a.1, k);
    }
}

/// Monotone under allocation: adding an allocation clears no bit.
pub proof fn lemma_allocate_monotone<T>(before: &RawBuddies<T>, after: &RawBuddies<T>, a: Block)
    requires
        before.wf(),
        after.wf(),
        after.levels() == before.levels(),
        after.allocations() == before.allocations().insert(a),
    ensures
        forall|k: int| 0 <= k < before.bitmap().len() ==> #[trigger] before.bitmap()[k] ==> after.bitmap()[k],
{
    let num = before.levels();
    assert forall|b: nat, j: nat| valid_block(num, (b, j)) && occupied(before.allocations(), b, j) implies occupied(after.allocations(), b, j) by {
        let c = choose|c: Block| #[trigger] before.allocations().contains(c) && overlap(c, (b, j));
        assert(after.allocations().contains(c));
    }
    lemma_bitmap_determined(num, before.bitmap(), after.bitmap(), before.allocations(), after.allocations());
}

/// The other half of a level-`n` block.
pub open spec fn sibling(i: nat) -> nat {
    if i % 2 == 0 {
        i + 1
    } else {
        (i - 1) as nat
    }
}

/// Sibling lock: freeing a block whose other half is in use leaves every
/// bit above its level as it was.
pub proof fn lemma_sibling_lock<T>(before: &RawBuddies<T>, after: &RawBuddies<T>, n: nat, i: nat)
    requires
        before.wf(),
        after.wf(),
        after.levels() == before.levels(),
        n + 1 < before.levels(),
        before.allocations().contains((n, i)),
        before.marked(n, sibling(i)),
        after.allocations() == before.allocations().remove((n, i)),
    ensures
        forall|b: nat, j: nat|
            n < b && valid_block(before.levels(), (b, j)) ==> #[trigger] after.marked(b, j)
                == before.marked(b, j),
{
    let num = before.levels();
    let s = sibling(i);
    let l0 = before.allocations();
    let l1 = after.allocations();
    assert(valid_block(num, (n, i)));
    assert(level_len(num, n) % 2 == 0) by {
        vstd::arithmetic::power2::lemma_pow2_unfold((num - n - 1) as nat);
    }
    assert(valid_block(num, (n, s)));
    lemma_same_level(n, i, s);
    lemma_occupied_other(l0, l1, (n, i), n, s);
    assert(occupied(l1, n, s));
    assert forall|b: nat, j: nat| n < b && valid_block(num, (b, j)) implies #[trigger] after.marked(b, j)
        == before.marked(b, j) by {
        lemma_overlap_above(n, i, b, j);
        if !overlap((n, i), (b, j)) {
            lemma_occupied_other(l0, l1, (n, i), b, j);
        } else {
            let d = (b - n) as nat;
            lemma_occupied_up(l1, n, s, b);
            vstd::arithmetic::power2::lemma2_to64();
            lemma_path_compose(s, 1, (d - 1) as nat);
            lemma_path_compose(i, 1, (d - 1) as nat);
            assert((1 + (d - 1) as nat) as nat == d);
            assert(s / 2 == i / 2);
            lemma_nonempty((n, i));
            lemma_occupied_up(l0, n, i, b);
        }
    }
}

} // verus!
