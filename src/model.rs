//! The mathematical model of the bit tree: block geometry, the per-level
//! layout of the bit region, and what each bit means.
use vstd::arithmetic::div_mod::{lemma_div_denominator, lemma_fundamental_div_mod};
use vstd::arithmetic::power2::{lemma_pow2_adds, lemma_pow2_pos, lemma_pow2_strictly_increases, pow2};
use vstd::prelude::*;

verus! {

/// A block: `(n, i)` is the size-`n` block at level-`n` position `i`.
pub type Block = (nat, nat);

/// Number of positions at level `n` of a tree with `num` levels.
pub open spec fn level_len(num: nat, n: nat) -> nat {
    pow2((num - n - 1) as nat)
}

/// Index of the first bit of level `n` in the bit region.
pub open spec fn level_base(num: nat, n: nat) -> int {
    pow2(num) - pow2((num - n) as nat)
}

/// A block that exists in a tree with `num` levels.
pub open spec fn valid_block(num: nat, blk: Block) -> bool {
    blk.0 < num && blk.1 < level_len(num, blk.0)
}

/// First element covered by a block.
pub open spec fn block_start(blk: Block) -> int {
    (blk.1 * pow2(blk.0)) as int
}

/// One past the last element covered by a block.
pub open spec fn block_end(blk: Block) -> int {
    ((blk.1 + 1) * pow2(blk.0)) as int
}

/// The element ranges of two blocks intersect.
pub open spec fn overlap(x: Block, y: Block) -> bool {
    block_start(x) < block_end(y) && block_start(y) < block_end(x)
}

/// The element range of `x` lies inside that of `y`.
pub open spec fn within(x: Block, y: Block) -> bool {
    block_start(y) <= block_start(x) && block_end(x) <= block_end(y)
}

/// Some live allocation overlaps block `(b, j)`.
pub open spec fn occupied(live: Set<Block>, b: nat, j: nat) -> bool {
    exists|a: Block| #[trigger] live.contains(a) && overlap(a, (b, j))
}

/// The bit of block `(b, j)` in a bit region.
pub open spec fn bit_of(num: nat, bits: Seq<bool>, b: nat, j: nat) -> bool {
    bits[level_base(num, b) + j]
}

/// The bit region describes exactly the set `live` of allocations: a bit is
/// set iff its block overlaps a live allocation, the one unused bit is clear,
/// and live allocations are valid and pairwise disjoint.
pub open spec fn consistent(num: nat, bits: Seq<bool>, live: Set<Block>) -> bool {
    &&& 1 <= num
    &&& bits.len() == pow2(num)
    &&& !bits[pow2(num) - 1]
    &&& live.finite()
    &&& forall|a: Block| #[trigger] live.contains(a) ==> valid_block(num, a)
    &&& forall|a: Block, c: Block|
        #[trigger] live.contains(a) && #[trigger] live.contains(c) && a != c ==> !overlap(a, c)
    &&& forall|b: nat, j: nat|
        valid_block(num, (b, j)) ==> #[trigger] bit_of(num, bits, b, j) == occupied(live, b, j)
}

/// Every block covers at least one element.
pub proof fn lemma_nonempty(blk: Block)
    ensures
        block_start(blk) < block_end(blk),
        0 <= block_start(blk),
{
    lemma_pow2_pos(blk.0);
    let p = pow2(blk.0) as int;
    let i = blk.1 as int;
    assert((i + 1) * p == i * p + p) by (nonlinear_arith);
    assert(0 <= i * p) by (nonlinear_arith)
        requires
            0 <= i,
            0 < p,
    ;
}

/// Overlapping a block overlaps every block that contains it.
pub proof fn lemma_overlap_within(a: Block, x: Block, y: Block)
    requires
        within(x, y),
        overlap(a, x),
    ensures
        overlap(a, y),
{
    lemma_nonempty(x);
}

/// The level-`(n + d)` ancestor of `(n, i)` is at position `i / 2^d`.
pub proof fn lemma_within_ancestor(n: nat, i: nat, d: nat)
    ensures
        within((n, i), ((n + d) as nat, i / pow2(d))),
        i / pow2(d) * pow2(d) <= i,
{
    lemma_pow2_pos(d);
    lemma_pow2_pos(n);
    lemma_pow2_adds(n, d);
    let pd = pow2(d) as int;
    let pn = pow2(n) as int;
    let q = (i / pow2(d)) as int;
    let r = (i % pow2(d)) as int;
    lemma_fundamental_div_mod(i as int, pd);
    assert(i == pd * q + r);
    assert(0 <= r < pd);
    assert(q * (pn * pd) <= i * pn) by (nonlinear_arith)
        requires
            i == pd * q + r,
            0 <= r,
            0 < pn,
    ;
    assert((i + 1) * pn <= (q + 1) * (pn * pd)) by (nonlinear_arith)
        requires
            i == pd * q + r,
            r < pd,
            0 < pn,
    ;
    assert(q * pd <= i) by (nonlinear_arith)
        requires
            i == pd * q + r,
            0 <= r,
    ;
}

/// Distinct blocks of one level are disjoint.
pub proof fn lemma_same_level(b: nat, j: nat, k: nat)
    requires
        j != k,
    ensures
        !overlap((b, j), (b, k)),
{
    lemma_pow2_pos(b);
    let p = pow2(b) as int;
    if j < k {
        assert((j + 1) * p <= k * p) by (nonlinear_arith)
            requires
                j + 1 <= k,
                0 < p,
        ;
    } else {
        assert((k + 1) * p <= j * p) by (nonlinear_arith)
            requires
                k + 1 <= j,
                0 < p,
        ;
    }
}

/// At levels at or above `n`, the blocks that overlap `(n, i)` are exactly
/// its ancestors.
pub proof fn lemma_overlap_above(n: nat, i: nat, b: nat, k: nat)
    requires
        n <= b,
    ensures
        overlap((n, i), (b, k)) <==> k == i / pow2((b - n) as nat),
{
    let d = (b - n) as nat;
    let p = i / pow2(d);
    lemma_within_ancestor(n, i, d);
    lemma_nonempty((n, i));
    lemma_nonempty((b, k));
    if k != p {
        lemma_same_level(b, k, p);
    }
}

/// Below level `n`, the blocks that overlap `(n, i)` are the positions
/// `[i * 2^(n - b), (i + 1) * 2^(n - b))` of level `b`, all inside `(n, i)`.
pub proof fn lemma_overlap_below(n: nat, i: nat, b: nat, k: nat)
    requires
        b < n,
    ensures
        overlap((n, i), (b, k)) <==> (i * pow2((n - b) as nat) <= k && k < (i + 1) * pow2(
            (n - b) as nat,
        )),
        overlap((n, i), (b, k)) ==> within((b, k), (n, i)),
{
    let d = (n - b) as nat;
    lemma_pow2_adds(d, b);
    assert(d + b == n);
    lemma_pow2_pos(b);
    let q = pow2(d) as int;
    let p = pow2(b) as int;
    let ii = i as int;
    let kk = k as int;
    assert(pow2(n) == q * p);
    assert(block_start((n, i)) == ii * q * p) by (nonlinear_arith)
        requires
            pow2(n) == q * p,
            block_start((n, i)) == ii * pow2(n),
    ;
    assert(block_end((n, i)) == (ii + 1) * q * p) by (nonlinear_arith)
        requires
            pow2(n) == q * p,
            block_end((n, i)) == (ii + 1) * pow2(n),
    ;
    assert((kk * p < (ii + 1) * q * p) <==> (kk < (ii + 1) * q)) by (nonlinear_arith)
        requires
            0 < p,
    ;
    assert((ii * q * p < (kk + 1) * p) <==> (ii * q < kk + 1)) by (nonlinear_arith)
        requires
            0 < p,
    ;
    assert((ii * q <= kk && kk < (ii + 1) * q) ==> (ii * q * p <= kk * p && (kk + 1) * p <= (ii
        + 1) * q * p)) by (nonlinear_arith)
        requires
            0 < p,
    ;
}

/// A block overlaps a level-`(b + 1)` block iff it overlaps one of its two
/// halves.
pub proof fn lemma_children(a: Block, b: nat, k: nat)
    ensures
        overlap(a, ((b + 1) as nat, k)) <==> (overlap(a, (b, 2 * k)) || overlap(a, (b, 2 * k + 1))),
{
    lemma_pow2_adds(b, 1);
    vstd::arithmetic::power2::lemma2_to64();
    let p = pow2(b) as int;
    let kk = k as int;
    assert(pow2(b + 1) == 2 * p);
    assert(kk * (2 * p) == (2 * kk) * p) by (nonlinear_arith);
    assert((2 * kk + 1) * p == (2 * kk) * p + p) by (nonlinear_arith);
    assert((2 * kk + 2) * p == (kk + 1) * (2 * p)) by (nonlinear_arith);
    assert(block_start(((b + 1) as nat, k)) == block_start((b, 2 * k)));
    assert(block_end((b, 2 * k)) == block_start((b, 2 * k + 1)));
    assert(block_end((b, 2 * k + 1)) == block_end(((b + 1) as nat, k)));
    lemma_nonempty(a);
    lemma_nonempty((b, 2 * k));
    lemma_nonempty((b, 2 * k + 1));
}

/// The segments of the levels follow each other in the bit region, and the
/// last one ends just before its final bit.
pub proof fn lemma_layout(num: nat, b: nat)
    requires
        b < num,
    ensures
        level_base(num, (b + 1) as nat) == level_base(num, b) + level_len(num, b),
        0 <= level_base(num, b),
        level_base(num, (b + 1) as nat) <= pow2(num) - 1,
        level_len(num, b) <= pow2(num),
{
    lemma_pow2_adds((num - b - 1) as nat, 1);
    vstd::arithmetic::power2::lemma2_to64();
    assert(((num - b - 1) as nat + 1) as nat == (num - b) as nat);
    lemma_pow2_pos((num - b - 1) as nat);
    if (num - b - 1) as nat > 0 {
        lemma_pow2_strictly_increases(0, (num - b - 1) as nat);
    }
    if b > 0 {
        lemma_pow2_strictly_increases((num - b) as nat, num);
    }
}

/// Levels are laid out in increasing order.
pub proof fn lemma_base_mono(num: nat, b1: nat, b2: nat)
    requires
        b1 <= b2 <= num,
    ensures
        level_base(num, b1) <= level_base(num, b2),
{
    if b1 < b2 {
        lemma_pow2_strictly_increases((num - b2) as nat, (num - b1) as nat);
    }
}

/// Each valid block has its own bit, distinct from every other block's and
/// from the unused last bit.
pub proof fn lemma_bit_index(num: nat, b: nat, j: nat, c: nat, k: nat)
    requires
        valid_block(num, (b, j)),
        valid_block(num, (c, k)),
    ensures
        0 <= level_base(num, b) + j < pow2(num) - 1,
        (level_base(num, b) + j == level_base(num, c) + k) ==> (b == c && j == k),
{
    lemma_layout(num, b);
    lemma_layout(num, c);
    if b < c {
        lemma_base_mono(num, b + 1, c);
    } else if c < b {
        lemma_base_mono(num, c + 1, b);
    }
}

/// The ancestor of a valid block is valid.
pub proof fn lemma_ancestor_valid(num: nat, n: nat, i: nat, b: nat)
    requires
        valid_block(num, (n, i)),
        n <= b < num,
    ensures
        valid_block(num, (b, i / pow2((b - n) as nat))),
{
    let d = (b - n) as nat;
    lemma_within_ancestor(n, i, d);
    lemma_pow2_adds((num - b - 1) as nat, d);
    assert(((num - b - 1) as nat + d) as nat == (num - n - 1) as nat);
    lemma_pow2_pos(d);
    let l = level_len(num, b) as int;
    let q = (i / pow2(d)) as int;
    let pd = pow2(d) as int;
    assert(q < l) by (nonlinear_arith)
        requires
            q * pd <= i,
            i < l * pd,
            0 < pd,
    ;
}

/// One step up the tree divides the position by two.
pub proof fn lemma_path_step(i: nat, d: nat)
    ensures
        i / pow2(d) / 2 == i / pow2(d + 1),
{
    lemma_pow2_pos(d);
    lemma_pow2_adds(d, 1);
    vstd::arithmetic::power2::lemma2_to64();
    lemma_div_denominator(i as int, pow2(d) as int, 2);
}

} // verus!
