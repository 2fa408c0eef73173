//! The buddy tree: allocation and release of power-of-two blocks, with the
//! network update that keeps every level of the bitmap coherent.
use crate::bits::{any_clear, bits_of, first_clear, fill_bits, get_bit, repeat_bits, set_bit, Bits};
use crate::model::{
    bit_of, block_start, consistent, lemma_ancestor_valid, lemma_bit_index, lemma_children, lemma_layout,
    lemma_overlap_above, lemma_overlap_below, lemma_overlap_within, lemma_path_step, lemma_within_ancestor,
    level_base, level_len, occupied, overlap, valid_block, Block,
};
use vstd::arithmetic::div_mod::lemma_div_denominator;
use vstd::arithmetic::power2::{lemma_pow2_adds, lemma_pow2_pos, lemma_pow2_strictly_increases, lemma_pow2_unfold, pow2};
use vstd::prelude::*;

verus! {

/// `2^e`, computed by doubling.
fn pow2_exec(e: usize) -> (r: usize)
    requires
        pow2(e as nat) <= usize::MAX,
    ensures
        r == pow2(e as nat),
{
    let mut r: usize = 1;
    let mut k: usize = 0;
    proof {
        vstd::arithmetic::power2::lemma2_to64();
    }
    while k < e
        invariant
            k <= e,
            r == pow2(k as nat),
            pow2(e as nat) <= usize::MAX,
        decreases e - k,
    {
        proof {
            lemma_pow2_unfold((k + 1) as nat);
            if k + 1 < e {
                lemma_pow2_strictly_increases((k + 1) as nat, e as nat);
            }
        }
        r = r * 2;
        k = k + 1;
    }
    r
}

/// A block above another is found by dividing its position level by level.
pub proof fn lemma_path_compose(i: nat, d1: nat, d2: nat)
    ensures
        i / pow2(d1) / pow2(d2) == i / pow2(d1 + d2),
{
    lemma_pow2_pos(d1);
    lemma_pow2_pos(d2);
    lemma_pow2_adds(d1, d2);
    lemma_div_denominator(i as int, pow2(d1) as int, pow2(d2) as int);
}

/// An occupied block makes each of its ancestors occupied.
pub proof fn lemma_occupied_up(live: Set<Block>, b: nat, j: nat, c: nat)
    requires
        occupied(live, b, j),
        b <= c,
    ensures
        occupied(live, c, j / pow2((c - b) as nat)),
{
    let a = choose|a: Block| #[trigger] live.contains(a) && overlap(a, (b, j));
    lemma_within_ancestor(b, j, (c - b) as nat);
    assert((b + (c - b) as nat) as nat == c);
    lemma_overlap_within(a, (b, j), (c, j / pow2((c - b) as nat)));
}

/// A level-`(b + 1)` block is occupied iff one of its halves is.
proof fn lemma_occupied_children(live: Set<Block>, b: nat, k: nat)
    ensures
        occupied(live, (b + 1) as nat, k) <==> (occupied(live, b, 2 * k) || occupied(live, b, 2 * k
            + 1)),
{
    assert forall|a: Block| #[trigger] live.contains(a) implies (overlap(a, ((b + 1) as nat, k))
        <==> (overlap(a, (b, 2 * k)) || overlap(a, (b, 2 * k + 1)))) by {
        lemma_children(a, b, k);
    }
}

/// Adding or removing a block changes nothing for the blocks it does not
/// overlap.
pub proof fn lemma_occupied_other(l1: Set<Block>, l2: Set<Block>, blk: Block, c: nat, k: nat)
    requires
        forall|a: Block| a != blk ==> (l1.contains(a) <==> l2.contains(a)),
        !overlap(blk, (c, k)),
    ensures
        occupied(l1, c, k) == occupied(l2, c, k),
{
    if occupied(l1, c, k) {
        let a = choose|a: Block| #[trigger] l1.contains(a) && overlap(a, (c, k));
        assert(l2.contains(a));
    }
    if occupied(l2, c, k) {
        let a = choose|a: Block| #[trigger] l2.contains(a) && overlap(a, (c, k));
        assert(l1.contains(a));
    }
}

/// The bits of a network update in progress: those of the blocks below
/// level `b` that overlap `blk` hold `v`, all others their former value.
spec fn partly_set(num: nat, bits: Seq<bool>, before: Seq<bool>, blk: Block, b: nat, v: bool) -> bool {
    forall|c: nat, k: nat|
        valid_block(num, (c, k)) ==> #[trigger] bit_of(num, bits, c, k) == if c < b && overlap(
            blk,
            (c, k),
        ) {
            v
        } else {
            bit_of(num, before, c, k)
        }
}

/// Writing `v` into the bit of the level-`b` ancestor of `blk` extends the
/// update by one level.
proof fn lemma_set_step(
    num: nat,
    bits: Seq<bool>,
    before: Seq<bool>,
    blk: Block,
    b: nat,
    j: nat,
    v: bool,
)
    requires
        partly_set(num, bits, before, blk, b, v),
        valid_block(num, (b, j)),
        blk.0 <= b,
        j == blk.1 / pow2((b - blk.0) as nat),
        bits.len() == pow2(num),
    ensures
        partly_set(num, bits.update(level_base(num, b) + j, v), before, blk, b + 1, v),
        bits.update(level_base(num, b) + j, v)[pow2(num) - 1] == bits[pow2(num) - 1],
        bits.update(level_base(num, b) + j, v).len() == pow2(num),
{
    let after = bits.update(level_base(num, b) + j, v);
    lemma_bit_index(num, b, j, b, j);
    assert forall|c: nat, k: nat| valid_block(num, (c, k)) implies #[trigger] bit_of(
        num,
        after,
        c,
        k,
    ) == if c < b + 1 && overlap(blk, (c, k)) {
        v
    } else {
        bit_of(num, before, c, k)
    } by {
        lemma_bit_index(num, c, k, b, j);
        lemma_bit_index(num, c, k, c, k);
        if c == b {
            lemma_overlap_above(blk.0, blk.1, b, k);
        }
        assert(bit_of(num, bits, c, k) == bits[level_base(num, c) + k]);
    }
}

/// A buddy allocator over `2^num` element slots.
///
/// Level `n` holds `2^(num - n - 1)` blocks of `2^n` elements; block `i` of
/// level `n` covers the elements `[i * 2^n, (i + 1) * 2^n)`. Freeing a block
/// drops only the element at its start.
pub struct RawBuddies<T> {
    num: usize,
    data: Vec<Option<T>>,
    bits: Bits,
    live: Ghost<Set<Block>>,
}

impl<T> RawBuddies<T> {
    /// The number of levels.
    pub closed spec fn levels(&self) -> nat {
        self.num as nat
    }

    /// The bit region, level 0 first.
    pub closed spec fn bitmap(&self) -> Seq<bool> {
        bits_of(self.bits)
    }

    /// The live allocations, as `(size, position)` blocks.
    pub closed spec fn allocations(&self) -> Set<Block> {
        self.live@
    }

    /// The element slots.
    pub closed spec fn slots(&self) -> Seq<Option<T>> {
        self.data@
    }

    /// The bitmap describes exactly the live allocations, and the slots fill
    /// the region.
    pub open spec fn wf(&self) -> bool {
        &&& consistent(self.levels(), self.bitmap(), self.allocations())
        &&& self.slots().len() == pow2(self.levels())
        &&& pow2(self.levels()) <= usize::MAX
    }

    /// The bit of block `(n, i)`.
    pub open spec fn marked(&self, n: nat, i: nat) -> bool {
        bit_of(self.levels(), self.bitmap(), n, i)
    }

    /// Some size-`n` block is free.
    pub open spec fn has_free(&self, n: nat) -> bool {
        exists|j: nat| j < level_len(self.levels(), n) && !#[trigger] self.marked(n, j)
    }

    /// Creates an allocator over `data`, with every block free.
    pub fn new(num: usize, data: Vec<Option<T>>) -> (r: Self)
        requires
            1 <= num,
            data@.len() == pow2(num as nat),
        ensures
            r.wf(),
            r.levels() == num,
            r.allocations() == Set::<Block>::empty(),
            r.slots() == data@,
    {
        let size = data.len();
        let bits = repeat_bits(false, size);
        let r = RawBuddies { num, data, bits, live: Ghost(Set::empty()) };
        proof {
            lemma_pow2_pos(num as nat);
            assert(!bits_of(bits)[pow2(num as nat) - 1]);
            assert forall|b: nat, j: nat| valid_block(num as nat, (b, j)) implies #[trigger] bit_of(
                num as nat,
                bits_of(bits),
                b,
                j,
            ) == occupied(Set::<Block>::empty(), b, j) by {
                lemma_bit_index(num as nat, b, j, b, j);
            }
        }
        r
    }

    /// The bounds `[lo, hi)` of the level-`n` segment of the bit region.
    fn buddymap(&self, n: usize) -> (r: (usize, usize))
        requires
            n < self.levels(),
            pow2(self.levels()) <= usize::MAX,
        ensures
            r.0 == level_base(self.levels(), n as nat),
            r.1 == r.0 + level_len(self.levels(), n as nat),
            r.1 <= pow2(self.levels()) - 1,
    {
        proof {
            lemma_layout(self.num as nat, n as nat);
            lemma_pow2_strictly_increases((self.num - n - 1) as nat, (self.num - n) as nat);
            if n > 0 {
                lemma_pow2_strictly_increases((self.num - n) as nat, self.num as nat);
            }
        }
        let size = pow2_exec(self.num);
        let upper = pow2_exec(self.num - n);
        let lower = pow2_exec(self.num - n - 1);
        (size - upper, size - lower)
    }

    /// Whether block `(n, i)` is unavailable for allocation at size `n`.
    pub fn bit(&self, n: usize, i: usize) -> (r: bool)
        requires
            self.wf(),
            valid_block(self.levels(), (n as nat, i as nat)),
        ensures
            r == self.marked(n as nat, i as nat),
    {
        let (lo, _hi) = self.buddymap(n);
        get_bit(&self.bits, lo + i)
    }

    /// Checks whether a block of `2^n` elements can be allocated.
    pub fn can_allocate(&self, n: usize) -> (r: bool)
        requires
            self.wf(),
            n < self.levels(),
        ensures
            r == self.has_free(n as nat),
    {
        let (lo, hi) = self.buddymap(n);
        let r = any_clear(&self.bits, lo, hi);
        proof {
            if r {
                let k = choose|k: int| lo <= k < hi && !#[trigger] bits_of(self.bits)[k];
                assert(!self.marked(n as nat, (k - lo) as nat));
            }
            if self.has_free(n as nat) {
                let j = choose|j: nat|
                    j < level_len(self.levels(), n as nat) && !#[trigger] self.marked(n as nat, j);
                assert(!bits_of(self.bits)[lo + j]);
            }
        }
        r
    }

    /// Sets the network of bits of block `(n, i)` to `v`: every bit below it,
    /// its own bit, and the bits above it up to the first ancestor that was
    /// already set (`v` true) or whose other half is still in use (`v` false).
    fn set_network(&mut self, n: usize, i: usize, v: bool)
        requires
            old(self).wf(),
            valid_block(old(self).levels(), (n as nat, i as nat)),
            v ==> !old(self).marked(n as nat, i as nat),
            !v ==> old(self).allocations().contains((n as nat, i as nat)),
        ensures
            final(self).wf(),
            final(self).levels() == old(self).levels(),
            final(self).slots() == old(self).slots(),
            final(self).allocations() == if v {
                old(self).allocations().insert((n as nat, i as nat))
            } else {
                old(self).allocations().remove((n as nat, i as nat))
            },
    {
        let ghost num = self.num as nat;
        let ghost old_bits = self.bitmap();
        let ghost old_live = self.live@;
        let ghost blk: Block = (n as nat, i as nat);
        let ghost new_live = if v {
            old_live.insert(blk)
        } else {
            old_live.remove(blk)
        };
        proof {
            lemma_pow2_pos(num);
            if v {
                assert forall|a: Block| #[trigger] old_live.contains(a) implies !overlap(a, blk) by {
                    lemma_bit_index(num, n as nat, i as nat, n as nat, i as nat);
                }
            }
        }
        let mut b: usize = 0;
        while b < n
            invariant
                b <= n,
                n < num,
                num == self.num,
                self.data@ == old(self).data@,
                self.live@ == old_live,
                pow2(num) <= usize::MAX,
                valid_block(num, blk),
                blk == (n as nat, i as nat),
                new_live == if v {
                    old_live.insert(blk)
                } else {
                    old_live.remove(blk)
                },
                consistent(num, old_bits, old_live),
                v ==> forall|a: Block| #[trigger] old_live.contains(a) ==> !overlap(a, blk),
                !v ==> old_live.contains(blk),
                bits_of(self.bits).len() == pow2(num),
                !bits_of(self.bits)[pow2(num) - 1],
                partly_set(num, bits_of(self.bits), old_bits, blk, b as nat, v),
            decreases n - b,
        {
            let (lo, _hi) = self.buddymap(b);
            proof {
                lemma_layout(num, b as nat);
                lemma_layout(num, n as nat);
                let d = (n - b) as nat;
                lemma_pow2_adds((num - n - 1) as nat, d);
                assert(((num - n - 1) as nat + d) as nat == (num - b - 1) as nat);
                lemma_pow2_pos(d);
                let l = level_len(num, n as nat) as int;
                let ii = i as int;
                let q = pow2(d) as int;
                assert((ii + 1) * q <= l * q) by (nonlinear_arith)
                    requires
                        ii + 1 <= l,
                        0 < q,
                ;
                assert(ii * q <= (ii + 1) * q) by (nonlinear_arith)
                    requires
                        0 < q,
                ;
                assert(l * q == level_len(num, b as nat));
                assert(pow2(d) <= usize::MAX) by {
                    assert(q <= l * q) by (nonlinear_arith)
                        requires
                            1 <= l,
                            0 < q,
                    ;
                }
            }
            let span = pow2_exec(n - b);
            assert((i + 1) * span <= level_len(num, b as nat));
            let from = lo + i * span;
            let to = lo + (i + 1) * span;
            let ghost before = bits_of(self.bits);
            fill_bits(&mut self.bits, from, to, v);
            proof {
                assert forall|c: nat, k: nat| valid_block(num, (c, k)) implies #[trigger] bit_of(
                    num,
                    bits_of(self.bits),
                    c,
                    k,
                ) == if c < b + 1 && overlap(blk, (c, k)) {
                    v
                } else {
                    bit_of(num, old_bits, c, k)
                } by {
                    lemma_bit_index(num, c, k, c, k);
                    assert(bit_of(num, before, c, k) == if c < b && overlap(blk, (c, k)) {
                        v
                    } else {
                        bit_of(num, old_bits, c, k)
                    });
                    let p = level_base(num, c) + k;
                    assert(bits_of(self.bits)[p] == if from <= p < to {
                        v
                    } else {
                        before[p]
                    });
                    if from <= p < to {
                        let k2 = (p - lo) as nat;
                        lemma_bit_index(num, c, k, b as nat, k2);
                        lemma_overlap_below(n as nat, i as nat, b as nat, k2);
                    } else if c == b {
                        lemma_overlap_below(n as nat, i as nat, b as nat, k);
                    }
                }
            }
            b = b + 1;
        }
        proof {
            vstd::arithmetic::power2::lemma2_to64();
            assert((b - n) as nat == 0);
            assert(i as nat / 1 == i as nat);
            if !v {
                assert(!occupied(new_live, n as nat, i as nat)) by {
                    if occupied(new_live, n as nat, i as nat) {
                        let a = choose|a: Block| #[trigger] new_live.contains(a) && overlap(a, blk);
                        assert(old_live.contains(a) && old_live.contains(blk) && a != blk);
                    }
                }
                assert forall|c: nat, k: nat| c < b && overlap(blk, (c, k)) implies !#[trigger] occupied(
                    new_live,
                    c,
                    k,
                ) by {
                    lemma_overlap_below(n as nat, i as nat, c, k);
                    if occupied(new_live, c, k) {
                        let a = choose|a: Block| #[trigger] new_live.contains(a) && overlap(a, (c, k));
                        lemma_overlap_within(a, (c, k), blk);
                        assert(old_live.contains(a) && old_live.contains(blk) && a != blk);
                    }
                }
            }
        }
        let mut j: usize = i;
        let mut stop = false;
        while b < self.num && !stop
            invariant
                n <= b <= num,
                num == self.num,
                self.data@ == old(self).data@,
                self.live@ == old_live,
                pow2(num) <= usize::MAX,
                valid_block(num, blk),
                blk == (n as nat, i as nat),
                new_live == if v {
                    old_live.insert(blk)
                } else {
                    old_live.remove(blk)
                },
                consistent(num, old_bits, old_live),
                v ==> forall|a: Block| #[trigger] old_live.contains(a) ==> !overlap(a, blk),
                !v ==> old_live.contains(blk),
                j == i as nat / pow2((b - n) as nat),
                b < num ==> valid_block(num, (b as nat, j as nat)),
                bits_of(self.bits).len() == pow2(num),
                !bits_of(self.bits)[pow2(num) - 1],
                partly_set(num, bits_of(self.bits), old_bits, blk, b as nat, v),
                !v ==> forall|c: nat, k: nat|
                    c < b && overlap(blk, (c, k)) ==> !#[trigger] occupied(new_live, c, k),
                stop ==> b < num,
                !v && !stop && b < num ==> !occupied(new_live, b as nat, j as nat),
                stop && v ==> occupied(old_live, b as nat, j as nat),
                stop && !v ==> occupied(new_live, b as nat, j as nat),
            decreases (num - b) * 2 + if stop {
                0int
            } else {
                1int
            },
        {
            let (lo, _hi) = self.buddymap(b);
            let pos = lo + j;
            proof {
                lemma_overlap_above(n as nat, i as nat, b as nat, j as nat);
                lemma_bit_index(num, b as nat, j as nat, b as nat, j as nat);
            }
            if v {
                if get_bit(&self.bits, pos) {
                    proof {
                        assert(bit_of(num, bits_of(self.bits), b as nat, j as nat) == bit_of(
                            num,
                            old_bits,
                            b as nat,
                            j as nat,
                        ));
                    }
                    stop = true;
                } else {
                    let ghost before = bits_of(self.bits);
                    set_bit(&mut self.bits, pos, true);
                    proof {
                        lemma_set_step(num, before, old_bits, blk, b as nat, j as nat, v);
                        lemma_path_step(i as nat, (b - n) as nat);
                        assert(((b - n) as nat + 1) as nat == (b + 1 - n) as nat);
                        if b + 1 < num {
                            lemma_ancestor_valid(num, n as nat, i as nat, (b + 1) as nat);
                        }
                    }
                    j = j / 2;
                    b = b + 1;
                }
            } else {
                let ghost before = bits_of(self.bits);
                set_bit(&mut self.bits, pos, false);
                proof {
                    lemma_set_step(num, before, old_bits, blk, b as nat, j as nat, v);
                    assert forall|c: nat, k: nat| c < b + 1 && overlap(blk, (c, k)) implies !#[trigger] occupied(new_live, c, k) by {
                        if c == b {
                            lemma_overlap_above(n as nat, i as nat, b as nat, k);
                        }
                        if c < n {
                            lemma_overlap_below(n as nat, i as nat, c, k);
                            if occupied(new_live, c, k) {
                                let a = choose|a: Block| #[trigger] new_live.contains(a) && overlap(a, (c, k));
                                lemma_overlap_within(a, (c, k), blk);
                                assert(old_live.contains(a) && old_live.contains(blk) && a != blk);
                            }
                        }
                    }
                }
                // the top level has a single block and no other half to look at
                if b + 1 < self.num {
                    let sib = if j % 2 == 0 {
                        j + 1
                    } else {
                        j - 1
                    };
                    proof {
                        assert(level_len(num, b as nat) % 2 == 0) by {
                            lemma_pow2_unfold((num - b - 1) as nat);
                        }
                        lemma_overlap_above(n as nat, i as nat, b as nat, sib as nat);
                        lemma_bit_index(num, b as nat, sib as nat, b as nat, sib as nat);
                        assert(bit_of(num, bits_of(self.bits), b as nat, sib as nat) == bits_of(self.bits)[lo + sib]);
                        lemma_occupied_other(old_live, new_live, blk, b as nat, sib as nat);
                    }
                    let busy = get_bit(&self.bits, lo + sib);
                    proof {
                        lemma_occupied_children(new_live, b as nat, (j / 2) as nat);
                        lemma_path_step(i as nat, (b - n) as nat);
                        assert(((b - n) as nat + 1) as nat == (b + 1 - n) as nat);
                        lemma_ancestor_valid(num, n as nat, i as nat, (b + 1) as nat);
                        assert(busy == occupied(new_live, (b + 1) as nat, (j / 2) as nat));
                        if !busy {
                            assert forall|c: nat, k: nat| c < b + 2 && overlap(blk, (c, k)) implies !#[trigger] occupied(new_live, c, k) by {
                                if c == b + 1 {
                                    lemma_overlap_above(n as nat, i as nat, c, k);
                                }
                            }
                        }
                    }
                    j = j / 2;
                    b = b + 1;
                    if busy {
                        stop = true;
                    }
                } else {
                    b = b + 1;
                    proof {
                        lemma_path_step(i as nat, (b - 1 - n) as nat);
                    }
                    j = j / 2;
                }
            }
        }
        proof {
            assert forall|c: nat, k: nat| valid_block(num, (c, k)) implies #[trigger] bit_of(
                num,
                bits_of(self.bits),
                c,
                k,
            ) == occupied(new_live, c, k) by {
                if !overlap(blk, (c, k)) {
                    lemma_occupied_other(old_live, new_live, blk, c, k);
                } else if c >= b {
                    lemma_overlap_above(n as nat, i as nat, c, k);
                    lemma_path_compose(i as nat, (b - n) as nat, (c - b) as nat);
                    assert(((b - n) as nat + (c - b) as nat) as nat == (c - n) as nat);
                    if v {
                        lemma_occupied_up(old_live, b as nat, j as nat, c);
                        assert(new_live.contains(blk));
                    } else {
                        lemma_occupied_up(new_live, b as nat, j as nat, c);
                        assert(old_live.contains(blk));
                    }
                } else if v {
                    assert(new_live.contains(blk));
                }
            }
            if !v {
                assert forall|a: Block, c: Block| #[trigger] new_live.contains(a) && #[trigger] new_live.contains(c) && a != c implies !overlap(a, c) by {
                    assert(old_live.contains(a) && old_live.contains(c));
                }
            } else {
                assert forall|a: Block, c: Block| #[trigger] new_live.contains(a) && #[trigger] new_live.contains(c) && a != c implies !overlap(a, c) by {
                    if a == blk {
                        assert(!overlap(c, a));
                    } else if c != blk {
                        assert(old_live.contains(a) && old_live.contains(c));
                    }
                }
            }
        }
        self.live = Ghost(new_live);
    }

    /// Allocates a block of `2^n` elements: the lowest free position of
    /// level `n`, with the first element it covers, or `None` when no
    /// size-`n` block is free.
    pub fn allocate(&mut self, n: usize) -> (r: Option<(usize, usize)>)
        requires
            old(self).wf(),
            n < old(self).levels(),
        ensures
            final(self).wf(),
            final(self).levels() == old(self).levels(),
            final(self).slots() == old(self).slots(),
            r is None <==> !old(self).has_free(n as nat),
            r is None ==> final(self).allocations() == old(self).allocations(),
            r is None ==> final(self).bitmap() == old(self).bitmap(),
            match r {
                Some((h, pos)) => {
                    &&& pos < level_len(old(self).levels(), n as nat)
                    &&& !old(self).marked(n as nat, pos as nat)
                    &&& forall|k: nat| k < pos ==> #[trigger] old(self).marked(n as nat, k)
                    &&& h == block_start((n as nat, pos as nat))
                    &&& final(self).allocations() == old(self).allocations().insert(
                        (n as nat, pos as nat),
                    )
                },
                None => true,
            },
    {
        let (lo, hi) = self.buddymap(n);
        let found = first_clear(&self.bits, lo, hi);
        match found {
            None => {
                proof {
                    if self.has_free(n as nat) {
                        let j = choose|j: nat|
                            j < level_len(self.levels(), n as nat) && !#[trigger] self.marked(
                                n as nat,
                                j,
                            );
                        assert(bits_of(self.bits)[lo + j]);
                    }
                }
                None
            },
            Some(pos) => {
                proof {
                    assert(!self.marked(n as nat, pos as nat));
                    assert forall|k: nat| k < pos implies #[trigger] self.marked(n as nat, k) by {
                        assert(bits_of(self.bits)[lo + k]);
                    }
                    lemma_layout(self.num as nat, n as nat);
                    let l = level_len(self.num as nat, n as nat) as int;
                    let p = pow2(n as nat) as int;
                    lemma_pow2_adds((self.num - n - 1) as nat, n as nat);
                    assert(((self.num - n - 1) as nat + n as nat) as nat == (self.num - 1) as nat);
                    lemma_pow2_strictly_increases((self.num - 1) as nat, self.num as nat);
                    lemma_pow2_pos(n as nat);
                    assert(pos * p <= l * p) by (nonlinear_arith)
                        requires
                            pos < l,
                            0 < p,
                    ;
                    vstd::arithmetic::power2::lemma2_to64();
                    if n > 0 {
                        lemma_pow2_strictly_increases(n as nat, self.num as nat);
                    }
                }
                self.set_network(n, pos, true);
                let h = pos * pow2_exec(n);
                Some((h, pos))
            },
        }
    }

    /// Frees the size-`n` block at position `pos`: drops the element at its
    /// start and releases the network, joining free halves upward.
    pub fn free(&mut self, n: usize, pos: usize)
        requires
            old(self).wf(),
            old(self).allocations().contains((n as nat, pos as nat)),
        ensures
            final(self).wf(),
            final(self).levels() == old(self).levels(),
            final(self).allocations() == old(self).allocations().remove((n as nat, pos as nat)),
            final(self).slots() == old(self).slots().update(
                block_start((n as nat, pos as nat)),
                None,
            ),
    {
        proof {
            let num = self.num as nat;
            assert(valid_block(num, (n as nat, pos as nat)));
            lemma_layout(num, n as nat);
            let l = level_len(num, n as nat) as int;
            let p = pow2(n as nat) as int;
            lemma_pow2_adds((num - n - 1) as nat, n as nat);
            assert(((num - n - 1) as nat + n as nat) as nat == (num - 1) as nat);
            lemma_pow2_strictly_increases((num - 1) as nat, num);
            lemma_pow2_pos(n as nat);
            assert(pos * p < l * p) by (nonlinear_arith)
                requires
                    pos < l,
                    0 < p,
            ;
            vstd::arithmetic::power2::lemma2_to64();
            if n > 0 {
                lemma_pow2_strictly_increases(n as nat, num);
            }
        }
        let h = pos * pow2_exec(n);
        self.data.set(h, None);
        self.set_network(n, pos, false);
    }

    /// The element slot at index `k`.
    pub fn slot(&self, k: usize) -> (r: &Option<T>)
        requires
            k < self.slots().len(),
        ensures
            *r == self.slots()[k as int],
    {
        &self.data[k]
    }

    /// Stores `value` in the element slot at index `k`, dropping what was
    /// there.
    pub fn put(&mut self, k: usize, value: T)
        requires
            old(self).wf(),
            k < old(self).slots().len(),
        ensures
            final(self).wf(),
            final(self).levels() == old(self).levels(),
            final(self).bitmap() == old(self).bitmap(),
            final(self).allocations() == old(self).allocations(),
            final(self).slots() == old(self).slots().update(k as int, Some(value)),
    {
        self.data.set(k, Some(value));
    }
}

} // verus!
