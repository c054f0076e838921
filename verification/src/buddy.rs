//! The buddy allocator: construction-time partitioning, allocation with
//! splitting, and deallocation with coalescing, over an arena of frames.

use vstd::prelude::*;

verus! {

use vstd::arithmetic::div_mod::lemma_div_plus_one;
use vstd::arithmetic::div_mod::lemma_div_minus_one;
use vstd::arithmetic::div_mod::lemma_fundamental_div_mod;
use vstd::arithmetic::div_mod::lemma_fundamental_div_mod_converse;
use vstd::arithmetic::div_mod::lemma_mod_add_multiples_vanish;
use vstd::arithmetic::mul::lemma_mul_inequality;
use vstd::arithmetic::power2::lemma_pow2_adds;
use vstd::arithmetic::power2::lemma_pow2_pos;
use vstd::arithmetic::power2::lemma_pow2_strictly_increases;
use vstd::arithmetic::power2::lemma2_to64;
use vstd::arithmetic::power2::pow2;
use vstd::bits::lemma_usize_shl_is_mul;
use crate::list::LinkedList;
use crate::list::Node;
use crate::list::lemma_members_bounded;
use crate::list::lemma_unlinked_wf;
use crate::list::lemma_wf_links_unchanged;

/// Exclusive upper bound on block orders: a block holds `2^order` units for
/// some `order` in `0 .. MAX_ORDER`, and there is one free list per order.
pub const MAX_ORDER: usize = 15;

/// Per-frame bookkeeping: the order of the block the frame heads and
/// whether that block is handed out.  Both fields are authoritative only
/// while the frame is the representative (first unit) of a live block.
#[derive(Clone, Copy)]
pub struct Frame {
    used: bool,
    order: usize,
}

impl Frame {
    /// Whether the block this frame represents is handed out.
    pub closed spec fn spec_is_used(&self) -> bool {
        self.used
    }

    /// The order of the block this frame represents.
    pub closed spec fn spec_order(&self) -> usize {
        self.order
    }

    /// A fresh frame: not in use, order zero.
    pub fn new() -> (f: Frame)
        ensures
            !f.is_used(),
            f.order() == 0,
    {
        Frame { used: false, order: 0 }
    }

    /// Whether the block this frame represents is handed out.
    #[verifier::when_used_as_spec(spec_is_used)]
    pub fn is_used(&self) -> (r: bool)
        ensures
            r == self.is_used(),
    {
        self.used
    }

    /// Mark the block handed out.
    pub fn mark_used(&mut self)
        ensures
            final(self).is_used(),
            final(self).order() == old(self).order(),
    {
        self.used = true;
    }

    /// Mark the block free.
    pub fn mark_free(&mut self)
        ensures
            !final(self).is_used(),
            final(self).order() == old(self).order(),
    {
        self.used = false;
    }

    /// The order of the block this frame represents.
    #[verifier::when_used_as_spec(spec_order)]
    pub fn order(&self) -> (r: usize)
        ensures
            r == self.order(),
    {
        self.order
    }

    /// Set the order of the block this frame represents.
    pub fn set_order(&mut self, order: usize)
        ensures
            final(self).order() == order,
            final(self).is_used() == old(self).is_used(),
    {
        self.order = order;
    }

    /// The size of the block this frame represents, in units.
    pub fn size(&self) -> (r: usize)
        requires
            self.spec_order() <= MAX_ORDER,
        ensures
            r == pow2(self.spec_order() as nat),
    {
        pow2_usize(self.order)
    }
}

/// The index of the buddy of the block of order `o` starting at index `i`:
/// `i` with bit `o` flipped (XOR with `2^o`), written out arithmetically.
pub open spec fn buddy_of(i: int, o: nat) -> int {
    if (i / pow2(o) as int) % 2 == 0 {
        i + pow2(o)
    } else {
        i - pow2(o)
    }
}

/// The number of free units recorded by the first `n` per-order free
/// counts: the sum of `counts[o] * 2^o` over `o < n`.
pub open spec fn sum_free_units(counts: Seq<usize>, n: nat) -> nat
    decreases n,
{
    if n == 0 {
        0
    } else {
        sum_free_units(counts, (n - 1) as nat) + (counts[n - 1] as nat) * pow2((n - 1) as nat)
    }
}

/// Taking the buddy twice leads back to the original index, for every
/// index and order (the computation flips one bit back and forth).
pub proof fn lemma_buddy_involution(i: int, o: nat)
    requires
        i >= 0,
    ensures
        buddy_of(buddy_of(i, o), o) == i,
{
    let p = pow2(o) as int;
    lemma_pow2_pos(o);
    if (i / p) % 2 == 0 {
        let b = i + p;
        lemma_div_plus_one(i, p);
        assert(b / p == i / p + 1);
        assert((b / p) % 2 == 1);
    } else {
        let b = i - p;
        lemma_div_minus_one(i, p);
        assert(b / p == i / p - 1);
        assert((b / p) % 2 == 0);
    }
}

/// For a block start `b` aligned to its own order `o`, the buddy
/// computation picks the sibling half: if `b` is also aligned to the next
/// order it is the lower half and the buddy sits `2^o` above; otherwise it
/// is the upper half and the buddy sits `2^o` below, with the merged block
/// starting there, aligned to order `o + 1`.
pub proof fn lemma_buddy_shape(b: int, o: nat)
    requires
        b >= 0,
        b % (pow2(o) as int) == 0,
    ensures
        (b / pow2(o) as int) % 2 == 0 ==> {
            &&& buddy_of(b, o) == b + pow2(o)
            &&& b % (pow2(o + 1) as int) == 0
        },
        (b / pow2(o) as int) % 2 != 0 ==> {
            &&& buddy_of(b, o) == b - pow2(o)
            &&& b >= pow2(o)
            &&& (b - pow2(o)) % (pow2(o + 1) as int) == 0
        },
        buddy_of(b, o) % (pow2(o) as int) == 0,
{
    let p = pow2(o) as int;
    let p2 = pow2(o + 1) as int;
    lemma_pow2_pos(o);
    lemma_pow2_adds(o, 1);
    lemma2_to64();
    assert(p2 == 2 * p);
    let q = b / p;
    lemma_fundamental_div_mod(b, p);
    assert(b == q * p);
    assert(q >= 0) by {
        if q < 0 {
            lemma_mul_inequality(q, -1, p);
        }
    }
    if q % 2 == 0 {
        let t = q / 2;
        lemma_fundamental_div_mod(q, 2);
        assert(q == 2 * t);
        assert(b == t * p2) by (nonlinear_arith)
            requires
                q == 2 * t,
                b == q * p,
                p2 == 2 * p,
        ;
        lemma_fundamental_div_mod_converse(b, p2, t, 0);
        assert(b % p2 == 0);
        assert((b + p) % p == 0) by {
            lemma_mod_add_multiples_vanish(b, p);
            assert(b % p == 0);
            assert((p + b) % p == b % p);
        }
        assert(buddy_of(b, o) == b + p);
    } else {
        let t = q / 2;
        lemma_fundamental_div_mod(q, 2);
        assert(q == 2 * t + 1);
        assert(q >= 1);
        assert(b >= p) by {
            lemma_mul_inequality(1, q, p);
            assert(1 * p <= q * p);
        }
        assert(b - p == t * p2) by (nonlinear_arith)
            requires
                q == 2 * t + 1,
                b == q * p,
                p2 == 2 * p,
        ;
        lemma_fundamental_div_mod_converse(b - p, p2, t, 0);
        assert((b - p) % p2 == 0);
        assert(b - p == (q - 1) * p) by (nonlinear_arith)
            requires
                b == q * p,
        ;
        lemma_fundamental_div_mod_converse(b - p, p, q - 1, 0);
        assert((b - p) % p == 0);
        assert(buddy_of(b, o) == b - p);
    }
}

/// Powers of two are monotone in the exponent.
pub proof fn lemma_pow2_le(a: nat, b: nat)
    requires
        a <= b,
    ensures
        pow2(a) <= pow2(b),
{
    if a < b {
        lemma_pow2_strictly_increases(a, b);
    }
}

/// A block start aligned to order `o + 1` is the lower half of its pair:
/// it is aligned to order `o` and its index is an even multiple of `2^o`.
pub proof fn lemma_even_half(b: int, o: nat)
    requires
        b >= 0,
        b % (pow2(o + 1) as int) == 0,
    ensures
        b % (pow2(o) as int) == 0,
        (b / pow2(o) as int) % 2 == 0,
{
    let p = pow2(o) as int;
    let p2 = pow2(o + 1) as int;
    lemma_pow2_pos(o);
    lemma_pow2_adds(o, 1);
    lemma2_to64();
    assert(p2 == 2 * p);
    let t = b / p2;
    lemma_fundamental_div_mod(b, p2);
    assert(b == t * p2);
    assert(b == (2 * t) * p) by (nonlinear_arith)
        requires
            b == t * p2,
            p2 == 2 * p,
    ;
    lemma_fundamental_div_mod_converse(b, p, 2 * t, 0);
    assert(b % p == 0);
    assert(b / p == 2 * t);
}

/// Alignment to a higher order implies alignment to any lower order.
pub proof fn lemma_aligned_weaken(b: int, o1: nat, o2: nat)
    requires
        b >= 0,
        o2 <= o1,
        b % (pow2(o1) as int) == 0,
    ensures
        b % (pow2(o2) as int) == 0,
    decreases o1 - o2,
{
    if o2 < o1 {
        let om = (o1 - 1) as nat;
        let p = pow2(om) as int;
        let p2 = pow2(o1) as int;
        lemma_pow2_pos(om);
        lemma_pow2_adds(om, 1);
        lemma2_to64();
        assert(p2 == 2 * p);
        let q = b / p2;
        lemma_fundamental_div_mod(b, p2);
        assert(b == q * p2);
        assert(b == (2 * q) * p) by (nonlinear_arith)
            requires b == q * p2 && p2 == 2 * p;
        assert(b % p == 0) by {
            assert(b == p * (2 * q)) by (nonlinear_arith)
                requires b == (2 * q) * p;
            vstd::arithmetic::div_mod::lemma_mod_multiples_basic(2 * q, p);
        }
        lemma_aligned_weaken(b, om, o2);
    }
}

/// If two distinct block starts each head a block whose interior units are
/// all marked used while the starts themselves are not used, the two
/// blocks cannot overlap.
proof fn lemma_blocks_disjoint(frames: Seq<Node<Frame>>, j1: int, o1: nat, j2: int, o2: nat)
    requires
        j1 != j2,
        0 <= j1,
        0 <= j2,
        j1 + pow2(o1) <= frames.len(),
        j2 + pow2(o2) <= frames.len(),
        !frames[j1].element.used,
        !frames[j2].element.used,
        forall|u: int| j1 < u < j1 + pow2(o1) ==> (#[trigger] frames[u]).element.used,
        forall|u: int| j2 < u < j2 + pow2(o2) ==> (#[trigger] frames[u]).element.used,
    ensures
        j1 + pow2(o1) <= j2 || j2 + pow2(o2) <= j1,
{
    lemma_pow2_pos(o1);
    lemma_pow2_pos(o2);
    if j1 < j2 < j1 + pow2(o1) {
        assert(frames[j2].element.used);
    } else if j2 < j1 < j2 + pow2(o2) {
        assert(frames[j1].element.used);
    }
}

/// Computes `2^order` as a `usize`.
fn pow2_usize(order: usize) -> (r: usize)
    requires
        order <= MAX_ORDER,
    ensures
        r == pow2(order as nat),
        r >= 1,
{
    proof {
        lemma2_to64();
        if order < MAX_ORDER {
            lemma_pow2_strictly_increases(order as nat, MAX_ORDER as nat);
        }
        lemma_pow2_pos(order as nat);
        lemma_usize_shl_is_mul(1, order);
    }
    1usize << order
}

/// The fixed-capacity buddy allocator.  It owns the backing arena of
/// frames (supplied once at construction), one intrusive free list per
/// order and one free count per order; `free_counts[o]` always equals the
/// length of `free_lists[o]`.  A block handle is the arena index of the
/// block's first frame.
pub struct BuddyAllocator {
    frames: Vec<Node<Frame>>,
    base_addr: usize,
    free_lists: Vec<LinkedList>,
    free_counts: Vec<usize>,
}

impl BuddyAllocator {
    /// The number of managed frames.
    pub closed spec fn spec_count(self) -> int {
        self.frames@.len() as int
    }

    /// The address of the first managed frame, in frame-sized units.
    pub closed spec fn spec_base(self) -> int {
        self.base_addr as int
    }

    /// The number of free blocks of order `o`.
    pub closed spec fn spec_free_count(self, o: int) -> usize {
        self.free_counts@[o]
    }

    /// The total number of free units: the sum of `2^o` over all free
    /// blocks of all orders `o`.
    pub closed spec fn sum_free(self) -> nat {
        sum_free_units(self.free_counts@, MAX_ORDER as nat)
    }

    /// The bookkeeping record of frame `j`.
    pub closed spec fn spec_frame(self, j: int) -> Frame {
        self.frames@[j].element
    }

    /// Frame `j` heads a free block of order `o`: it is marked free and
    /// stamped with `o`, the whole block lies inside the arena, its start
    /// is aligned to the block size, and every interior unit of the block
    /// is marked used (only the representative carries the free flag).
    spec fn member_ok(self, j: int, o: int) -> bool {
        &&& 0 <= j < self.frames@.len()
        &&& !self.frames@[j].element.used
        &&& self.frames@[j].element.order == o
        &&& j % (pow2(o as nat) as int) == 0
        &&& j + pow2(o as nat) <= self.frames@.len()
        &&& forall|u: int| j < u < j + pow2(o as nat) ==> (#[trigger] self.frames@[u]).element.used
    }

    /// Structural consistency of the per-order lists and counts.
    spec fn lists_ok(self) -> bool {
        &&& self.free_lists@.len() == MAX_ORDER
        &&& self.free_counts@.len() == MAX_ORDER
        &&& forall|o: int|
            0 <= o < MAX_ORDER ==> (#[trigger] self.free_lists@[o]).wf(self.frames@)
        &&& forall|o: int|
            0 <= o < MAX_ORDER ==> (#[trigger] self.free_counts@[o]) as int
                == self.free_lists@[o]@.len()
    }

    /// Every member of every free list heads a valid free block of the
    /// list's order.
    spec fn members_ok(self) -> bool {
        forall|o: int, j: usize|
            0 <= o < MAX_ORDER && (#[trigger] self.free_lists@[o]@.contains(j))
                ==> self.member_ok(j as int, o)
    }

    /// Machine limits: a nonempty arena, room for the buddy computation
    /// and for address arithmetic without overflow.
    spec fn bounds_ok(self) -> bool {
        &&& self.frames@.len() >= 1
        &&& self.frames@.len() + pow2(MAX_ORDER as nat) <= usize::MAX
        &&& self.base_addr + self.frames@.len() <= usize::MAX
    }

    /// Every frame marked free is the member of the free list of its
    /// stamped order: the free flag is authoritative.
    spec fn free_complete(self) -> bool {
        forall|j: int|
            0 <= j < self.frames@.len() && !(#[trigger] self.frames@[j]).element.used ==> {
                &&& self.frames@[j].element.order < MAX_ORDER
                &&& self.free_lists@[self.frames@[j].element.order as int]@.contains(j as usize)
            }
    }

    /// Coalescing is maximal: below the top order, no two members of the
    /// same free list are buddies of one another (they would have been
    /// merged).  The top order is exempt, since merging never produces a
    /// block of order `MAX_ORDER`.
    spec fn no_free_buddy_pairs(self) -> bool {
        forall|o: int, m1: usize, m2: usize|
            0 <= o < MAX_ORDER - 1 && #[trigger] self.free_lists@[o]@.contains(m1)
                && #[trigger] self.free_lists@[o]@.contains(m2) ==> m2 as int != buddy_of(
                m1 as int,
                o as nat,
            )
    }

    /// In state `self`, the block of order `i` starting at `r` can merge:
    /// its buddy is a managed frame heading a free block of the same
    /// order, and merging would not reach the top order.
    pub closed spec fn can_merge(self, r: int, i: int) -> bool {
        &&& i < MAX_ORDER - 1
        &&& 0 <= buddy_of(r, i as nat) < self.frames@.len()
        &&& !self.frames@[buddy_of(r, i as nat)].element.used
        &&& self.frames@[buddy_of(r, i as nat)].element.order == i
    }

    /// The representative after coalescing the block of order `o0`
    /// starting at `h` upward through the orders below `i`, always keeping
    /// the lower-addressed half.
    pub closed spec fn merge_rep(self, h: int, o0: int, i: int) -> int
        decreases i - o0,
    {
        if i <= o0 {
            h
        } else {
            let r = self.merge_rep(h, o0, i - 1);
            let bd = buddy_of(r, (i - 1) as nat);
            if bd < r {
                bd
            } else {
                r
            }
        }
    }

    /// The coalescing chain starting from the block of order `o0` at `h`
    /// merges at every order in `[o0, i)`, judged against the frame states
    /// in `self` (each buddy inspected lies outside everything merged so
    /// far, so its recorded state is still the pre-free one).
    pub closed spec fn merge_steps(self, h: int, o0: int, i: int) -> bool
        decreases i - o0,
    {
        if i <= o0 {
            true
        } else {
            self.merge_steps(h, o0, i - 1) && self.can_merge(self.merge_rep(h, o0, i - 1), i - 1)
        }
    }

    /// From a chain that merges through every order below `m`, extract the
    /// merge condition at any single order below `m`.
    proof fn lemma_merge_steps_at(self, h: int, o0: int, i: int, m: int)
        requires
            self.merge_steps(h, o0, m),
            o0 <= i < m,
        ensures
            self.can_merge(self.merge_rep(h, o0, i), i),
        decreases m - i,
    {
        if i < m - 1 {
            self.lemma_merge_steps_at(h, o0, i, m - 1);
        }
    }

    /// When `h` is aligned to order `k`, it is the lower half at every
    /// order below `k`, so it stays the representative through any chain
    /// of merges below `k`.
    proof fn lemma_merge_rep_stays(self, h: int, o0: int, i: int, k: int)
        requires
            0 <= h,
            0 <= o0 <= i <= k < MAX_ORDER,
            h % (pow2(k as nat) as int) == 0,
        ensures
            self.merge_rep(h, o0, i) == h,
        decreases i - o0,
    {
        if i > o0 {
            self.lemma_merge_rep_stays(h, o0, i - 1, k);
            lemma_aligned_weaken(h, k as nat, i as nat);
            lemma_even_half(h, (i - 1) as nat);
            lemma_buddy_shape(h, (i - 1) as nat);
            lemma_pow2_pos((i - 1) as nat);
        }
    }

    /// The allocator's invariant, established by construction and
    /// preserved by every operation.
    pub closed spec fn wf(self) -> bool {
        &&& self.bounds_ok()
        &&& self.lists_ok()
        &&& self.members_ok()
        &&& self.free_complete()
        &&& self.no_free_buddy_pairs()
        &&& self.sum_free() <= self.frames@.len()
    }

    /// Frame `h` heads a block of order `o` that is currently handed out:
    /// it is marked used and stamped with `o`, the block is in range and
    /// aligned, its interior units are marked used, and it does not
    /// overlap any free block.  This is what `allocate` guarantees of a
    /// returned handle and what `free` relies on.
    pub closed spec fn allocated_block_ok(self, h: int, o: int) -> bool {
        &&& 0 <= o < MAX_ORDER
        &&& 0 <= h
        &&& h + pow2(o as nat) <= self.frames@.len()
        &&& h % (pow2(o as nat) as int) == 0
        &&& self.frames@[h].element.used
        &&& self.frames@[h].element.order == o
        &&& forall|u: int| h < u < h + pow2(o as nat) ==> (#[trigger] self.frames@[u]).element.used
        &&& forall|o2: int, j: usize|
            0 <= o2 < MAX_ORDER && (#[trigger] self.free_lists@[o2]@.contains(j))
                ==> (j + pow2(o2 as nat) <= h || h + pow2(o as nat) <= j)
    }

    /// Overwrite the bookkeeping record of frame `j`, leaving its link
    /// fields and every other frame untouched.
    fn set_frame(&mut self, j: usize, used: bool, order: usize)
        requires
            old(self).lists_ok(),
            j < old(self).frames@.len(),
        ensures
            final(self).lists_ok(),
            final(self).frames@.len() == old(self).frames@.len(),
            final(self).free_lists == old(self).free_lists,
            final(self).free_counts == old(self).free_counts,
            final(self).base_addr == old(self).base_addr,
            final(self).frames@[j as int].element.used == used,
            final(self).frames@[j as int].element.order == order,
            final(self).frames@[j as int].next == old(self).frames@[j as int].next,
            final(self).frames@[j as int].prev == old(self).frames@[j as int].prev,
            forall|m: int|
                0 <= m < old(self).frames@.len() && m != j ==> final(self).frames@[m]
                    == old(self).frames@[m],
    {
        let mut n = self.frames[j];
        n.element = Frame { used, order };
        self.frames[j] = n;
        proof {
            assert forall|o: int|
                0 <= o < MAX_ORDER implies (#[trigger] self.free_lists@[o]).wf(self.frames@) by {
                lemma_wf_links_unchanged(self.free_lists@[o], old(self).frames@, self.frames@);
            }
        }
    }

    /// Insert the free block headed by `idx` into the free list of
    /// `order` and bump that order's count.
    fn push_free(&mut self, order: usize, idx: usize)
        requires
            old(self).bounds_ok(),
            old(self).lists_ok(),
            old(self).members_ok(),
            order < MAX_ORDER,
            forall|o2: int|
                0 <= o2 < MAX_ORDER ==> !(#[trigger] old(self).free_lists@[o2])@.contains(idx),
            old(self).member_ok(idx as int, order as int),
        ensures
            final(self).bounds_ok(),
            final(self).lists_ok(),
            final(self).members_ok(),
            final(self).base_addr == old(self).base_addr,
            final(self).frames@.len() == old(self).frames@.len(),
            forall|m: int|
                0 <= m < old(self).frames@.len() ==> (#[trigger] final(self).frames@[m]).element
                    == old(self).frames@[m].element,
            final(self).free_lists@[order as int]@ == old(self).free_lists@[order as int]@.push(
                idx),
            forall|o2: int|
                0 <= o2 < MAX_ORDER && o2 != order ==> (#[trigger] final(self).free_lists@[o2])@
                    == old(self).free_lists@[o2]@,
            forall|o2: int, x: usize|
                0 <= o2 < MAX_ORDER ==> ((#[trigger] final(self).free_lists@[o2]@.contains(x))
                    <==> (old(self).free_lists@[o2]@.contains(x) || (o2 == order && x == idx))),
            final(self).free_counts@ == old(self).free_counts@.update(
                order as int,
                (old(self).free_counts@[order as int] + 1) as usize,
            ),
            final(self).sum_free() == old(self).sum_free() + pow2(order as nat),
    {
        proof {
            lemma_members_bounded(self.free_lists@[order as int], self.frames@);
            lemma2_to64();
        }
        let mut l = self.free_lists[order];
        l.push_back(&mut self.frames, idx);
        self.free_lists[order] = l;
        let c = self.free_counts[order];
        self.free_counts[order] = c + 1;
        proof {
            let pre = *old(self);
            assert forall|o2: int|
                0 <= o2 < MAX_ORDER implies (#[trigger] self.free_lists@[o2]).wf(self.frames@) by {
                if o2 != order {
                    assert forall|m: int|
                        0 <= m < pre.frames@.len() && pre.free_lists@[o2]@.contains(m as usize)
                            implies (#[trigger] self.frames@[m]).next == pre.frames@[m].next
                            && self.frames@[m].prev == pre.frames@[m].prev by {
                        assert(pre.member_ok(m, o2));
                        if pre.free_lists@[order as int]@.contains(m as usize) {
                            assert(pre.member_ok(m, order as int));
                        }
                        assert(self.frames@[m] == pre.frames@[m]);
                    }
                    lemma_wf_links_unchanged(pre.free_lists@[o2], pre.frames@, self.frames@);
                }
            }
            assert(self.lists_ok());
            assert forall|o2: int, j2: usize|
                0 <= o2 < MAX_ORDER && (#[trigger] self.free_lists@[o2]@.contains(j2))
                    implies self.member_ok(j2 as int, o2) by {
                if o2 == order && j2 == idx {
                    assert(pre.member_ok(idx as int, order as int));
                } else {
                    assert(pre.free_lists@[o2]@.contains(j2));
                    assert(pre.member_ok(j2 as int, o2));
                }
            }
            assert(self.sum_free() == pre.sum_free() + pow2(order as nat)) by {
                lemma_sum_update(
                    pre.free_counts@,
                    order as int,
                    (c + 1) as usize,
                    MAX_ORDER as nat,
                );
                assert(((c + 1) as usize as nat) * pow2(order as nat) == (c as nat) * pow2(
                    order as nat,
                ) + pow2(order as nat)) by (nonlinear_arith)
                    requires
                        c < usize::MAX,
                ;
            }
        }
    }

    /// Remove and return the head of the free list of `order`, or `None`
    /// if that list is empty; a removed block's facts are handed back to
    /// the caller.
    fn pop_free(&mut self, order: usize) -> (r: Option<usize>)
        requires
            old(self).bounds_ok(),
            old(self).lists_ok(),
            old(self).members_ok(),
            order < MAX_ORDER,
        ensures
            final(self).bounds_ok(),
            final(self).lists_ok(),
            final(self).members_ok(),
            final(self).base_addr == old(self).base_addr,
            old(self).free_counts@[order as int] == 0 ==> r is None && *final(self) == *old(self),
            old(self).free_counts@[order as int] != 0 ==> {
                let j = old(self).free_lists@[order as int]@[0];
                &&& r == Some(j)
                &&& old(self).member_ok(j as int, order as int)
                &&& final(self).frames@.len() == old(self).frames@.len()
                &&& forall|m: int|
                    0 <= m < old(self).frames@.len() ==> (#[trigger] final(self).frames@[m]).element
                        == old(self).frames@[m].element
                &&& final(self).free_lists@[order as int]@ == old(self).free_lists@[
                    order as int
                ]@.drop_first()
                &&& forall|o2: int|
                    0 <= o2 < MAX_ORDER && o2 != order ==> (#[trigger] final(self).free_lists@[o2])@ == old(self).free_lists@[o2]@
                &&& forall|o2: int|
                    0 <= o2 < MAX_ORDER ==> !(#[trigger] final(self).free_lists@[o2])@.contains(j)
                &&& forall|o2: int, x: usize|
                    0 <= o2 < MAX_ORDER && x != j ==> ((#[trigger] final(self).free_lists@[o2]@.contains(x)) <==> old(self).free_lists@[o2]@.contains(x))
                &&& final(self).free_counts@ == old(self).free_counts@.update(
                    order as int,
                    (old(self).free_counts@[order as int] - 1) as usize,
                )
                &&& final(self).sum_free() + pow2(order as nat) == old(self).sum_free()
            },
    {
        let c = self.free_counts[order];
        if c == 0 {
            return None;
        }
        proof {
            lemma2_to64();
        }
        let mut l = self.free_lists[order];
        let r = l.pop_front(&mut self.frames);
        self.free_lists[order] = l;
        self.free_counts[order] = c - 1;
        proof {
            let pre = *old(self);
            let s = pre.free_lists@[order as int]@;
            let j = s[0];
            assert(s.contains(j));
            assert(pre.member_ok(j as int, order as int));
            assert forall|o2: int|
                0 <= o2 < MAX_ORDER implies (#[trigger] self.free_lists@[o2]).wf(self.frames@) by {
                if o2 != order {
                    assert forall|m: int|
                        0 <= m < pre.frames@.len() && pre.free_lists@[o2]@.contains(m as usize)
                            implies (#[trigger] self.frames@[m]).next == pre.frames@[m].next
                            && self.frames@[m].prev == pre.frames@[m].prev by {
                        assert(pre.member_ok(m, o2));
                        if s.contains(m as usize) {
                            assert(pre.member_ok(m, order as int));
                        }
                        assert(self.frames@[m] == pre.frames@[m]);
                    }
                    lemma_wf_links_unchanged(pre.free_lists@[o2], pre.frames@, self.frames@);
                }
            }
            assert(self.lists_ok());
            assert forall|o2: int, j2: usize|
                0 <= o2 < MAX_ORDER && (#[trigger] self.free_lists@[o2]@.contains(j2))
                    implies self.member_ok(j2 as int, o2) by {
                if o2 == order {
                    assert(pre.free_lists@[o2]@.contains(j2));
                }
                assert(pre.member_ok(j2 as int, o2));
            }
            assert(self.sum_free() + pow2(order as nat) == pre.sum_free()) by {
                lemma_sum_update(
                    pre.free_counts@,
                    order as int,
                    (c - 1) as usize,
                    MAX_ORDER as nat,
                );
                assert(((c - 1) as usize as nat) * pow2(order as nat) + pow2(order as nat) == (
                c as nat) * pow2(order as nat)) by (nonlinear_arith)
                    requires
                        c >= 1,
                ;
            }
        }
        r
    }

    /// Remove the free block headed by `idx` from the middle of the free
    /// list of `order` (it need not sit at either end).
    fn detach_free(&mut self, order: usize, idx: usize)
        requires
            old(self).bounds_ok(),
            old(self).lists_ok(),
            old(self).members_ok(),
            order < MAX_ORDER,
            old(self).free_lists@[order as int]@.contains(idx),
        ensures
            final(self).bounds_ok(),
            final(self).lists_ok(),
            final(self).members_ok(),
            final(self).base_addr == old(self).base_addr,
            final(self).frames@.len() == old(self).frames@.len(),
            forall|m: int|
                0 <= m < old(self).frames@.len() ==> (#[trigger] final(self).frames@[m]).element
                    == old(self).frames@[m].element,
            old(self).member_ok(idx as int, order as int),
            forall|o2: int|
                0 <= o2 < MAX_ORDER && o2 != order ==> (#[trigger] final(self).free_lists@[o2])@
                    == old(self).free_lists@[o2]@,
            forall|o2: int|
                0 <= o2 < MAX_ORDER ==> !(#[trigger] final(self).free_lists@[o2])@.contains(idx),
            forall|o2: int, x: usize|
                0 <= o2 < MAX_ORDER && x != idx ==> ((#[trigger] final(self).free_lists@[o2]@.contains(x)) <==> old(self).free_lists@[o2]@.contains(x)),
            final(self).free_counts@ == old(self).free_counts@.update(
                order as int,
                (old(self).free_counts@[order as int] - 1) as usize,
            ),
            final(self).sum_free() + pow2(order as nat) == old(self).sum_free(),
    {
        proof {
            lemma2_to64();
            assert(old(self).free_lists@[order as int]@.len() >= 1);
        }
        let c = self.free_counts[order];
        let mut l = self.free_lists[order];
        l.detach(&mut self.frames, idx);
        self.free_lists[order] = l;
        self.free_counts[order] = c - 1;
        proof {
            let pre = *old(self);
            assert(pre.member_ok(idx as int, order as int));
            assert forall|o2: int|
                0 <= o2 < MAX_ORDER implies (#[trigger] self.free_lists@[o2]).wf(self.frames@) by {
                if o2 != order {
                    assert forall|m: int|
                        0 <= m < pre.frames@.len() && pre.free_lists@[o2]@.contains(m as usize)
                            implies (#[trigger] self.frames@[m]).next == pre.frames@[m].next
                            && self.frames@[m].prev == pre.frames@[m].prev by {
                        assert(pre.member_ok(m, o2));
                        if pre.free_lists@[order as int]@.contains(m as usize) {
                            assert(pre.member_ok(m, order as int));
                        }
                        assert(self.frames@[m] == pre.frames@[m]);
                    }
                    lemma_wf_links_unchanged(pre.free_lists@[o2], pre.frames@, self.frames@);
                }
            }
            assert(self.lists_ok());
            assert forall|o2: int, j2: usize|
                0 <= o2 < MAX_ORDER && (#[trigger] self.free_lists@[o2]@.contains(j2))
                    implies self.member_ok(j2 as int, o2) by {
                if o2 == order {
                    assert(pre.free_lists@[o2]@.contains(j2));
                }
                assert(pre.member_ok(j2 as int, o2));
            }
            assert(self.sum_free() + pow2(order as nat) == pre.sum_free()) by {
                lemma_sum_update(
                    pre.free_counts@,
                    order as int,
                    (c - 1) as usize,
                    MAX_ORDER as nat,
                );
                assert(((c - 1) as usize as nat) * pow2(order as nat) + pow2(order as nat) == (
                c as nat) * pow2(order as nat)) by (nonlinear_arith)
                    requires
                        c >= 1,
                ;
            }
        }
    }
}

impl BuddyAllocator {
    /// Whether `addr` (in frame-sized units) falls inside the managed
    /// range: true exactly for the addresses of frames `0 .. count`.
    pub fn is_managed_obj(&self, addr: usize) -> (r: bool)
        ensures
            r <==> self.spec_base() <= addr < self.spec_base() + self.spec_count(),
    {
        if addr < self.base_addr {
            false
        } else {
            addr - self.base_addr < self.frames.len()
        }
    }

    /// The index of the managed frame at `addr`.
    pub fn get_frame_index(&self, addr: usize) -> (r: usize)
        requires
            self.spec_base() <= addr < self.spec_base() + self.spec_count(),
        ensures
            r == addr - self.spec_base(),
    {
        addr - self.base_addr
    }

    /// The number of free blocks of `order`.
    pub fn free_count(&self, order: usize) -> (r: usize)
        requires
            self.wf(),
            order < MAX_ORDER,
        ensures
            r == self.spec_free_count(order as int),
    {
        self.free_counts[order]
    }

    /// The number of managed frames.
    pub fn count(&self) -> (r: usize)
        ensures
            r == self.spec_count(),
    {
        self.frames.len()
    }

    /// A copy of the bookkeeping record of frame `idx`.
    pub fn frame(&self, idx: usize) -> (f: Frame)
        requires
            idx < self.spec_count(),
        ensures
            f == self.spec_frame(idx as int),
    {
        self.frames[idx].element
    }

    /// The total number of free units, summed as `free_counts[o] * 2^o`
    /// over all orders.
    pub fn count_free_objs(&self) -> (r: usize)
        requires
            self.wf(),
        ensures
            r == self.sum_free(),
    {
        let ghost cs = self.free_counts@;
        let mut acc: usize = 0;
        let mut o: usize = 0;
        while o < MAX_ORDER
            invariant
                self.wf(),
                cs == self.free_counts@,
                o <= MAX_ORDER,
                acc == sum_free_units(cs, o as nat),
                acc <= self.frames@.len(),
            decreases MAX_ORDER - o,
        {
            let bit = pow2_usize(o);
            proof {
                lemma_sum_monotonic(cs, (o + 1) as nat, MAX_ORDER as nat);
                assert(sum_free_units(cs, (o + 1) as nat) == acc + (cs[o as int] as nat) * pow2(
                    o as nat,
                ));
            }
            acc = acc + self.free_counts[o] * bit;
            o = o + 1;
        }
        proof {
            assert(acc == sum_free_units(cs, MAX_ORDER as nat));
        }
        acc
    }

    /// The handle of the buddy of the block of `order` starting at frame
    /// `idx`: the index with bit `order` flipped.  `None` if `order` is
    /// out of bounds or the computed index is not a managed frame, which
    /// can happen near the end of an arena whose size is not a power of
    /// two.
    pub fn buddy(&self, idx: usize, order: usize) -> (r: Option<usize>)
        requires
            self.wf(),
            idx < self.spec_count(),
        ensures
            match r {
                Some(b) => order < MAX_ORDER && b == buddy_of(idx as int, order as nat) && b
                    < self.spec_count(),
                None => order >= MAX_ORDER || !(0 <= buddy_of(idx as int, order as nat)
                    < self.spec_count()),
            },
    {
        if MAX_ORDER <= order {
            return None;
        }
        let bit = pow2_usize(order);
        let b: usize = if (idx / bit) % 2 == 0 {
            proof {
                lemma2_to64();
                if order < MAX_ORDER {
                    lemma_pow2_strictly_increases(order as nat, MAX_ORDER as nat);
                }
            }
            idx + bit
        } else {
            proof {
                let p = bit as int;
                let q = idx as int / p;
                lemma_fundamental_div_mod(idx as int, p);
                assert(q >= 1) by {
                    if q <= 0 {
                        lemma_mul_inequality(q, 0, p);
                    }
                }
                assert(idx >= bit) by {
                    lemma_mul_inequality(1, q, p);
                }
            }
            idx - bit
        };
        if b < self.frames.len() {
            Some(b)
        } else {
            None
        }
    }
}

impl BuddyAllocator {
    /// Builds an allocator over the given arena of frames, whose first
    /// frame sits at `base_addr` (in frame-sized units).  The arena is
    /// decomposed greedily from the highest order down into maximal
    /// aligned free blocks (as many top-order blocks as fit, then one
    /// block per set bit of the remainder), and every unit is free
    /// afterwards.
    pub fn new(frames: Vec<Node<Frame>>, base_addr: usize) -> (r: BuddyAllocator)
        requires
            frames@.len() >= 1,
            frames@.len() + pow2(MAX_ORDER as nat) <= usize::MAX,
            base_addr + frames@.len() <= usize::MAX,
        ensures
            r.wf(),
            r.spec_count() == frames@.len(),
            r.spec_base() == base_addr,
            r.sum_free() == frames@.len(),
    {
        let count = frames.len();
        let mut a = BuddyAllocator {
            frames,
            base_addr,
            free_lists: Vec::new(),
            free_counts: Vec::new(),
        };
        let mut o: usize = 0;
        while o < MAX_ORDER
            invariant
                o <= MAX_ORDER,
                a.free_lists@.len() == o,
                a.free_counts@.len() == o,
                a.frames@.len() == count,
                a.base_addr == base_addr,
                count >= 1,
                count + pow2(MAX_ORDER as nat) <= usize::MAX,
                base_addr + count <= usize::MAX,
                forall|k: int|
                    0 <= k < o ==> (#[trigger] a.free_lists@[k]).unlinked()
                        && a.free_lists@[k]@.len() == 0,
                forall|k: int| 0 <= k < o ==> (#[trigger] a.free_counts@[k]) == 0,
            decreases MAX_ORDER - o,
        {
            a.free_lists.push(LinkedList::new());
            a.free_counts.push(0);
            o = o + 1;
        }
        proof {
            lemma_pow2_pos(MAX_ORDER as nat);
            assert forall|k: int|
                0 <= k < MAX_ORDER implies (#[trigger] a.free_lists@[k]).wf(a.frames@) by {
                lemma_unlinked_wf(a.free_lists@[k], a.frames@);
            }
            assert(a.lists_ok());
            lemma_sum_zero_iff(a.free_counts@, MAX_ORDER as nat);
        }
        let mut j: usize = 0;
        while j < count
            invariant
                j <= count,
                a.lists_ok(),
                a.frames@.len() == count,
                a.base_addr == base_addr,
                count >= 1,
                count + pow2(MAX_ORDER as nat) <= usize::MAX,
                base_addr + count <= usize::MAX,
                a.free_lists@.len() == MAX_ORDER,
                forall|k: int|
                    0 <= k < MAX_ORDER ==> (#[trigger] a.free_lists@[k])@.len() == 0,
                forall|k: int| 0 <= k < MAX_ORDER ==> (#[trigger] a.free_counts@[k]) == 0,
                forall|u: int| 0 <= u < j ==> (#[trigger] a.frames@[u]).element.used,
            decreases count - j,
        {
            a.set_frame(j, true, 0);
            j = j + 1;
        }
        proof {
            lemma_sum_zero_iff(a.free_counts@, MAX_ORDER as nat);
            assert(a.sum_free() == 0);
            lemma2_to64();
        }
        let mut index: usize = 0;
        let mut order: usize = MAX_ORDER;
        while order > 0
            invariant
                0 <= order <= MAX_ORDER,
                index <= count,
                a.bounds_ok(),
                a.lists_ok(),
                a.members_ok(),
                a.free_complete(),
                a.frames@.len() == count,
                a.base_addr == base_addr,
                (index as int) % (pow2(order as nat) as int) == 0,
                order == MAX_ORDER || count - index < pow2(order as nat),
                a.sum_free() == index,
                forall|u: int| index <= u < count ==> (#[trigger] a.frames@[u]).element.used,
                forall|o2: int, m: usize|
                    0 <= o2 < MAX_ORDER && (#[trigger] a.free_lists@[o2]@.contains(m)) ==> m
                        + pow2(o2 as nat) <= index,
                forall|o2: int| 0 <= o2 < order ==> (#[trigger] a.free_lists@[o2])@.len() == 0,
                forall|o2: int|
                    order <= o2 < MAX_ORDER - 1 ==> (#[trigger] a.free_lists@[o2])@.len() <= 1,
            decreases order,
        {
            order = order - 1;
            let size = pow2_usize(order);
            proof {
                lemma_aligned_weaken(index as int, (order + 1) as nat, order as nat);
                lemma_pow2_pos(order as nat);
            }
            while count - index >= size
                invariant
                    order < MAX_ORDER,
                    size == pow2(order as nat),
                    size >= 1,
                    index <= count,
                    a.bounds_ok(),
                    a.lists_ok(),
                    a.members_ok(),
                    a.free_complete(),
                    a.frames@.len() == count,
                    a.base_addr == base_addr,
                    (index as int) % (pow2(order as nat) as int) == 0,
                    a.sum_free() == index,
                    forall|u: int| index <= u < count ==> (#[trigger] a.frames@[u]).element.used,
                    forall|o2: int, m: usize|
                        0 <= o2 < MAX_ORDER && (#[trigger] a.free_lists@[o2]@.contains(m)) ==> m
                            + pow2(o2 as nat) <= index,
                    forall|o2: int|
                        0 <= o2 < order ==> (#[trigger] a.free_lists@[o2])@.len() == 0,
                    forall|o2: int|
                        order < o2 < MAX_ORDER - 1 ==> (#[trigger] a.free_lists@[o2])@.len() <= 1,
                    order < MAX_ORDER - 1 ==> ((a.free_lists@[order as int]@.len() == 0 && count
                        - index < pow2((order + 1) as nat)) || (a.free_lists@[
                        order as int
                    ]@.len() == 1 && count - index < pow2(order as nat))),
                decreases count - index,
            {
                proof {
                    lemma_pow2_adds(order as nat, 1);
                    lemma2_to64();
                }
                proof {
                    lemma_pow2_pos(order as nat);
                    assert forall|o2: int|
                        0 <= o2 < MAX_ORDER implies !(#[trigger] a.free_lists@[o2])@.contains(
                        index) by {
                        if a.free_lists@[o2]@.contains(index) {
                            lemma_pow2_pos(o2 as nat);
                        }
                    }
                }
                a.set_frame(index, false, order);
                proof {
                    assert(a.member_ok(index as int, order as int));
                    assert forall|o2: int|
                        0 <= o2 < MAX_ORDER implies !(#[trigger] a.free_lists@[o2])@.contains(
                        index) by {
                        if a.free_lists@[o2]@.contains(index) {
                            lemma_pow2_pos(o2 as nat);
                        }
                    }
                }
                a.push_free(order, index);
                proof {
                    lemma_mod_add_multiples_vanish(index as int, size as int);
                }
                index = index + size;
            }
        }
        proof {
            assert(index == count);
            assert(a.free_complete());
            assert(a.no_free_buddy_pairs()) by {
                assert forall|o2: int, m1: usize, m2: usize|
                    0 <= o2 < MAX_ORDER - 1 && #[trigger] a.free_lists@[o2]@.contains(m1)
                        && #[trigger] a.free_lists@[o2]@.contains(m2) implies m2 as int
                    != buddy_of(m1 as int, o2 as nat) by {
                    let s = a.free_lists@[o2]@;
                    assert(s.len() <= 1);
                    let k1 = choose|k: int| 0 <= k < s.len() && s[k] == m1;
                    let k2 = choose|k: int| 0 <= k < s.len() && s[k] == m2;
                    assert(k1 == 0 && k2 == 0);
                    lemma_pow2_pos(o2 as nat);
                }
            }
            assert(a.wf());
        }
        a
    }
}

impl BuddyAllocator {
    /// Serves a block of `2^request_order` units: scans the free lists
    /// upward from `request_order`, pops the first nonempty one and splits
    /// the popped block back down, pushing each split-off upper half onto
    /// its own order's free list.  Returns the handle (frame index) of the
    /// allocated block, or `None` exactly when the request order is out of
    /// bounds or no free block of at least that order exists.
    pub fn allocate(&mut self, request_order: usize) -> (r: Option<usize>)
        requires
            old(self).wf(),
        ensures
            final(self).wf(),
            final(self).spec_count() == old(self).spec_count(),
            final(self).spec_base() == old(self).spec_base(),
            r is Some <==> (request_order < MAX_ORDER && exists|o: int|
                request_order <= o < MAX_ORDER && old(self).spec_free_count(o) != 0),
            r is None ==> *final(self) == *old(self),
            r matches Some(h) ==> {
                &&& h < old(self).spec_count()
                &&& !old(self).spec_frame(h as int).spec_is_used()
                &&& final(self).allocated_block_ok(h as int, request_order as int)
                &&& final(self).sum_free() + pow2(request_order as nat) == old(self).sum_free()
                &&& forall|j: int, o: int|
                    #[trigger] old(self).allocated_block_ok(j, o) ==> j != h
                &&& exists|k: int|
                    {
                        &&& request_order <= k < MAX_ORDER
                        &&& #[trigger] old(self).spec_free_count(k) != 0
                        &&& (h as int) % (pow2(k as nat) as int) == 0
                        &&& forall|o: int|
                            0 <= o < MAX_ORDER ==> (#[trigger] final(self).spec_free_count(o))
                                as int == old(self).spec_free_count(o) + (
                            if request_order <= o < k {
                                1int
                            } else {
                                0
                            }) - (
                            if o == k {
                                1int
                            } else {
                                0
                            })
                        &&& forall|i: int|
                            request_order <= i < k ==> #[trigger] final(self).can_merge(
                                h as int,
                                i,
                            )
                        &&& (k < MAX_ORDER - 1 ==> !final(self).can_merge(h as int, k))
                    }
            },
            forall|j: int, o: int|
                #[trigger] old(self).allocated_block_ok(j, o) ==> final(self).allocated_block_ok(
                    j,
                    o,
                ),
    {
        if MAX_ORDER <= request_order {
            return None;
        }
        let ghost pre = *old(self);
        let mut order = request_order;
        while order < MAX_ORDER
            invariant
                pre == *old(self),
                pre.wf(),
                *self == pre,
                request_order <= order <= MAX_ORDER,
                request_order < MAX_ORDER,
                forall|o2: int|
                    request_order <= o2 < order ==> pre.spec_free_count(o2) == 0,
            decreases MAX_ORDER - order,
        {
            let popped = self.pop_free(order);
            match popped {
                None => {
                    order = order + 1;
                }
                Some(b) => {
                    let found_order = order;
                    proof {
                        assert(pre.member_ok(b as int, found_order as int));
                        lemma_pow2_pos(found_order as nat);
                        lemma_pow2_pos(request_order as nat);
                        lemma_pow2_le(request_order as nat, found_order as nat);
                    }
                    self.set_frame(b, true, request_order);
                    proof {
                        assert(b < self.frames@.len());
                        assert(b as int + pow2(found_order as nat) <= self.frames@.len());
                        assert(self.frames@[b as int].element.used);
                        assert(self.frames@[b as int].element.order == request_order);
                        assert forall|u: int|
                            b < u < b + pow2(found_order as nat) implies (#[trigger] self
                            .frames@[u]).element.used by {
                            assert(pre.frames@[u].element.used);
                        }
                        assert(self.no_free_buddy_pairs()) by {
                            assert forall|o2: int, m1: usize, m2: usize|
                                0 <= o2 < MAX_ORDER - 1 && #[trigger] self.free_lists@[o2]@.contains(
                                m1) && #[trigger] self.free_lists@[o2]@.contains(m2)
                                implies m2 as int != buddy_of(m1 as int, o2 as nat) by {
                                assert(pre.free_lists@[o2]@.contains(m1));
                                assert(pre.free_lists@[o2]@.contains(m2));
                            }
                        }
                        if found_order < MAX_ORDER - 1 {
                            let bk = buddy_of(b as int, found_order as nat);
                            lemma_buddy_shape(b as int, found_order as nat);
                            assert(bk >= 0 && bk != b);
                            if bk < pre.frames@.len() && !pre.frames@[bk].element.used
                                && pre.frames@[bk].element.order == found_order {
                                assert(pre.free_lists@[found_order as int]@.contains(
                                    bk as usize,
                                ));
                                assert(pre.free_lists@[found_order as int]@.contains(b));
                                assert(bk as usize as int != buddy_of(
                                    b as int,
                                    found_order as nat,
                                ));
                                assert(false);
                            }
                            if bk < pre.frames@.len() {
                                assert(self.frames@[bk].element == pre.frames@[bk].element);
                            }
                        }
                        assert forall|o2: int, m: usize|
                            0 <= o2 < MAX_ORDER && (#[trigger] self.free_lists@[o2]@.contains(m))
                                implies ((m + pow2(o2 as nat) <= b || b + pow2(
                                request_order as nat,
                            ) <= m) && (m + pow2(o2 as nat) <= b + pow2(request_order as nat)
                                || b + pow2(found_order as nat) <= m)) by {
                            assert(pre.free_lists@[o2]@.contains(m));
                            assert(pre.member_ok(m as int, o2));
                            lemma_blocks_disjoint(
                                pre.frames@,
                                m as int,
                                o2 as nat,
                                b as int,
                                found_order as nat,
                            );
                        }
                    }
                    let mut i = request_order;
                    while i < found_order
                        invariant
                            request_order <= i <= found_order < MAX_ORDER,
                            self.bounds_ok(),
                            self.lists_ok(),
                            self.members_ok(),
                            self.free_complete(),
                            self.frames@.len() == pre.frames@.len(),
                            self.base_addr == pre.base_addr,
                            b as int + pow2(found_order as nat) <= self.frames@.len(),
                            (b as int) % (pow2(found_order as nat) as int) == 0,
                            self.frames@[b as int].element.used,
                            self.frames@[b as int].element.order == request_order,
                            forall|u: int|
                                b < u < b + pow2(request_order as nat) ==> (#[trigger] self
                                    .frames@[u]).element.used,
                            forall|u: int|
                                b + pow2(i as nat) <= u < b + pow2(found_order as nat)
                                    ==> (#[trigger] self.frames@[u]).element.used,
                            forall|o2: int, m: usize|
                                0 <= o2 < MAX_ORDER && (#[trigger] self.free_lists@[o2]@.contains(
                                    m,
                                )) ==> ((m + pow2(o2 as nat) <= b || b + pow2(
                                    request_order as nat,
                                ) <= m) && (m + pow2(o2 as nat) <= b + pow2(i as nat) || b + pow2(
                                    found_order as nat,
                                ) <= m)),
                            self.no_free_buddy_pairs(),
                            self.sum_free() + pow2(found_order as nat) + pow2(
                                request_order as nat,
                            ) == pre.sum_free() + pow2(i as nat),
                            self.free_counts@.len() == MAX_ORDER,
                            forall|o2: int|
                                0 <= o2 < MAX_ORDER ==> (#[trigger] self.free_counts@[o2]) as int
                                    == pre.free_counts@[o2] + (
                                if request_order <= o2 < i {
                                    1int
                                } else {
                                    0
                                }) - (
                                if o2 == found_order {
                                    1int
                                } else {
                                    0
                                }),
                            forall|i2: int|
                                request_order <= i2 < i ==> !(#[trigger] self.frames@[b + pow2(
                                    i2 as nat,
                                )]).element.used && self.frames@[b + pow2(i2 as nat)].element.order
                                    == i2,
                            found_order < MAX_ORDER - 1 ==> (buddy_of(
                                b as int,
                                found_order as nat,
                            ) >= self.frames@.len() || self.frames@[buddy_of(
                                b as int,
                                found_order as nat,
                            )].element.used || self.frames@[buddy_of(
                                b as int,
                                found_order as nat,
                            )].element.order != found_order),
                            forall|u: int|
                                0 <= u < pre.frames@.len() && !(b <= u < b + pow2(
                                    found_order as nat,
                                )) ==> (#[trigger] self.frames@[u]).element
                                    == pre.frames@[u].element,
                            forall|o2: int, m: usize|
                                0 <= o2 < MAX_ORDER && (#[trigger] self.free_lists@[o2]@.contains(
                                    m,
                                )) ==> (pre.free_lists@[o2]@.contains(m) || (b <= m && m + pow2(
                                    o2 as nat,
                                ) <= b + pow2(found_order as nat))),
                        decreases found_order - i,
                    {
                        let ghost it_head = *self;
                        let bsize = pow2_usize(i);
                        proof {
                            lemma_pow2_pos(i as nat);
                            lemma_pow2_le(i as nat, MAX_ORDER as nat);
                            lemma_pow2_le((i + 1) as nat, found_order as nat);
                            lemma_pow2_adds(i as nat, 1);
                            lemma2_to64();
                        }
                        let jb = b + bsize;
                        proof {
                            lemma_aligned_weaken(
                                b as int,
                                found_order as nat,
                                (i + 1) as nat,
                            );
                            lemma_even_half(b as int, i as nat);
                            assert(jb as int == b + pow2(i as nat));
                            assert(jb + bsize == b + pow2((i + 1) as nat));
                            assert((jb as int) % (pow2(i as nat) as int) == 0) by {
                                lemma_mod_add_multiples_vanish(b as int, pow2(i as nat) as int);
                            }
                            assert(self.frames@[jb as int].element.used);
                            assert forall|o2: int|
                                0 <= o2 < MAX_ORDER implies !(#[trigger] self
                                .free_lists@[o2])@.contains(jb) by {
                                if self.free_lists@[o2]@.contains(jb) {
                                    assert(self.member_ok(jb as int, o2));
                                }
                            }
                        }
                        self.set_frame(jb, false, i);
                        proof {
                            assert(self.member_ok(jb as int, i as int));
                            assert forall|o2: int|
                                0 <= o2 < MAX_ORDER implies !(#[trigger] self
                                .free_lists@[o2])@.contains(jb) by {
                                if self.free_lists@[o2]@.contains(jb) {
                                    assert(self.member_ok(jb as int, o2));
                                }
                            }
                        }
                        let ghost before_push = *self;
                        self.push_free(i, jb);
                        proof {
                            lemma_pow2_adds(i as nat, 1);
                            lemma2_to64();
                            lemma_pow2_pos(i as nat);
                            assert(buddy_of(jb as int, i as nat) == b as int) by {
                                lemma_aligned_weaken(
                                    b as int,
                                    found_order as nat,
                                    (i + 1) as nat,
                                );
                                lemma_even_half(b as int, i as nat);
                                lemma_div_plus_one(b as int, pow2(i as nat) as int);
                                lemma_mod_add_multiples_vanish(b as int, pow2(i as nat) as int);
                                lemma_buddy_shape(jb as int, i as nat);
                            }
                            assert(self.no_free_buddy_pairs()) by {
                                assert forall|o2: int, m1: usize, m2: usize|
                                    0 <= o2 < MAX_ORDER - 1 && #[trigger] self.free_lists@[o2]@.contains(
                                    m1) && #[trigger] self.free_lists@[o2]@.contains(m2)
                                    implies m2 as int != buddy_of(m1 as int, o2 as nat) by {
                                    if m1 != jb && m2 != jb {
                                        assert(it_head.free_lists@[o2]@.contains(m1));
                                        assert(it_head.free_lists@[o2]@.contains(m2));
                                    } else {
                                        assert(o2 == i as int);
                                        if m2 == jb && m1 != jb {
                                            if m2 as int == buddy_of(m1 as int, o2 as nat) {
                                                lemma_buddy_involution(m1 as int, i as nat);
                                                assert(m1 == b);
                                                assert(before_push.free_lists@[o2]@.contains(m1));
                                                assert(before_push.member_ok(m1 as int, o2));
                                            }
                                        } else if m1 == jb {
                                            if m2 as int == buddy_of(jb as int, i as nat) {
                                                assert(m2 == b);
                                                assert(before_push.free_lists@[o2]@.contains(m2));
                                                assert(before_push.member_ok(m2 as int, o2));
                                            }
                                        }
                                    }
                                }
                            }
                            assert forall|i2: int|
                                request_order <= i2 < i + 1 implies !(#[trigger] self.frames@[b
                                + pow2(i2 as nat)]).element.used && self.frames@[b + pow2(
                                i2 as nat,
                            )].element.order == i2 by {
                                if i2 < i {
                                    lemma_pow2_strictly_increases(i2 as nat, i as nat);
                                    assert(b + pow2(i2 as nat) != jb);
                                    assert(self.frames@[b + pow2(i2 as nat)].element
                                        == it_head.frames@[b + pow2(i2 as nat)].element);
                                } else {
                                    assert(b + pow2(i2 as nat) == jb);
                                }
                            }
                            if found_order < MAX_ORDER - 1 {
                                let bk = buddy_of(b as int, found_order as nat);
                                lemma_buddy_shape(b as int, found_order as nat);
                                lemma_pow2_strictly_increases(i as nat, found_order as nat);
                                if 0 <= bk < self.frames@.len() {
                                    assert(bk != jb);
                                    assert(self.frames@[bk].element
                                        == it_head.frames@[bk].element);
                                }
                            }
                        }
                        i = i + 1;
                    }
                    proof {
                        lemma_aligned_weaken(
                            b as int,
                            found_order as nat,
                            request_order as nat,
                        );
                        assert(self.allocated_block_ok(b as int, request_order as int));
                        assert(self.sum_free() + pow2(request_order as nat) == pre.sum_free());
                        assert(self.sum_free() <= self.frames@.len());
                        assert(self.wf());
                        assert(pre.spec_free_count(found_order as int) != 0);
                        assert forall|i2: int|
                            request_order <= i2 < found_order implies #[trigger] self.can_merge(
                            b as int, i2) by {
                            lemma_aligned_weaken(
                                b as int,
                                found_order as nat,
                                (i2 + 1) as nat,
                            );
                            lemma_even_half(b as int, i2 as nat);
                            lemma_pow2_strictly_increases(i2 as nat, found_order as nat);
                            assert(buddy_of(b as int, i2 as nat) == b + pow2(i2 as nat));
                        }
                        assert(found_order < MAX_ORDER - 1 ==> !self.can_merge(
                            b as int,
                            found_order as int,
                        ));
                        assert forall|o2: int|
                            0 <= o2 < MAX_ORDER implies (#[trigger] self.spec_free_count(o2))
                            as int == pre.spec_free_count(o2) + (
                        if request_order <= o2 < found_order {
                            1int
                        } else {
                            0
                        }) - (
                        if o2 == found_order {
                            1int
                        } else {
                            0
                        }) by {}
                        assert(pre.free_lists@[found_order as int]@.contains(b));
                        assert forall|j: int, o: int|
                            #[trigger] pre.allocated_block_ok(j, o)
                            implies self.allocated_block_ok(j, o) by {
                            lemma_pow2_pos(o as nat);
                            assert(j + pow2(o as nat) <= b || b + pow2(found_order as nat) <= j);
                            assert forall|u: int|
                                j <= u < j + pow2(o as nat) implies (#[trigger] self
                                .frames@[u]).element == pre.frames@[u].element by {
                                assert(!(b <= u < b + pow2(found_order as nat)));
                            }
                            assert(self.frames@[j].element == pre.frames@[j].element);
                            assert forall|u: int|
                                j < u < j + pow2(o as nat) implies (#[trigger] self
                                .frames@[u]).element.used by {
                                assert(self.frames@[u].element == pre.frames@[u].element);
                                assert(pre.frames@[u].element.used);
                            }
                            assert forall|o2: int, m: usize|
                                0 <= o2 < MAX_ORDER && #[trigger] self.free_lists@[o2]@.contains(
                                m) implies (m + pow2(o2 as nat) <= j || j + pow2(o as nat)
                                <= m) by {
                                if !pre.free_lists@[o2]@.contains(m) {
                                    assert(b <= m && m + pow2(o2 as nat) <= b + pow2(
                                        found_order as nat,
                                    ));
                                }
                            }
                        }
                    }
                    return Some(b);
                }
            }
        }
        proof {
            assert forall|o2: int|
                request_order <= o2 < MAX_ORDER implies pre.spec_free_count(o2) == 0 by {}
        }
        None
    }
}

impl BuddyAllocator {
    /// Returns the block headed by `obj` to the allocator, coalescing it
    /// with its buddy as long as the buddy heads a free block of the same
    /// order (the lower-addressed half survives as the representative),
    /// and never merging past the top order.  The freed units are added
    /// back to the free unit count.
    ///
    /// The handle must head a live allocated block
    /// ([`Self::allocated_block_ok`], which `allocate` establishes);
    /// freeing anything else — a double free, an interior unit, a foreign
    /// index — is a contract violation.  The last precondition says the
    /// arena has room for the returned units, which holds of every
    /// genuinely outstanding handle, since its allocation removed that
    /// many units from the count.
    pub fn free(&mut self, obj: usize)
        requires
            old(self).wf(),
            old(self).allocated_block_ok(
                obj as int,
                old(self).spec_frame(obj as int).spec_order() as int,
            ),
            old(self).sum_free() + pow2(old(self).spec_frame(obj as int).spec_order() as nat)
                <= old(self).spec_count(),
        ensures
            final(self).wf(),
            final(self).spec_count() == old(self).spec_count(),
            final(self).spec_base() == old(self).spec_base(),
            final(self).sum_free() == old(self).sum_free() + pow2(
                old(self).spec_frame(obj as int).spec_order() as nat,
            ),
            exists|m: int|
                {
                    &&& old(self).spec_frame(obj as int).spec_order() <= m < MAX_ORDER
                    &&& #[trigger] old(self).merge_steps(
                        obj as int,
                        old(self).spec_frame(obj as int).spec_order() as int,
                        m,
                    )
                    &&& (m == MAX_ORDER - 1 || !old(self).can_merge(
                        old(self).merge_rep(
                            obj as int,
                            old(self).spec_frame(obj as int).spec_order() as int,
                            m,
                        ),
                        m,
                    ))
                    &&& forall|o: int|
                        0 <= o < MAX_ORDER ==> (#[trigger] final(self).spec_free_count(o)) as int
                            == old(self).spec_free_count(o) + (
                        if o == m {
                            1int
                        } else {
                            0
                        }) - (
                        if old(self).spec_frame(obj as int).spec_order() <= o < m {
                            1int
                        } else {
                            0
                        })
                },
    {
        let ghost pre = *old(self);
        let ghost o0 = pre.spec_frame(obj as int).spec_order();
        proof {
            lemma_pow2_pos(o0 as nat);
        }
        let order0 = self.frames[obj].element.order();
        let mut cur = obj;
        let mut i = order0;
        let mut merging = true;
        while merging && i < MAX_ORDER - 1
            invariant
                pre == *old(self),
                o0 == pre.spec_frame(obj as int).spec_order(),
                o0 <= i < MAX_ORDER,
                pre.sum_free() + pow2(o0 as nat) <= pre.frames@.len(),
                self.bounds_ok(),
                self.lists_ok(),
                self.members_ok(),
                self.free_complete(),
                self.no_free_buddy_pairs(),
                self.frames@.len() == pre.frames@.len(),
                self.base_addr == pre.base_addr,
                cur as int + pow2(i as nat) <= self.frames@.len(),
                (cur as int) % (pow2(i as nat) as int) == 0,
                self.frames@[cur as int].element.used,
                forall|u: int|
                    cur < u < cur + pow2(i as nat) ==> (#[trigger] self.frames@[u]).element.used,
                forall|o2: int, m: usize|
                    0 <= o2 < MAX_ORDER && (#[trigger] self.free_lists@[o2]@.contains(m)) ==> (m
                        + pow2(o2 as nat) <= cur || cur + pow2(i as nat) <= m),
                self.sum_free() + pow2(i as nat) == pre.sum_free() + pow2(o0 as nat),
                !merging ==> (buddy_of(cur as int, i as nat) >= self.frames@.len()
                    || self.frames@[buddy_of(cur as int, i as nat)].element.used
                    || self.frames@[buddy_of(cur as int, i as nat)].element.order != i),
                pre.merge_steps(obj as int, o0 as int, i as int),
                cur as int == pre.merge_rep(obj as int, o0 as int, i as int),
                forall|u: int|
                    0 <= u < pre.frames@.len() && !(cur <= u < cur + pow2(i as nat))
                        ==> (#[trigger] self.frames@[u]).element == pre.frames@[u].element,
                self.free_counts@.len() == MAX_ORDER,
                forall|o2: int|
                    0 <= o2 < MAX_ORDER ==> (#[trigger] self.free_counts@[o2]) as int
                        == pre.free_counts@[o2] - (
                    if o0 <= o2 < i {
                        1int
                    } else {
                        0
                    }),
            decreases MAX_ORDER - i, (if merging { 1int } else { 0int }),
        {
            let ghost at_head = *self;
            proof {
                lemma_pow2_pos(i as nat);
                lemma_pow2_le(o0 as nat, i as nat);
                assert(self.sum_free() <= self.frames@.len());
                assert(self.wf());
            }
            let bopt = self.buddy(cur, i);
            match bopt {
                None => {
                    proof {
                        lemma_buddy_shape(cur as int, i as nat);
                    }
                    merging = false;
                }
                Some(bd) => {
                    let f = self.frames[bd].element;
                    if f.is_used() {
                        merging = false;
                    } else if f.order() != i {
                        merging = false;
                    } else {
                    proof {
                        assert(self.free_lists@[i as int]@.contains(bd));
                        assert(self.member_ok(bd as int, i as int));
                        lemma_buddy_shape(cur as int, i as nat);
                        lemma_pow2_adds(i as nat, 1);
                        lemma2_to64();
                    }
                    self.detach_free(i, bd);
                    let ghost mid = *self;
                    let lo: usize;
                    let hi: usize;
                    if bd < cur {
                        lo = bd;
                        hi = cur;
                    } else {
                        lo = cur;
                        hi = bd;
                    }
                    self.set_frame(hi, true, i);
                    self.set_frame(lo, true, i + 1);
                    proof {
                        lemma_pow2_adds(i as nat, 1);
                        lemma2_to64();
                        assert((lo as int) % (pow2((i + 1) as nat) as int) == 0);
                        assert(lo as int + pow2((i + 1) as nat) <= self.frames@.len());
                        assert forall|u: int|
                            lo < u < lo + pow2((i + 1) as nat) implies (#[trigger] self
                            .frames@[u]).element.used by {
                            if u != hi {
                                assert(self.frames@[u].element == mid.frames@[u].element);
                                if cur < u < cur + pow2(i as nat) {
                                    assert(mid.frames@[u].element.used);
                                } else {
                                    assert(bd < u < bd + pow2(i as nat));
                                    assert(mid.frames@[u].element.used);
                                }
                            }
                        }
                        assert forall|o2: int, m: usize|
                            0 <= o2 < MAX_ORDER && (#[trigger] self.free_lists@[o2]@.contains(m))
                                implies (m + pow2(o2 as nat) <= lo || lo + pow2((i + 1) as nat)
                                <= m) by {
                            assert(mid.free_lists@[o2]@.contains(m));
                            assert(mid.member_ok(m as int, o2));
                            assert(m != bd);
                            lemma_blocks_disjoint(
                                mid.frames@,
                                m as int,
                                o2 as nat,
                                bd as int,
                                i as nat,
                            );
                        }
                        assert forall|o2: int, j2: usize|
                            0 <= o2 < MAX_ORDER && (#[trigger] self.free_lists@[o2]@.contains(j2))
                                implies self.member_ok(j2 as int, o2) by {
                            assert(mid.free_lists@[o2]@.contains(j2));
                            assert(mid.member_ok(j2 as int, o2));
                            assert(j2 != bd && j2 != cur);
                        }
                        assert(self.free_complete()) by {
                            assert forall|j2: int|
                                0 <= j2 < self.frames@.len() && !(#[trigger] self
                                .frames@[j2]).element.used implies {
                                &&& self.frames@[j2].element.order < MAX_ORDER
                                &&& self.free_lists@[self.frames@[j2].element.order as int]@.contains(
                                    j2 as usize,
                                )
                            } by {
                                assert(j2 != hi && j2 != lo);
                                assert(!mid.frames@[j2].element.used);
                            }
                        }
                        assert(self.no_free_buddy_pairs()) by {
                            assert forall|o2: int, m1: usize, m2: usize|
                                0 <= o2 < MAX_ORDER - 1 && #[trigger] self.free_lists@[o2]@.contains(
                                m1) && #[trigger] self.free_lists@[o2]@.contains(m2)
                                implies m2 as int != buddy_of(m1 as int, o2 as nat) by {
                                assert(at_head.free_lists@[o2]@.contains(m1));
                                assert(at_head.free_lists@[o2]@.contains(m2));
                            }
                        }
                        lemma_buddy_shape(cur as int, i as nat);
                        assert(bd as int == buddy_of(cur as int, i as nat));
                        assert(!(cur <= bd < cur + pow2(i as nat)));
                        assert(pre.can_merge(cur as int, i as int)) by {
                            assert(at_head.frames@[bd as int].element
                                == pre.frames@[bd as int].element);
                        }
                        assert(pre.merge_steps(obj as int, o0 as int, (i + 1) as int));
                        assert(lo as int == pre.merge_rep(obj as int, o0 as int, (i + 1) as int));
                        assert forall|u: int|
                            0 <= u < pre.frames@.len() && !(lo <= u < lo + pow2((i + 1) as nat))
                            implies (#[trigger] self.frames@[u]).element
                            == pre.frames@[u].element by {
                            assert(u != hi && u != lo);
                            assert(self.frames@[u].element == mid.frames@[u].element);
                            assert(mid.frames@[u].element == at_head.frames@[u].element);
                            assert(!(cur <= u < cur + pow2(i as nat)));
                            assert(at_head.frames@[u].element == pre.frames@[u].element);
                        }
                        assert forall|o2: int|
                            0 <= o2 < MAX_ORDER implies (#[trigger] self.free_counts@[o2]) as int
                            == pre.free_counts@[o2] - (
                        if o0 <= o2 < i + 1 {
                            1int
                        } else {
                            0
                        }) by {}
                    }
                    cur = lo;
                    i = i + 1;
                    }
                }
            }
        }
        let ghost at_exit = *self;
        proof {
            lemma_pow2_pos(i as nat);
            assert(cur < self.frames@.len());
            assert forall|o2: int|
                0 <= o2 < MAX_ORDER implies !(#[trigger] self.free_lists@[o2])@.contains(cur) by {
                if self.free_lists@[o2]@.contains(cur) {
                    assert(self.member_ok(cur as int, o2));
                }
            }
        }
        self.set_frame(cur, false, i);
        proof {
            assert(self.member_ok(cur as int, i as int)) by {
                assert forall|u: int|
                    cur < u < cur + pow2(i as nat) implies (#[trigger] self
                    .frames@[u]).element.used by {}
            }
            assert forall|o2: int|
                0 <= o2 < MAX_ORDER implies !(#[trigger] self.free_lists@[o2])@.contains(cur) by {}
        }
        let ghost fin0 = *self;
        self.push_free(i, cur);
        proof {
            assert(forall|m: int|
                0 <= m < at_exit.frames@.len() && m != cur ==> #[trigger] fin0.frames@[m]
                    == at_exit.frames@[m]);
            assert(self.free_complete());
            assert(self.sum_free() == pre.sum_free() + pow2(o0 as nat));
            assert(self.no_free_buddy_pairs()) by {
                lemma_pow2_pos(i as nat);
                assert forall|o2: int, m1: usize, m2: usize|
                    0 <= o2 < MAX_ORDER - 1 && #[trigger] self.free_lists@[o2]@.contains(m1)
                        && #[trigger] self.free_lists@[o2]@.contains(m2) implies m2 as int
                    != buddy_of(m1 as int, o2 as nat) by {
                    if m1 != cur && m2 != cur {
                        assert(fin0.free_lists@[o2]@.contains(m1));
                        assert(fin0.free_lists@[o2]@.contains(m2));
                    } else {
                        assert(o2 == i as int);
                        assert(i < MAX_ORDER - 1);
                        assert(!merging);
                        let bd = buddy_of(cur as int, i as nat);
                        assert(bd >= 0 && bd != cur) by {
                            lemma_buddy_shape(cur as int, i as nat);
                        }
                        assert(bd >= at_exit.frames@.len() || at_exit.frames@[bd].element.used
                            || at_exit.frames@[bd].element.order != i);
                        assert(bd < fin0.frames@.len() ==> fin0.frames@[bd]
                            == at_exit.frames@[bd]);
                        assert(bd < self.frames@.len() ==> self.frames@[bd].element
                            == fin0.frames@[bd].element);
                        assert(bd < self.frames@.len() ==> self.frames@[bd].element
                            == at_exit.frames@[bd].element);
                        assert(bd >= self.frames@.len() || self.frames@[bd].element.used
                            || self.frames@[bd].element.order != i);
                        if m1 == cur && m2 != cur {
                            if m2 as int == bd {
                                assert(self.member_ok(m2 as int, o2));
                            }
                        } else if m2 == cur && m1 != cur {
                            if cur as int == buddy_of(m1 as int, o2 as nat) {
                                lemma_buddy_involution(m1 as int, i as nat);
                                assert(m1 as int == bd);
                                assert(self.member_ok(m1 as int, o2));
                            }
                        }
                    }
                }
            }
            assert(self.wf());
            assert(pre.merge_steps(obj as int, o0 as int, i as int));
            assert(cur as int == pre.merge_rep(obj as int, o0 as int, i as int));
            assert(i == MAX_ORDER - 1 || !pre.can_merge(
                pre.merge_rep(obj as int, o0 as int, i as int),
                i as int,
            )) by {
                if i < MAX_ORDER - 1 {
                    assert(!merging);
                    let bd = buddy_of(cur as int, i as nat);
                    lemma_buddy_shape(cur as int, i as nat);
                    assert(!(cur <= bd < cur + pow2(i as nat)));
                    if 0 <= bd < pre.frames@.len() {
                        assert(at_exit.frames@[bd].element == pre.frames@[bd].element);
                    }
                }
            }
            assert forall|o: int|
                0 <= o < MAX_ORDER implies (#[trigger] self.spec_free_count(o)) as int
                == pre.spec_free_count(o) + (
            if o == i {
                1int
            } else {
                0
            }) - (
            if o0 <= o < i {
                1int
            } else {
                0
            }) by {}
        }
    }
}

impl BuddyAllocator {
    /// Law: the free unit count is zero exactly when every per-order free
    /// list is empty — so a request of order zero succeeds as long as any
    /// free unit remains, and exhaustion means every list has emptied.
    pub proof fn lemma_free_units_zero_iff(&self)
        requires
            self.wf(),
        ensures
            self.sum_free() == 0 <==> (forall|o: int|
                0 <= o < MAX_ORDER ==> self.spec_free_count(o) == 0),
    {
        lemma_sum_zero_iff(self.free_counts@, MAX_ORDER as nat);
        if self.sum_free() == 0 {
            assert forall|o: int| 0 <= o < MAX_ORDER implies self.spec_free_count(o) == 0 by {
                assert(self.free_counts@[o] == 0);
            }
        }
        if forall|o: int| 0 <= o < MAX_ORDER ==> self.spec_free_count(o) == 0 {
            assert forall|o: int| 0 <= o < MAX_ORDER implies self.free_counts@[o] == 0 by {
                assert(self.spec_free_count(o) == 0);
            }
        }
    }

    /// Law: allocating a block and immediately freeing it restores the
    /// free unit count and every per-order free count to their
    /// pre-allocation values; a failed allocation leaves the allocator
    /// untouched.  The merge chain of the free walks exactly back up the
    /// split chain of the allocation: below the found order every buddy is
    /// the freshly split-off half, and at the found order the buddy cannot
    /// head a free block of that order, since the two would already have
    /// been coalesced.
    pub fn allocate_then_free(&mut self, request_order: usize) -> (r: bool)
        requires
            old(self).wf(),
        ensures
            final(self).wf(),
            final(self).sum_free() == old(self).sum_free(),
            forall|o: int|
                0 <= o < MAX_ORDER ==> final(self).spec_free_count(o) == old(
                    self,
                ).spec_free_count(o),
            r <==> (request_order < MAX_ORDER && exists|o: int|
                request_order <= o < MAX_ORDER && old(self).spec_free_count(o) != 0),
    {
        let ghost s0 = *old(self);
        match self.allocate(request_order) {
            Some(obj) => {
                let ghost s1 = *self;
                let ghost k = choose|k: int|
                    {
                        &&& request_order <= k < MAX_ORDER
                        &&& #[trigger] s0.spec_free_count(k) != 0
                        &&& (obj as int) % (pow2(k as nat) as int) == 0
                        &&& forall|o: int|
                            0 <= o < MAX_ORDER ==> (#[trigger] s1.spec_free_count(o)) as int
                                == s0.spec_free_count(o) + (
                            if request_order <= o < k {
                                1int
                            } else {
                                0
                            }) - (
                            if o == k {
                                1int
                            } else {
                                0
                            })
                        &&& forall|i: int|
                            request_order <= i < k ==> #[trigger] s1.can_merge(obj as int, i)
                        &&& (k < MAX_ORDER - 1 ==> !s1.can_merge(obj as int, k))
                    };
                self.free(obj);
                proof {
                    let o0 = s1.spec_frame(obj as int).spec_order() as int;
                    assert(o0 == request_order);
                    let m = choose|m: int|
                        {
                            &&& o0 <= m < MAX_ORDER
                            &&& #[trigger] s1.merge_steps(obj as int, o0, m)
                            &&& (m == MAX_ORDER - 1 || !s1.can_merge(
                                s1.merge_rep(obj as int, o0, m),
                                m,
                            ))
                            &&& forall|o: int|
                                0 <= o < MAX_ORDER ==> (#[trigger] self.spec_free_count(o)) as int
                                    == s1.spec_free_count(o) + (
                                if o == m {
                                    1int
                                } else {
                                    0
                                }) - (
                                if o0 <= o < m {
                                    1int
                                } else {
                                    0
                                })
                        };
                    if m < k {
                        assert(m < MAX_ORDER - 1);
                        s1.lemma_merge_rep_stays(obj as int, o0, m, k);
                        assert(s1.can_merge(obj as int, m));
                        assert(false);
                    }
                    if m > k {
                        assert(k < MAX_ORDER - 1);
                        s1.lemma_merge_steps_at(obj as int, o0, k, m);
                        s1.lemma_merge_rep_stays(obj as int, o0, k, k);
                        assert(s1.can_merge(obj as int, k));
                        assert(false);
                    }
                    assert(m == k);
                    assert forall|o: int|
                        0 <= o < MAX_ORDER implies self.spec_free_count(o) == s0.spec_free_count(
                        o) by {}
                }
                true
            }
            None => false,
        }
    }
}

/// Sums over per-order counts agree whenever the first `n` counts agree.
pub proof fn lemma_sum_congruence(c1: Seq<usize>, c2: Seq<usize>, n: nat)
    requires
        forall|k: int| 0 <= k < n ==> c1[k] == c2[k],
    ensures
        sum_free_units(c1, n) == sum_free_units(c2, n),
    decreases n,
{
    if n > 0 {
        lemma_sum_congruence(c1, c2, (n - 1) as nat);
    }
}

/// Changing the count at one order changes the sum by the corresponding
/// multiple of that order's block size.
pub proof fn lemma_sum_update(c1: Seq<usize>, j: int, v: usize, n: nat)
    requires
        0 <= j < n,
        n <= c1.len(),
    ensures
        sum_free_units(c1.update(j, v), n) + c1[j] * pow2(j as nat) == sum_free_units(c1, n) + v
            * pow2(j as nat),
    decreases n,
{
    let c2 = c1.update(j, v);
    if j == n - 1 {
        lemma_sum_congruence(c1, c2, (n - 1) as nat);
    } else {
        lemma_sum_update(c1, j, v, (n - 1) as nat);
    }
}

/// Summing over more orders never decreases the sum.
pub proof fn lemma_sum_monotonic(c: Seq<usize>, a: nat, b: nat)
    requires
        a <= b,
    ensures
        sum_free_units(c, a) <= sum_free_units(c, b),
    decreases b,
{
    if a < b {
        lemma_sum_monotonic(c, a, (b - 1) as nat);
    }
}

/// The sum over the per-order counts is zero exactly when every count is
/// zero.
pub proof fn lemma_sum_zero_iff(c: Seq<usize>, n: nat)
    ensures
        sum_free_units(c, n) == 0 <==> (forall|k: int| 0 <= k < n ==> c[k] == 0),
    decreases n,
{
    if n > 0 {
        lemma_sum_zero_iff(c, (n - 1) as nat);
        lemma_pow2_pos((n - 1) as nat);
        assert(c[n - 1] * pow2((n - 1) as nat) == 0 <==> c[n - 1] == 0) by {
            if c[n - 1] != 0 {
                lemma_mul_inequality(1, c[n - 1] as int, pow2((n - 1) as nat) as int);
            }
        }
    }
}

} // verus!
