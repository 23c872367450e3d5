//! Layout-header allocator.
//!
//! The hosted environment's memory source only knows about whole blocks it
//! handed out, so every allocation carries a metadata record — the header —
//! at a fixed negative offset from the address returned to the caller.  The
//! header records the block's layout (its reserved extent), which lets
//! growth and release reconstruct the exact block descriptor later.
//!
//! The allocator is modelled explicitly: a [`Heap`] owns a set of blocks,
//! each occupying a half-open address range `[base, base + total)` within a
//! single address space.  The caller-visible pointer of a block is always
//! `base + HEADER_SIZE`.  Released blocks keep their reserved range and may
//! be reused by a later allocation of the same rounded extent, so the
//! classic release-then-allocate pattern can hand the freed region out
//! again without ever overlapping a still-live allocation.
//!
//! The abstract view of a heap is [`Heap::live_map`]: a map from each live
//! caller-visible pointer to the payload bytes stored behind it.  Every
//! operation's contract is stated against this map.

use vstd::prelude::*;
use vstd::arithmetic::div_mod::lemma_add_mod_noop;
use vstd::arithmetic::div_mod::lemma_fundamental_div_mod;
use vstd::pervasive::unreached;

use crate::ShimError;

verus! {

/// Size in bytes of the metadata record stored immediately before each
/// caller-visible pointer: one pointer-aligned descriptor record.
pub const HEADER_SIZE: usize = 16;

/// Worst-case alignment requirement of the linked library's data types.
/// Every caller-visible pointer is aligned to this, regardless of the
/// requested size.
pub const BLOCK_ALIGN: usize = 16;

/// Plain (non-zeroed) allocations and the grown tail of a resized block are
/// filled with this recognizable byte.  The routine being replaced leaves
/// such bytes indeterminate; callers must not rely on their value.
pub const FILL_BYTE: u8 = 0xAA;

/// One block of the address space: the header record (`base`, `total`) plus
/// the payload bytes behind the caller-visible pointer `base + HEADER_SIZE`.
/// A released block keeps its reserved range (`live == false`, no payload)
/// so that the range can be handed out again later.
struct Block {
    base: usize,
    total: usize,
    data: Vec<u8>,
    live: bool,
}

/// The caller-visible pointer of a block: the first address past its header.
spec fn user_of(b: Block) -> int {
    b.base + HEADER_SIZE
}

/// `n` rounded up to the next multiple of `BLOCK_ALIGN`.
pub open spec fn round_up(n: int) -> int {
    if n % (BLOCK_ALIGN as int) == 0 {
        n
    } else {
        (n / (BLOCK_ALIGN as int) + 1) * (BLOCK_ALIGN as int)
    }
}

/// Well-formedness of one block within an address space that ends at `next`:
/// the range is aligned, starts past the null page, lies below `next`, and a
/// live block's reserved extent is exactly the rounded header-plus-payload
/// size recorded at allocation time.
spec fn blk_inv(b: Block, next: int) -> bool {
    &&& b.base >= BLOCK_ALIGN
    &&& b.base as int % (BLOCK_ALIGN as int) == 0
    &&& b.total >= HEADER_SIZE
    &&& b.total as int % (BLOCK_ALIGN as int) == 0
    &&& b.base + b.total <= next
    &&& b.live ==> b.total == round_up(HEADER_SIZE + b.data@.len())
    &&& !b.live ==> b.data@.len() == 0
}

/// Two blocks occupy disjoint address ranges.
spec fn ranges_disjoint(a: Block, b: Block) -> bool {
    a.base + a.total <= b.base || b.base + b.total <= a.base
}

/// Well-formedness of a whole block set: each block is well formed and all
/// reserved ranges are pairwise disjoint.
spec fn blocks_wf(s: Seq<Block>, next: int) -> bool {
    &&& forall|i: int| 0 <= i < s.len() ==> blk_inv(#[trigger] s[i], next)
    &&& forall|i: int, j: int|
        0 <= i < s.len() && 0 <= j < s.len() && i != j ==> ranges_disjoint(
            #[trigger] s[i],
            #[trigger] s[j],
        )
}

/// No two blocks share a caller-visible pointer.
spec fn uniq_users(s: Seq<Block>) -> bool {
    forall|i: int, j: int|
        0 <= i < s.len() && 0 <= j < s.len() && i != j ==> user_of(#[trigger] s[i]) != user_of(
            #[trigger] s[j],
        )
}

/// The abstract contents of a block set: each live block's caller-visible
/// pointer mapped to its payload bytes.
spec fn map_of(s: Seq<Block>) -> Map<int, Seq<u8>>
    decreases s.len(),
{
    if s.len() == 0 {
        Map::empty()
    } else {
        let m = map_of(s.drop_last());
        let b = s.last();
        if b.live {
            m.insert(user_of(b), b.data@)
        } else {
            m
        }
    }
}

/// The payload bytes of a freshly grown-or-shrunk block: the first
/// `min(old, new)` bytes carry over from the original content and any grown
/// tail is set to `FILL_BYTE`.
pub open spec fn resized_bytes(old_data: Seq<u8>, new_len: nat) -> Seq<u8> {
    Seq::new(new_len, |i: int| if i < old_data.len() { old_data[i] } else { FILL_BYTE })
}

/// A sequence of `len` identical bytes.
pub open spec fn filled_bytes(len: nat, b: u8) -> Seq<u8> {
    Seq::new(len, |i: int| b)
}

/// Rounding up to the alignment never moves a value by a whole alignment
/// unit, never moves it down, and always lands on a multiple.
proof fn lemma_round_up(n: int)
    requires
        n >= 0,
    ensures
        round_up(n) >= n,
        round_up(n) < n + BLOCK_ALIGN,
        round_up(n) % (BLOCK_ALIGN as int) == 0,
{
    let a = BLOCK_ALIGN as int;
    lemma_fundamental_div_mod(n, a);
    if n % a != 0 {
        let q = n / a;
        assert(round_up(n) == a * q + a) by {
            assert((q + 1) * a == q * a + a) by (nonlinear_arith);
            assert(q * a == a * q) by (nonlinear_arith);
        }
        assert(round_up(n) % a == 0) by {
            lemma_fundamental_div_mod(round_up(n), a);
            vstd::arithmetic::div_mod::lemma_mod_multiples_basic(q + 1, a);
            assert((a * (q + 1)) % a == 0);
            assert(a * (q + 1) == a * q + a) by (nonlinear_arith);
        }
    }
}

/// Appending a block extends the abstract contents with that block's entry
/// (or leaves them unchanged if the block is dead).
proof fn lemma_map_of_push(s: Seq<Block>, b: Block)
    ensures
        b.live ==> map_of(s.push(b)) == map_of(s).insert(user_of(b), b.data@),
        !b.live ==> map_of(s.push(b)) == map_of(s),
{
    assert(s.push(b).drop_last() =~= s);
    assert(s.push(b).last() == b);
}

/// The abstract contents contain a pointer exactly when some live block
/// carries it.
proof fn lemma_map_of_contains(s: Seq<Block>, p: int)
    ensures
        map_of(s).contains_key(p) <==> exists|i: int|
            0 <= i < s.len() && #[trigger] s[i].live && user_of(s[i]) == p,
    decreases s.len(),
{
    if s.len() > 0 {
        lemma_map_of_contains(s.drop_last(), p);
        let b = s.last();
        if b.live && user_of(b) == p {
            assert(s[s.len() - 1].live && user_of(s[s.len() - 1]) == p);
        } else {
            if exists|i: int| 0 <= i < s.drop_last().len() && #[trigger] s.drop_last()[i].live
                && user_of(s.drop_last()[i]) == p {
                let i = choose|i: int|
                    0 <= i < s.drop_last().len() && #[trigger] s.drop_last()[i].live && user_of(
                        s.drop_last()[i],
                    ) == p;
                assert(s[i].live && user_of(s[i]) == p);
            }
            if exists|i: int| 0 <= i < s.len() && #[trigger] s[i].live && user_of(s[i]) == p {
                let i = choose|i: int|
                    0 <= i < s.len() && #[trigger] s[i].live && user_of(s[i]) == p;
                assert(i < s.len() - 1);
                assert(s.drop_last()[i].live && user_of(s.drop_last()[i]) == p);
            }
        }
    }
}

/// A live block's entry is present in the abstract contents, with exactly
/// its payload bytes, provided no other block shares its pointer.
proof fn lemma_map_of_index(s: Seq<Block>, i: int)
    requires
        0 <= i < s.len(),
        s[i].live,
        uniq_users(s),
    ensures
        map_of(s).contains_key(user_of(s[i])),
        map_of(s)[user_of(s[i])] == s[i].data@,
    decreases s.len(),
{
    let b = s.last();
    if i == s.len() - 1 {
    } else {
        assert(uniq_users(s.drop_last())) by {
            assert(forall|x: int, y: int|
                0 <= x < s.drop_last().len() && 0 <= y < s.drop_last().len() && x != y
                    ==> user_of(#[trigger] s.drop_last()[x]) != user_of(
                    #[trigger] s.drop_last()[y],
                )) by {
                assert(forall|x: int|
                    0 <= x < s.drop_last().len() ==> #[trigger] s.drop_last()[x] == s[x]);
            }
        }
        assert(s.drop_last()[i] == s[i]);
        lemma_map_of_index(s.drop_last(), i);
        if b.live {
            assert(user_of(s[s.len() - 1]) != user_of(s[i]));
        }
    }
}

/// Replacing the block at `i` by another block with the same caller-visible
/// pointer updates the abstract contents pointwise: an entry is written if
/// the new block is live, removed if it is dead.
proof fn lemma_map_of_update(s: Seq<Block>, i: int, b2: Block)
    requires
        0 <= i < s.len(),
        user_of(b2) == user_of(s[i]),
        uniq_users(s),
    ensures
        b2.live ==> map_of(s.update(i, b2)) == map_of(s).insert(user_of(b2), b2.data@),
        !b2.live ==> map_of(s.update(i, b2)) == map_of(s).remove(user_of(b2)),
    decreases s.len(),
{
    let t = s.update(i, b2);
    let u = user_of(b2);
    let m0 = map_of(s.drop_last());
    lemma_map_of_contains(s.drop_last(), u);
    assert(forall|x: int| 0 <= x < s.len() - 1 ==> #[trigger] s.drop_last()[x] == s[x]);
    if i == s.len() - 1 {
        assert(t.drop_last() =~= s.drop_last());
        assert(t.last() == b2);
        // No earlier block carries `u`, so inserting or removing `u`
        // commutes with the last block's own entry.
        assert(!m0.contains_key(u));
        if b2.live {
            if s[i].live {
                assert(m0.insert(u, b2.data@) =~= m0.insert(u, s[i].data@).insert(u, b2.data@));
            }
        } else {
            if s[i].live {
                assert(m0 =~= m0.insert(u, s[i].data@).remove(u));
            } else {
                assert(m0 =~= m0.remove(u));
            }
        }
    } else {
        assert(uniq_users(s.drop_last()));
        assert(s.drop_last()[i] == s[i]);
        lemma_map_of_update(s.drop_last(), i, b2);
        assert(t.drop_last() =~= s.drop_last().update(i, b2));
        assert(t.last() == s.last());
        let b = s.last();
        if b.live {
            assert(user_of(s[s.len() - 1]) != u);
            let ul = user_of(b);
            if b2.live {
                assert(m0.insert(u, b2.data@).insert(ul, b.data@) =~= m0.insert(ul, b.data@).insert(
                    u,
                    b2.data@,
                ));
            } else {
                assert(m0.remove(u).insert(ul, b.data@) =~= m0.insert(ul, b.data@).remove(u));
            }
        }
    }
}

/// Disjoint well-formed blocks never share a caller-visible pointer.
proof fn lemma_wf_uniq(s: Seq<Block>, next: int)
    requires
        blocks_wf(s, next),
    ensures
        uniq_users(s),
{
    assert forall|i: int, j: int|
        0 <= i < s.len() && 0 <= j < s.len() && i != j implies user_of(#[trigger] s[i]) != user_of(
        #[trigger] s[j],
    ) by {
        assert(blk_inv(s[i], next));
        assert(blk_inv(s[j], next));
        assert(ranges_disjoint(s[i], s[j]));
    }
}

/// Builds a vector of `len` bytes, all equal to `fill`.
fn make_filled_vec(len: usize, fill: u8) -> (r: Vec<u8>)
    ensures
        r@ == filled_bytes(len as nat, fill),
{
    let mut v: Vec<u8> = Vec::new();
    let mut i: usize = 0;
    assert(v@ =~= filled_bytes(0nat, fill));
    while i < len
        invariant
            i <= len,
            v@ == filled_bytes(i as nat, fill),
        decreases len - i,
    {
        v.push(fill);
        i = i + 1;
        assert(v@ =~= filled_bytes(i as nat, fill));
    }
    v
}

/// `round_up` made executable; reports the cases where the rounded value
/// does not fit in the address space.
fn round_up_exec(n: usize) -> (r: Option<usize>)
    ensures
        match r {
            Some(v) => v as int == round_up(n as int),
            None => round_up(n as int) > usize::MAX as int,
        },
{
    proof {
        lemma_round_up(n as int);
    }
    if n % BLOCK_ALIGN == 0 {
        Some(n)
    } else {
        let q = n / BLOCK_ALIGN;
        match (q + 1).checked_mul(BLOCK_ALIGN) {
            Some(v) => {
                assert(v as int == round_up(n as int)) by {
                    assert((q + 1) as int * (BLOCK_ALIGN as int) == (n as int / (BLOCK_ALIGN as int)
                        + 1) * (BLOCK_ALIGN as int));
                }
                Some(v)
            },
            None => None,
        }
    }
}

/// Allocate-then-release round trip.  `malloc` extends the heap contents
/// with a fresh pointer `p`, and a following `free(p)` restores the
/// contents exactly, so no adjacent allocation is corrupted: every pointer
/// live before still maps to the very same payload bytes afterwards.
pub proof fn lemma_allocate_then_release(m: Map<int, Seq<u8>>, p: int, d: Seq<u8>)
    requires
        !m.contains_key(p),
    ensures
        m.insert(p, d).remove(p) == m,
        forall|q: int|
            m.contains_key(q) ==> m.insert(p, d).remove(p).contains_key(q) && m.insert(
                p,
                d,
            ).remove(p)[q] == m[q],
{
    assert(m.insert(p, d).remove(p) =~= m);
}

/// Release-then-allocate consistency of the header-address arithmetic.
/// `free(p)` removes `p` from the heap contents and a following fresh
/// allocation yields a pointer `q` not live at that moment — possibly the
/// very region just released, so `q` may equal `p`.  Either way the new
/// block carries exactly its fresh payload, every unrelated still-live
/// allocation keeps its exact content, and the released pointer is gone
/// unless it was reused: no double ownership, no corruption.
pub proof fn lemma_release_then_allocate(m: Map<int, Seq<u8>>, p: int, q: int, d: Seq<u8>)
    requires
        m.contains_key(p),
        !m.remove(p).contains_key(q),
    ensures
        m.remove(p).insert(q, d).contains_key(q),
        m.remove(p).insert(q, d)[q] == d,
        forall|x: int|
            m.contains_key(x) && x != p && x != q ==> m.remove(p).insert(q, d).contains_key(x)
                && m.remove(p).insert(q, d)[x] == m[x],
        q != p ==> !m.remove(p).insert(q, d).contains_key(p),
{
}

/// Any two live allocations occupy disjoint address ranges, headers
/// included: one block's payload ends — with room for a whole header
/// behind it — before the other's caller-visible pointer begins.  So the
/// header immediately preceding a live pointer can never lie inside
/// another live allocation's header or payload, which is what lets
/// growth and release trust the descriptor they read back.
pub proof fn lemma_live_blocks_disjoint(h: Heap, p: int, q: int)
    requires
        h.wf(),
        h.live_map().contains_key(p),
        h.live_map().contains_key(q),
        p != q,
    ensures
        p + h.live_map()[p].len() + HEADER_SIZE <= q || q + h.live_map()[q].len() + HEADER_SIZE
            <= p,
{
    let s = h.blocks@;
    lemma_wf_uniq(s, h.next as int);
    lemma_map_of_contains(s, p);
    lemma_map_of_contains(s, q);
    let i = choose|i: int| 0 <= i < s.len() && #[trigger] s[i].live && user_of(s[i]) == p;
    let j = choose|j: int| 0 <= j < s.len() && #[trigger] s[j].live && user_of(s[j]) == q;
    lemma_map_of_index(s, i);
    lemma_map_of_index(s, j);
    assert(i != j);
    assert(blk_inv(s[i], h.next as int));
    assert(blk_inv(s[j], h.next as int));
    assert(ranges_disjoint(s[i], s[j]));
    lemma_round_up(HEADER_SIZE + s[i].data@.len());
    lemma_round_up(HEADER_SIZE + s[j].data@.len());
}

/// The layout-header allocator: a model of the shim's whole address space.
/// Blocks are carved out of the space either by reusing a released block of
/// the same rounded extent or by extending the high-water mark `next`.
pub struct Heap {
    blocks: Vec<Block>,
    next: usize,
}

impl Heap {
    /// Internal consistency of the allocator: every block is well formed
    /// and the reserved ranges are pairwise disjoint.
    pub closed spec fn wf(self) -> bool {
        &&& blocks_wf(self.blocks@, self.next as int)
        &&& self.next >= BLOCK_ALIGN
        &&& self.next as int % (BLOCK_ALIGN as int) == 0
    }

    /// The abstract contents of the heap: each live caller-visible pointer
    /// mapped to the payload bytes stored behind it.
    pub closed spec fn live_map(self) -> Map<int, Seq<u8>> {
        map_of(self.blocks@)
    }

    /// There is a released block whose reserved extent is exactly `tn`.
    spec fn has_dead_fit(self, tn: int) -> bool {
        exists|i: int|
            0 <= i < self.blocks@.len() && !(#[trigger] self.blocks@[i]).live
                && self.blocks@[i].total == tn
    }

    /// The underlying memory source can satisfy a fresh allocation of
    /// `size` payload bytes: the rounded block extent fits the address
    /// space, and either a released block of that extent can be reused or
    /// the high-water mark can grow by it.
    pub closed spec fn can_fit(self, size: int) -> bool {
        let tn = round_up(HEADER_SIZE + size);
        &&& tn <= usize::MAX as int
        &&& (self.has_dead_fit(tn) || self.next + tn <= usize::MAX as int)
    }

    /// The underlying memory source can resize the block behind `p` to
    /// `new_size` payload bytes: in place when the rounded extent does not
    /// change, otherwise as a fresh allocation.
    pub closed spec fn can_regrow(self, p: int, new_size: int) -> bool {
        let tn = round_up(HEADER_SIZE + new_size);
        &&& tn <= usize::MAX as int
        &&& {
            ||| exists|i: int|
                0 <= i < self.blocks@.len() && (#[trigger] self.blocks@[i]).live && user_of(
                    self.blocks@[i],
                ) == p && self.blocks@[i].total == tn
            ||| self.has_dead_fit(tn)
            ||| self.next + tn <= usize::MAX as int
        }
    }

    /// A fresh heap: no allocations, the whole address space above the
    /// first aligned address available.
    pub fn new() -> (r: Heap)
        ensures
            r.wf(),
            r.live_map() == Map::<int, Seq<u8>>::empty(),
    {
        let h = Heap { blocks: Vec::new(), next: BLOCK_ALIGN };
        proof {
            assert(h.live_map() =~= Map::<int, Seq<u8>>::empty());
        }
        h
    }

    /// Finds the index of the live block whose caller-visible pointer is
    /// `p`, if any.
    fn find_live(&self, p: usize) -> (r: Option<usize>)
        requires
            self.wf(),
        ensures
            match r {
                Some(i) => {
                    &&& i < self.blocks@.len()
                    &&& self.blocks@[i as int].live
                    &&& user_of(self.blocks@[i as int]) == p as int
                    &&& self.live_map().contains_key(p as int)
                    &&& self.live_map()[p as int] == self.blocks@[i as int].data@
                },
                None => !self.live_map().contains_key(p as int),
            },
    {
        let n = self.blocks.len();
        let mut i: usize = 0;
        while i < n
            invariant
                self.wf(),
                n == self.blocks@.len(),
                i <= n,
                forall|k: int|
                    0 <= k < i ==> !((#[trigger] self.blocks@[k]).live && user_of(self.blocks@[k])
                        == p as int),
            decreases n - i,
        {
            assert(blk_inv(self.blocks@[i as int], self.next as int));
            if self.blocks[i].live && self.blocks[i].base + HEADER_SIZE == p {
                proof {
                    lemma_wf_uniq(self.blocks@, self.next as int);
                    lemma_map_of_index(self.blocks@, i as int);
                }
                return Some(i);
            }
            i = i + 1;
        }
        proof {
            lemma_map_of_contains(self.blocks@, p as int);
        }
        None
    }

    /// Finds a released block whose reserved extent is exactly `tn`.
    fn find_dead_fit(&self, tn: usize) -> (r: Option<usize>)
        requires
            self.wf(),
        ensures
            match r {
                Some(i) => {
                    &&& i < self.blocks@.len()
                    &&& !self.blocks@[i as int].live
                    &&& self.blocks@[i as int].total == tn
                },
                None => !self.has_dead_fit(tn as int),
            },
    {
        let n = self.blocks.len();
        let mut i: usize = 0;
        while i < n
            invariant
                n == self.blocks@.len(),
                i <= n,
                forall|k: int|
                    0 <= k < i ==> !(!(#[trigger] self.blocks@[k]).live && self.blocks@[k].total
                        == tn),
            decreases n - i,
        {
            if !self.blocks[i].live && self.blocks[i].total == tn {
                return Some(i);
            }
            i = i + 1;
        }
        None
    }

    /// The shared core of `malloc` and `calloc`: carve out a block for
    /// `size` payload bytes, every byte set to `fill`, and return its
    /// caller-visible pointer.
    fn alloc_with_fill(&mut self, size: usize, fill: u8) -> (r: Result<usize, ShimError>)
        requires
            old(self).wf(),
        ensures
            final(self).wf(),
            (r is Ok) == old(self).can_fit(size as int),
            match r {
                Ok(p) => {
                    &&& p as int % (BLOCK_ALIGN as int) == 0
                    &&& p != 0
                    &&& !old(self).live_map().contains_key(p as int)
                    &&& final(self).live_map() == old(self).live_map().insert(
                        p as int,
                        filled_bytes(size as nat, fill),
                    )
                },
                Err(e) => {
                    &&& e == ShimError::OutOfMemory
                    &&& *final(self) == *old(self)
                },
            },
    {
        proof {
            lemma_round_up(HEADER_SIZE + size as int);
        }
        let need = match size.checked_add(HEADER_SIZE) {
            Some(n) => n,
            None => {
                return Err(ShimError::OutOfMemory);
            },
        };
        let tn = match round_up_exec(need) {
            Some(t) => t,
            None => {
                return Err(ShimError::OutOfMemory);
            },
        };
        let data = make_filled_vec(size, fill);
        let ghost s0 = self.blocks@;
        proof {
            lemma_wf_uniq(s0, self.next as int);
        }
        match self.find_dead_fit(tn) {
            Some(j) => {
                assert(blk_inv(s0[j as int], self.next as int));
                let base = self.blocks[j].base;
                self.blocks[j] = Block { base, total: tn, data, live: true };
                let p = base + HEADER_SIZE;
                proof {
                    let jj = j as int;
                    assert(self.blocks@ == s0.update(jj, self.blocks@[jj]));
                    lemma_map_of_update(s0, jj, self.blocks@[jj]);
                    lemma_map_of_contains(s0, p as int);
                    lemma_add_mod_noop(base as int, HEADER_SIZE as int, BLOCK_ALIGN as int);
                    assert(blocks_wf(self.blocks@, self.next as int)) by {
                        assert(forall|k: int|
                            0 <= k < s0.len() && k != jj ==> self.blocks@[k] == #[trigger] s0[k]);
                        assert(blk_inv(self.blocks@[jj], self.next as int));
                    }
                }
                Ok(p)
            },
            None => {
                let base = self.next;
                let new_next = match self.next.checked_add(tn) {
                    Some(v) => v,
                    None => {
                        return Err(ShimError::OutOfMemory);
                    },
                };
                self.blocks.push(Block { base, total: tn, data, live: true });
                self.next = new_next;
                let p = base + HEADER_SIZE;
                proof {
                    let nb = self.blocks@.last();
                    assert(self.blocks@ == s0.push(nb));
                    lemma_map_of_push(s0, nb);
                    lemma_map_of_contains(s0, p as int);
                    assert forall|i: int| 0 <= i < s0.len() implies user_of(#[trigger] s0[i])
                        != p as int by {
                        assert(blk_inv(s0[i], base as int));
                    }
                    lemma_add_mod_noop(base as int, HEADER_SIZE as int, BLOCK_ALIGN as int);
                    lemma_add_mod_noop(base as int, tn as int, BLOCK_ALIGN as int);
                    assert(blocks_wf(self.blocks@, self.next as int)) by {
                        assert(forall|k: int|
                            0 <= k < s0.len() ==> self.blocks@[k] == #[trigger] s0[k]);
                        assert forall|k: int| 0 <= k < s0.len() implies blk_inv(
                            #[trigger] self.blocks@[k],
                            self.next as int,
                        ) by {
                            assert(blk_inv(s0[k], base as int));
                        }
                        assert(blk_inv(nb, self.next as int));
                        assert forall|k: int| 0 <= k < s0.len() implies ranges_disjoint(
                            #[trigger] self.blocks@[k],
                            nb,
                        ) && ranges_disjoint(nb, self.blocks@[k]) by {
                            assert(blk_inv(s0[k], base as int));
                        }
                    }
                }
                Ok(p)
            },
        }
    }

    /// `malloc`: allocates `size` payload bytes behind a fresh header and
    /// returns the address immediately after that header.  A request of
    /// size zero still produces a valid, uniquely-addressed, releasable
    /// pointer.  Fails exactly when the underlying memory source cannot
    /// satisfy the request; the shim does not invent memory.
    pub fn malloc(&mut self, size: usize) -> (r: Result<usize, ShimError>)
        requires
            old(self).wf(),
        ensures
            final(self).wf(),
            (r is Ok) == old(self).can_fit(size as int),
            match r {
                Ok(p) => {
                    &&& p as int % (BLOCK_ALIGN as int) == 0
                    &&& p != 0
                    &&& !old(self).live_map().contains_key(p as int)
                    &&& final(self).live_map() == old(self).live_map().insert(
                        p as int,
                        filled_bytes(size as nat, FILL_BYTE),
                    )
                },
                Err(e) => {
                    &&& e == ShimError::OutOfMemory
                    &&& *final(self) == *old(self)
                },
            },
    {
        self.alloc_with_fill(size, FILL_BYTE)
    }

    /// `calloc`: allocates `count * size` payload bytes, every byte zero.
    /// The multiplication is computed in the caller's context and is
    /// assumed not to overflow; the shim does not re-validate it, for
    /// parity with the routine being replaced.
    pub fn calloc(&mut self, count: usize, size: usize) -> (r: Result<usize, ShimError>)
        requires
            old(self).wf(),
            count as int * size as int <= usize::MAX as int,
        ensures
            final(self).wf(),
            (r is Ok) == old(self).can_fit(count as int * size as int),
            match r {
                Ok(p) => {
                    &&& p as int % (BLOCK_ALIGN as int) == 0
                    &&& p != 0
                    &&& !old(self).live_map().contains_key(p as int)
                    &&& final(self).live_map() == old(self).live_map().insert(
                        p as int,
                        filled_bytes((count * size) as nat, 0u8),
                    )
                },
                Err(e) => {
                    &&& e == ShimError::OutOfMemory
                    &&& *final(self) == *old(self)
                },
            },
    {
        let n = count * size;
        self.alloc_with_fill(n, 0)
    }

    /// `free`: reads the header immediately preceding `p` and returns the
    /// full original block (header plus payload) to the underlying memory
    /// source.  The released range may be reused by a later allocation.
    pub fn free(&mut self, p: usize)
        requires
            old(self).wf(),
            old(self).live_map().contains_key(p as int),
        ensures
            final(self).wf(),
            final(self).live_map() == old(self).live_map().remove(p as int),
    {
        let idx = match self.find_live(p) {
            Some(i) => i,
            None => unreached(),
        };
        let base = self.blocks[idx].base;
        let total = self.blocks[idx].total;
        let ghost s0 = self.blocks@;
        proof {
            lemma_wf_uniq(s0, self.next as int);
        }
        self.blocks[idx] = Block { base, total, data: Vec::new(), live: false };
        proof {
            let ii = idx as int;
            assert(self.blocks@ == s0.update(ii, self.blocks@[ii]));
            lemma_map_of_update(s0, ii, self.blocks@[ii]);
            assert(blocks_wf(self.blocks@, self.next as int)) by {
                assert(forall|k: int|
                    0 <= k < s0.len() && k != ii ==> self.blocks@[k] == #[trigger] s0[k]);
                assert(blk_inv(s0[ii], self.next as int));
                assert(blk_inv(self.blocks@[ii], self.next as int));
            }
        }
    }

    /// `realloc`: reads the header preceding `p` to recover the original
    /// layout, resizes the block to `new_size` payload bytes — possibly
    /// relocating it — writes a fresh header at the resulting address and
    /// returns the address immediately after it.  The first
    /// `min(old size, new size)` payload bytes carry over; a grown tail is
    /// set to `FILL_BYTE`.  On failure the heap is unchanged and `p` stays
    /// live.
    pub fn realloc(&mut self, p: usize, new_size: usize) -> (r: Result<usize, ShimError>)
        requires
            old(self).wf(),
            old(self).live_map().contains_key(p as int),
        ensures
            final(self).wf(),
            (r is Ok) == old(self).can_regrow(p as int, new_size as int),
            match r {
                Ok(q) => {
                    &&& q as int % (BLOCK_ALIGN as int) == 0
                    &&& q != 0
                    &&& !old(self).live_map().remove(p as int).contains_key(q as int)
                    &&& final(self).live_map() == old(self).live_map().remove(p as int).insert(
                        q as int,
                        resized_bytes(old(self).live_map()[p as int], new_size as nat),
                    )
                    &&& forall|i: int|
                        0 <= i < new_size && i < old(self).live_map()[p as int].len()
                            ==> final(self).live_map()[q as int][i] == old(self).live_map()[
                            p as int][i]
                },
                Err(e) => {
                    &&& e == ShimError::OutOfMemory
                    &&& *final(self) == *old(self)
                },
            },
    {
        let idx = match self.find_live(p) {
            Some(i) => i,
            None => unreached(),
        };
        proof {
            lemma_round_up(HEADER_SIZE + new_size as int);
            lemma_wf_uniq(self.blocks@, self.next as int);
        }
        let need = match new_size.checked_add(HEADER_SIZE) {
            Some(n) => n,
            None => {
                return Err(ShimError::OutOfMemory);
            },
        };
        let tn = match round_up_exec(need) {
            Some(t) => t,
            None => {
                return Err(ShimError::OutOfMemory);
            },
        };
        // Build the resized payload before touching the heap.
        let mut nd: Vec<u8> = Vec::new();
        let mut i: usize = 0;
        let ghost d0 = self.blocks@[idx as int].data@;
        assert(nd@ =~= resized_bytes(d0, 0nat));
        while i < new_size
            invariant
                i <= new_size,
                idx < self.blocks@.len(),
                self.blocks@[idx as int].data@ == d0,
                nd@ == resized_bytes(d0, i as nat),
            decreases new_size - i,
        {
            let b = if i < self.blocks[idx].data.len() {
                self.blocks[idx].data[i]
            } else {
                FILL_BYTE
            };
            nd.push(b);
            i = i + 1;
            assert(nd@ =~= resized_bytes(d0, i as nat));
        }
        let cur_total = self.blocks[idx].total;
        let base = self.blocks[idx].base;
        assert(blk_inv(self.blocks@[idx as int], self.next as int));
        if tn == cur_total {
            // The rounded extent is unchanged: rewrite the block in place.
            let ghost s0 = self.blocks@;
            self.blocks[idx] = Block { base, total: tn, data: nd, live: true };
            proof {
                let ii = idx as int;
                assert(self.blocks@ == s0.update(ii, self.blocks@[ii]));
                lemma_map_of_update(s0, ii, self.blocks@[ii]);
                assert(map_of(self.blocks@) =~= map_of(s0).remove(p as int).insert(
                    p as int,
                    resized_bytes(d0, new_size as nat),
                ));
                lemma_add_mod_noop(base as int, HEADER_SIZE as int, BLOCK_ALIGN as int);
                assert(blocks_wf(self.blocks@, self.next as int)) by {
                    assert(forall|k: int|
                        0 <= k < s0.len() && k != ii ==> self.blocks@[k] == #[trigger] s0[k]);
                    assert(blk_inv(self.blocks@[ii], self.next as int));
                }
            }
            Ok(base + HEADER_SIZE)
        } else {
            let ghost s0 = self.blocks@;
            match self.find_dead_fit(tn) {
                Some(j) => {
                    // Reuse a released block of the right extent, then
                    // release the original block.
                    assert(j != idx);
                    assert(blk_inv(s0[j as int], self.next as int));
                    let nb_base = self.blocks[j].base;
                    let q = nb_base + HEADER_SIZE;
                    self.blocks[j] = Block { base: nb_base, total: tn, data: nd, live: true };
                    let ghost s1 = self.blocks@;
                    proof {
                        let jj = j as int;
                        assert(s1 == s0.update(jj, s1[jj]));
                        lemma_map_of_update(s0, jj, s1[jj]);
                        lemma_map_of_contains(s0, q as int);
                        assert(uniq_users(s1)) by {
                            assert(forall|k: int|
                                0 <= k < s0.len() ==> user_of(#[trigger] s1[k]) == user_of(
                                    s0[k],
                                ));
                        }
                    }
                    self.blocks[idx] = Block {
                        base,
                        total: cur_total,
                        data: Vec::new(),
                        live: false,
                    };
                    proof {
                        let ii = idx as int;
                        let jj = j as int;
                        assert(self.blocks@ == s1.update(ii, self.blocks@[ii]));
                        lemma_map_of_update(s1, ii, self.blocks@[ii]);
                        assert(q != p);
                        assert(map_of(self.blocks@) =~= map_of(s0).remove(p as int).insert(
                            q as int,
                            resized_bytes(d0, new_size as nat),
                        ));
                        lemma_add_mod_noop(nb_base as int, HEADER_SIZE as int, BLOCK_ALIGN as int);
                        assert(blocks_wf(self.blocks@, self.next as int)) by {
                            assert(forall|k: int|
                                0 <= k < s0.len() && k != ii && k != jj ==> self.blocks@[k]
                                    == #[trigger] s0[k]);
                            assert(blk_inv(self.blocks@[ii], self.next as int));
                            assert(blk_inv(self.blocks@[jj], self.next as int));
                        }
                    }
                    Ok(q)
                },
                None => {
                    // Extend the high-water mark, then release the original
                    // block.
                    let nb_base = self.next;
                    let new_next = match self.next.checked_add(tn) {
                        Some(v) => v,
                        None => {
                            return Err(ShimError::OutOfMemory);
                        },
                    };
                    let q = nb_base + HEADER_SIZE;
                    self.blocks.push(Block { base: nb_base, total: tn, data: nd, live: true });
                    self.next = new_next;
                    let ghost s1 = self.blocks@;
                    proof {
                        let nb = s1.last();
                        assert(s1 == s0.push(nb));
                        lemma_map_of_push(s0, nb);
                        lemma_map_of_contains(s0, q as int);
                        assert forall|k: int| 0 <= k < s0.len() implies user_of(#[trigger] s0[k])
                            != q as int by {
                            assert(blk_inv(s0[k], nb_base as int));
                        }
                        assert(uniq_users(s1)) by {
                            assert(forall|k: int| 0 <= k < s0.len() ==> s1[k] == #[trigger] s0[k]);
                            assert forall|k: int| 0 <= k < s0.len() implies user_of(
                                #[trigger] s1[k],
                            ) != user_of(nb) by {
                                assert(blk_inv(s0[k], nb_base as int));
                            }
                        }
                    }
                    self.blocks[idx] = Block {
                        base,
                        total: cur_total,
                        data: Vec::new(),
                        live: false,
                    };
                    proof {
                        let ii = idx as int;
                        assert(self.blocks@ == s1.update(ii, self.blocks@[ii]));
                        lemma_map_of_update(s1, ii, self.blocks@[ii]);
                        assert(q != p);
                        assert(map_of(self.blocks@) =~= map_of(s0).remove(p as int).insert(
                            q as int,
                            resized_bytes(d0, new_size as nat),
                        ));
                        lemma_add_mod_noop(nb_base as int, HEADER_SIZE as int, BLOCK_ALIGN as int);
                        lemma_add_mod_noop(nb_base as int, tn as int, BLOCK_ALIGN as int);
                        assert(blocks_wf(self.blocks@, self.next as int)) by {
                            assert(forall|k: int|
                                0 <= k < s0.len() && k != ii ==> self.blocks@[k]
                                    == #[trigger] s0[k]);
                            assert forall|k: int| 0 <= k < s0.len() implies blk_inv(
                                #[trigger] self.blocks@[k],
                                self.next as int,
                            ) by {
                                assert(blk_inv(s0[k], nb_base as int));
                                assert(blk_inv(self.blocks@[ii], self.next as int));
                            }
                            assert(blk_inv(self.blocks@[s0.len() as int], self.next as int));
                            assert forall|k: int| 0 <= k < s0.len() implies ranges_disjoint(
                                #[trigger] self.blocks@[k],
                                self.blocks@[s0.len() as int],
                            ) && ranges_disjoint(
                                self.blocks@[s0.len() as int],
                                self.blocks@[k],
                            ) by {
                                assert(blk_inv(s0[k], nb_base as int));
                            }
                        }
                    }
                    Ok(q)
                },
            }
        }
    }

    /// The payload size recorded in the header behind `p`.
    pub fn alloc_size(&self, p: usize) -> (r: usize)
        requires
            self.wf(),
            self.live_map().contains_key(p as int),
        ensures
            r == self.live_map()[p as int].len(),
    {
        let idx = match self.find_live(p) {
            Some(i) => i,
            None => unreached(),
        };
        self.blocks[idx].data.len()
    }

    /// Whether `p` is a live caller-visible pointer of this heap.
    pub fn is_live(&self, p: usize) -> (r: bool)
        requires
            self.wf(),
        ensures
            r == self.live_map().contains_key(p as int),
    {
        match self.find_live(p) {
            Some(_) => true,
            None => false,
        }
    }

    /// Reads one payload byte behind a live pointer.
    pub fn read_byte(&self, p: usize, off: usize) -> (r: u8)
        requires
            self.wf(),
            self.live_map().contains_key(p as int),
            off < self.live_map()[p as int].len(),
        ensures
            r == self.live_map()[p as int][off as int],
    {
        let idx = match self.find_live(p) {
            Some(i) => i,
            None => unreached(),
        };
        self.blocks[idx].data[off]
    }

    /// Writes one payload byte behind a live pointer.
    pub fn write_byte(&mut self, p: usize, off: usize, v: u8)
        requires
            old(self).wf(),
            old(self).live_map().contains_key(p as int),
            off < old(self).live_map()[p as int].len(),
        ensures
            final(self).wf(),
            final(self).live_map() == old(self).live_map().insert(
                p as int,
                old(self).live_map()[p as int].update(off as int, v),
            ),
    {
        let idx = match self.find_live(p) {
            Some(i) => i,
            None => unreached(),
        };
        let ghost s0 = self.blocks@;
        proof {
            lemma_wf_uniq(s0, self.next as int);
            assert(blk_inv(s0[idx as int], self.next as int));
        }
        self.blocks[idx].data[off] = v;
        proof {
            let ii = idx as int;
            assert(self.blocks@ == s0.update(ii, self.blocks@[ii]));
            lemma_map_of_update(s0, ii, self.blocks@[ii]);
            assert(blocks_wf(self.blocks@, self.next as int)) by {
                assert(forall|k: int|
                    0 <= k < s0.len() && k != ii ==> self.blocks@[k] == #[trigger] s0[k]);
                assert(blk_inv(self.blocks@[ii], self.next as int));
            }
        }
    }
}

} // verus!
