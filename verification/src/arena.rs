//! A bump-pointer arena over a growing list of owned slabs.
//!
//! Allocation bumps a cursor through the current slab and keeps no record of
//! individual blocks; everything is released together when the arena is
//! dropped. A request that does not fit starts a new slab, and a request too
//! large for a standard slab gets a slab of its own.

use crate::layout::{align_offset, is_aligned, lemma_round_up, round_up};
use crate::memory::{buffer_address, new_buffer};
use vstd::arithmetic::power2::{is_pow2, lemma_pow2_pos, pow2};
use vstd::bits::{lemma_usize_pow2_no_overflow, lemma_usize_shl_is_mul};
use vstd::prelude::*;

verus! {

/// Size of the first standard slabs, in bytes.
pub const SLAB_SIZE: usize = 0x1000;

/// Standard slabs double in size each time this many slabs have been added.
pub const SLABS_PER_DOUBLING: usize = 128;

/// The slab size stops doubling after this many doublings.
pub const MAX_DOUBLINGS: usize = 30;

/// A range of bytes handed out by an arena.
#[derive(Clone, Copy, Debug, PartialEq, Eq, Structural)]
pub struct Block {
    /// Index of the slab that holds the range.
    pub slab: usize,
    /// Address of the first byte.
    pub addr: usize,
    /// Number of bytes.
    pub size: usize,
}

/// One owned buffer and the address at which it lives.
struct Slab {
    base: usize,
    bytes: Vec<u8>,
}

/// Bump-pointer allocator.
pub struct Arena {
    slabs: Vec<Slab>,
    current: usize,
    next: usize,
    end: usize,
    issued: Ghost<Seq<Block>>,
}

/// What a slab is to a contract: where it lives and what it holds.
pub ghost struct SlabView {
    pub base: int,
    pub bytes: Seq<u8>,
}

/// The state of an arena.
pub ghost struct ArenaView {
    /// The slabs, oldest first.
    pub slabs: Seq<SlabView>,
    /// Index of the slab the cursor runs through, meaningful while `next < end`.
    pub current: int,
    /// The bump cursor: the first unused address of the current slab.
    pub next: int,
    /// One past the last address of the current slab.
    pub end: int,
    /// Every block handed out so far, oldest first.
    pub issued: Seq<Block>,
}

/// The size of the standard slab that is added when `count` slabs exist.
pub open spec fn slab_size(count: nat) -> int {
    let doublings = if count / (SLABS_PER_DOUBLING as nat) < MAX_DOUBLINGS {
        count / (SLABS_PER_DOUBLING as nat)
    } else {
        MAX_DOUBLINGS as nat
    };
    SLAB_SIZE * pow2(doublings)
}

/// The two blocks have no byte in common.
pub open spec fn disjoint(a: Block, b: Block) -> bool {
    ||| a.slab != b.slab
    ||| a.size == 0
    ||| b.size == 0
    ||| a.addr + a.size <= b.addr
    ||| b.addr + b.size <= a.addr
}

impl SlabView {
    /// The block lies inside this slab.
    pub open spec fn holds(self, block: Block) -> bool {
        self.base <= block.addr && block.addr + block.size <= self.base + self.bytes.len()
    }
}

impl ArenaView {
    /// The block lies inside the slab it names.
    pub open spec fn holds(self, block: Block) -> bool {
        0 <= block.slab < self.slabs.len() && self.slabs[block.slab as int].holds(block)
    }

    /// The bytes of a block that the arena holds.
    pub open spec fn bytes(self, block: Block) -> Seq<u8> {
        let slab = self.slabs[block.slab as int];
        slab.bytes.subrange(block.addr - slab.base, block.addr - slab.base + block.size)
    }

    /// The arena after `value` was stored at `offset` inside `block`.
    pub open spec fn store(self, block: Block, offset: int, value: u8) -> ArenaView {
        let slab = self.slabs[block.slab as int];
        let at = block.addr - slab.base + offset;
        ArenaView {
            slabs: self.slabs.update(
                block.slab as int,
                SlabView { base: slab.base, bytes: slab.bytes.update(at, value) },
            ),
            ..self
        }
    }

    /// The request fits behind the cursor in the current slab.
    pub open spec fn fits(self, size: int, align: int) -> bool {
        round_up(self.next, align) + size <= self.end
    }

    /// The size of the slab that a request needs when it does not fit.
    pub open spec fn slab_request(self, size: int, align: int) -> int {
        if size + align - 1 > SLAB_SIZE {
            size + align - 1
        } else {
            slab_size(self.slabs.len())
        }
    }

    /// The invariant of an arena.
    pub open spec fn wf(self) -> bool {
        &&& forall|i: int|
            0 <= i < self.slabs.len() ==> 1 <= (#[trigger] self.slabs[i]).base
                && self.slabs[i].base + self.slabs[i].bytes.len() <= usize::MAX
        &&& 0 <= self.current <= usize::MAX
        &&& 1 <= self.next <= self.end <= usize::MAX
        &&& self.next < self.end ==> {
            &&& self.current < self.slabs.len()
            &&& self.slabs[self.current].base <= self.next
            &&& self.end == self.slabs[self.current].base + self.slabs[self.current].bytes.len()
        }
        &&& forall|k: int|
            0 <= k < self.issued.len() ==> (#[trigger] self.issued[k]).size == 0 || self.holds(
                self.issued[k],
            )
        &&& self.next < self.end ==> forall|k: int|
            0 <= k < self.issued.len() && (#[trigger] self.issued[k]).slab == self.current
                && self.issued[k].size > 0 ==> self.issued[k].addr + self.issued[k].size
                <= self.next
        &&& forall|j: int, k: int|
            0 <= j < self.issued.len() && 0 <= k < self.issued.len() && j != k ==> disjoint(
                #[trigger] self.issued[j],
                #[trigger] self.issued[k],
            )
    }
}

impl Slab {
    spec fn view(&self) -> SlabView {
        SlabView { base: self.base as int, bytes: self.bytes@ }
    }
}

impl View for Arena {
    type V = ArenaView;

    closed spec fn view(&self) -> ArenaView {
        ArenaView {
            slabs: Seq::new(self.slabs@.len(), |i: int| self.slabs@[i].view()),
            current: self.current as int,
            next: self.next as int,
            end: self.end as int,
            issued: self.issued@,
        }
    }
}

impl Default for Arena {
    /// An arena without slabs. Its cursor rests on a sentinel address that is
    /// never read or written.
    fn default() -> (arena: Arena)
        ensures
            arena@.wf(),
            arena@.slabs.len() == 0,
            arena@.issued.len() == 0,
            arena@.current == 0,
            arena@.next == 1,
            arena@.end == 1,
    {
        Arena { slabs: Vec::new(), current: 0, next: 1, end: 1, issued: Ghost(Seq::empty()) }
    }
}

/// The size of the standard slab that follows `count` slabs, unless it
/// exceeds what `usize` can hold.
fn standard_slab_size(count: usize) -> (size: Option<usize>)
    ensures
        match size {
            Some(bytes) => bytes == slab_size(count as nat),
            None => slab_size(count as nat) > usize::MAX,
        },
        slab_size(count as nat) >= SLAB_SIZE,
{
    let period = count / SLABS_PER_DOUBLING;
    let doublings = if period < MAX_DOUBLINGS {
        period
    } else {
        MAX_DOUBLINGS
    };
    proof {
        lemma_pow2_pos(doublings as nat);
        lemma_usize_pow2_no_overflow(doublings as nat);
        lemma_usize_shl_is_mul(1, doublings);
    }
    let factor: usize = 1usize << doublings;
    SLAB_SIZE.checked_mul(factor)
}

impl Arena {
    /// Adds a slab of `size` bytes to the list and returns its address, or
    /// `None` when no buffer can be that large.
    fn alloc_slab(&mut self, size: usize) -> (base: Option<usize>)
        requires
            old(self)@.wf(),
        ensures
            final(self)@.wf(),
            base is None <==> size > isize::MAX,
            base is None ==> final(self)@ == old(self)@,
            base matches Some(addr) ==> {
                &&& final(self)@.slabs.len() == old(self)@.slabs.len() + 1
                &&& final(self)@.slabs.drop_last() == old(self)@.slabs
                &&& final(self)@.slabs.last().base == addr
                &&& final(self)@.slabs.last().bytes.len() == size
                &&& final(self)@.current == old(self)@.current
                &&& final(self)@.next == old(self)@.next
                &&& final(self)@.end == old(self)@.end
                &&& final(self)@.issued == old(self)@.issued
            },
    {
        if size > isize::MAX as usize {
            return None;
        }
        let bytes = new_buffer(size);
        let base = buffer_address(&bytes);
        // Save the slab and its address for as long as the arena lives.
        self.slabs.push(Slab { base, bytes });
        proof {
            let before = old(self)@;
            let now = self@;
            assert(now.slabs.drop_last() =~= before.slabs);
            assert forall|i: int| 0 <= i < before.slabs.len() implies now.slabs[i]
                == before.slabs[i] by {
                assert(now.slabs.drop_last()[i] == now.slabs[i]);
            }
            assert(now.issued == before.issued);
            assert(now.current == before.current && now.next == before.next && now.end
                == before.end);
            assert forall|k: int| 0 <= k < now.issued.len() implies (#[trigger] now.issued[k]).size
                == 0 || now.holds(now.issued[k]) by {
                assert(before.issued[k].size == 0 || before.holds(before.issued[k]));
            }
            assert(now.wf());
        }
        Some(base)
    }

    /// Allocate memory via bump-pointer.
    ///
    /// The block is carved out of the current slab when it fits behind the
    /// cursor. Otherwise a new slab is added: one of its own for a request
    /// that, padded for alignment, exceeds `SLAB_SIZE`, which leaves the cursor
    /// where it was; else the next standard slab, which becomes the current
    /// one. The result is `None` only when the slab that is needed could not
    /// exist, being larger than `isize::MAX` bytes.
    pub fn allocate(&mut self, size: usize, align: usize) -> (block: Option<Block>)
        requires
            old(self)@.wf(),
            is_pow2(align as int),
        ensures
            final(self)@.wf(),
            block is None <==> !old(self)@.fits(size as int, align as int) && old(
                self,
            )@.slab_request(size as int, align as int) > isize::MAX,
            block is None ==> final(self)@ == old(self)@,
            block matches Some(b) ==> {
                &&& b.size == size
                &&& is_aligned(b.addr as int, align as int)
                &&& final(self)@.issued == old(self)@.issued.push(b)
                &&& forall|k: int|
                    0 <= k < old(self)@.issued.len() ==> disjoint(
                        #[trigger] old(self)@.issued[k],
                        b,
                    )
                &&& size > 0 || !old(self)@.fits(size as int, align as int) ==> final(self)@.holds(b)
                &&& if old(self)@.fits(size as int, align as int) {
                    &&& b.slab == old(self)@.current
                    &&& b.addr == round_up(old(self)@.next, align as int)
                    &&& final(self)@.slabs == old(self)@.slabs
                    &&& final(self)@.current == old(self)@.current
                    &&& final(self)@.next == b.addr + size
                    &&& final(self)@.end == old(self)@.end
                } else {
                    &&& b.slab == old(self)@.slabs.len()
                    &&& final(self)@.slabs.len() == old(self)@.slabs.len() + 1
                    &&& final(self)@.slabs.drop_last() == old(self)@.slabs
                    &&& final(self)@.slabs.last().bytes.len() == old(self)@.slab_request(
                        size as int,
                        align as int,
                    )
                    &&& b.addr == round_up(final(self)@.slabs.last().base, align as int)
                    &&& if size + align - 1 > SLAB_SIZE {
                        &&& final(self)@.current == old(self)@.current
                        &&& final(self)@.next == old(self)@.next
                        &&& final(self)@.end == old(self)@.end
                    } else {
                        &&& final(self)@.current == b.slab
                        &&& final(self)@.next == b.addr + size
                        &&& final(self)@.end == final(self)@.slabs.last().base
                            + final(self)@.slabs.last().bytes.len()
                    }
                }
            },
    {
        // Try to fit the allocation into the current slab.
        let offset = align_offset(self.next, align);
        let room = self.end - self.next;
        proof {
            lemma_round_up(self.next as int, align as int);
        }
        if offset <= room && size <= room - offset {
            let addr = self.next + offset;
            let block = Block { slab: self.current, addr, size };
            self.next = addr + size;
            proof {
                self.issued = Ghost(self.issued@.push(block));
                assert(self@.slabs =~= old(self)@.slabs);
                self.lemma_bumped(old(self)@, block);
            }
            return Some(block);
        }
        // Otherwise, we need to start a new slab.
        let block = self.alloc_new_slab(size, align);
        proof {
            if let Some(b) = block {
                assert forall|k: int| 0 <= k < old(self)@.issued.len() implies disjoint(
                    #[trigger] old(self)@.issued[k],
                    b,
                ) by {
                    let last = old(self)@.issued.len() as int;
                    assert(self@.issued[k] == old(self)@.issued[k]);
                    assert(self@.issued[last] == b);
                }
            }
        }
        block
    }

    /// After `block` was carved out behind the cursor of the current slab,
    /// the arena is well formed and the block meets none issued before.
    proof fn lemma_bumped(&self, before: ArenaView, block: Block)
        requires
            before.wf(),
            self@.slabs == before.slabs,
            self@.current == before.current,
            self@.end == before.end,
            self@.issued == before.issued.push(block),
            block.slab == before.current,
            before.next <= block.addr,
            self@.next == block.addr + block.size,
            self@.next <= before.end,
        ensures
            self@.wf(),
            block.size > 0 ==> self@.holds(block),
            forall|k: int|
                0 <= k < before.issued.len() ==> disjoint(#[trigger] before.issued[k], block),
    {
        let now = self@;
        assert forall|k: int| 0 <= k < before.issued.len() implies disjoint(
            #[trigger] before.issued[k],
            block,
        ) by {
            let b = before.issued[k];
            if b.slab == block.slab && b.size > 0 && block.size > 0 {
                assert(before.next < before.end);
            }
        }
        assert forall|k: int| 0 <= k < now.issued.len() implies (#[trigger] now.issued[k]).size
            == 0 || now.holds(now.issued[k]) by {
            if k < before.issued.len() {
                assert(now.issued[k] == before.issued[k]);
            }
        }
        if now.next < now.end {
            assert forall|k: int|
                0 <= k < now.issued.len() && (#[trigger] now.issued[k]).slab == now.current
                    && now.issued[k].size > 0 implies now.issued[k].addr + now.issued[k].size
                <= now.next by {
                if k < before.issued.len() {
                    assert(now.issued[k] == before.issued[k]);
                }
            }
        }
        assert forall|j: int, k: int|
            0 <= j < now.issued.len() && 0 <= k < now.issued.len() && j != k implies disjoint(
            #[trigger] now.issued[j],
            #[trigger] now.issued[k],
        ) by {
            if j < before.issued.len() {
                assert(now.issued[j] == before.issued[j]);
            }
            if k < before.issued.len() {
                assert(now.issued[k] == before.issued[k]);
            }
        }
    }

    /// The byte at `offset` inside `block`, or `None` where the arena holds
    /// no such byte.
    pub fn read(&self, block: &Block, offset: usize) -> (byte: Option<u8>)
        ensures
            byte == if self@.holds(*block) && offset < block.size {
                Some(self@.bytes(*block)[offset as int])
            } else {
                None
            },
    {
        if block.slab >= self.slabs.len() {
            return None;
        }
        let slab = &self.slabs[block.slab];
        if block.addr < slab.base {
            return None;
        }
        let start = block.addr - slab.base;
        let len = slab.bytes.len();
        if start > len || block.size > len - start || offset >= block.size {
            return None;
        }
        Some(slab.bytes[start + offset])
    }

    /// Stores `value` at `offset` inside `block` and says whether the arena
    /// holds such a byte; it changes nothing where it does not.
    pub fn write(&mut self, block: &Block, offset: usize, value: u8) -> (done: bool)
        ensures
            done == (old(self)@.holds(*block) && offset < block.size),
            done ==> final(self)@ == old(self)@.store(*block, offset as int, value),
            !done ==> final(self)@ == old(self)@,
            old(self)@.wf() ==> final(self)@.wf(),
    {
        if block.slab >= self.slabs.len() {
            return false;
        }
        let base = self.slabs[block.slab].base;
        let len = self.slabs[block.slab].bytes.len();
        if block.addr < base {
            return false;
        }
        let start = block.addr - base;
        if start > len || block.size > len - start || offset >= block.size {
            return false;
        }
        self.slabs[block.slab].bytes[start + offset] = value;
        proof {
            assert(self@.slabs =~= old(self)@.store(*block, offset as int, value).slabs);
            if old(self)@.wf() {
                lemma_store_wf(old(self)@, *block, offset as int, value);
            }
        }
        true
    }

    /// Starts a new slab for a request that the current slab cannot take.
    fn alloc_new_slab(&mut self, size: usize, align: usize) -> (block: Option<Block>)
        requires
            old(self)@.wf(),
            is_pow2(align as int),
        ensures
            final(self)@.wf(),
            block is None <==> old(self)@.slab_request(size as int, align as int) > isize::MAX,
            block is None ==> final(self)@ == old(self)@,
            block matches Some(b) ==> {
                &&& b.size == size
                &&& b.slab == old(self)@.slabs.len()
                &&& is_aligned(b.addr as int, align as int)
                &&& final(self)@.holds(b)
                &&& final(self)@.issued == old(self)@.issued.push(b)
                &&& final(self)@.slabs.len() == old(self)@.slabs.len() + 1
                &&& final(self)@.slabs.drop_last() == old(self)@.slabs
                &&& final(self)@.slabs.last().bytes.len() == old(self)@.slab_request(
                    size as int,
                    align as int,
                )
                &&& b.addr == round_up(final(self)@.slabs.last().base, align as int)
                &&& if size + align - 1 > SLAB_SIZE {
                    &&& final(self)@.current == old(self)@.current
                    &&& final(self)@.next == old(self)@.next
                    &&& final(self)@.end == old(self)@.end
                } else {
                    &&& final(self)@.current == b.slab
                    &&& final(self)@.next == b.addr + size
                    &&& final(self)@.end == final(self)@.slabs.last().base
                        + final(self)@.slabs.last().bytes.len()
                }
            },
    {
        proof {
            crate::layout::lemma_mask_is_mod(0, align);
        }
        // If the allocation is big enough, use a one-off slab.
        let padded = match size.checked_add(align - 1) {
            Some(padded) => padded,
            None => {
                return None;
            },
        };
        if padded > SLAB_SIZE {
            let index = self.slabs.len();
            let base = match self.alloc_slab(padded) {
                Some(base) => base,
                None => {
                    return None;
                },
            };
            proof {
                lemma_round_up(base as int, align as int);
            }
            let addr = base + align_offset(base, align);
            let block = Block { slab: index, addr, size };
            proof {
                self.issued = Ghost(self.issued@.push(block));
                assert(self@.slabs.drop_last() =~= old(self)@.slabs);
                self.lemma_grown(old(self)@, block);
            }
            return Some(block);
        }
        // Double slab sizes every 128 slabs, thirty times at most.
        let index = self.slabs.len();
        let bytes = match standard_slab_size(index) {
            Some(bytes) => bytes,
            None => {
                return None;
            },
        };
        let base = match self.alloc_slab(bytes) {
            Some(base) => base,
            None => {
                return None;
            },
        };
        proof {
            lemma_round_up(base as int, align as int);
        }
        let addr = base + align_offset(base, align);
        let block = Block { slab: index, addr, size };
        self.current = index;
        self.next = addr + size;
        self.end = base + bytes;
        proof {
            self.issued = Ghost(self.issued@.push(block));
            assert(self@.slabs.drop_last() =~= old(self)@.slabs);
            self.lemma_grown(old(self)@, block);
        }
        Some(block)
    }

    /// After a slab was added and `block` carved out of it, the blocks issued
    /// before are still held and none of them meets the new one.
    proof fn lemma_grown(&self, before: ArenaView, block: Block)
        requires
            before.wf(),
            self@.slabs.len() == before.slabs.len() + 1,
            self@.slabs.drop_last() == before.slabs,
            self@.issued == before.issued.push(block),
            block.slab == before.slabs.len(),
            self@.slabs.last().holds(block),
        ensures
            self@.holds(block),
            forall|k: int|
                0 <= k < self@.issued.len() ==> (#[trigger] self@.issued[k]).size == 0
                    || self@.holds(self@.issued[k]),
            forall|j: int, k: int|
                0 <= j < self@.issued.len() && 0 <= k < self@.issued.len() && j != k ==> disjoint(
                    #[trigger] self@.issued[j],
                    #[trigger] self@.issued[k],
                ),
    {
        let now = self@;
        assert forall|i: int| 0 <= i < before.slabs.len() implies now.slabs[i]
            == before.slabs[i] by {
            assert(now.slabs.drop_last()[i] == now.slabs[i]);
        }
        assert forall|k: int| 0 <= k < now.issued.len() implies (#[trigger] now.issued[k]).size
            == 0 || now.holds(now.issued[k]) by {
            if k < before.issued.len() {
                assert(now.issued[k] == before.issued[k]);
            }
        }
        assert forall|j: int, k: int|
            0 <= j < now.issued.len() && 0 <= k < now.issued.len() && j != k implies disjoint(
            #[trigger] now.issued[j],
            #[trigger] now.issued[k],
        ) by {
            if j < before.issued.len() {
                assert(now.issued[j] == before.issued[j]);
            }
            if k < before.issued.len() {
                assert(now.issued[k] == before.issued[k]);
            }
        }
    }
}

/// The address ranges of the two blocks have no address in common.
pub open spec fn apart(a: Block, b: Block) -> bool {
    ||| a.size == 0
    ||| b.size == 0
    ||| a.addr + a.size <= b.addr
    ||| b.addr + b.size <= a.addr
}

/// No two slabs share an address, as holds of buffers that are alive together.
pub open spec fn slabs_apart(slabs: Seq<SlabView>) -> bool {
    forall|i: int, j: int|
        0 <= i < slabs.len() && 0 <= j < slabs.len() && i != j ==> {
            ||| (#[trigger] slabs[i]).base + slabs[i].bytes.len() <= (#[trigger] slabs[j]).base
            ||| slabs[j].base + slabs[j].bytes.len() <= slabs[i].base
        }
}

/// No two blocks that an arena has handed out have a byte in common.
pub proof fn lemma_issued_disjoint(arena: ArenaView, j: int, k: int)
    requires
        arena.wf(),
        0 <= j < arena.issued.len(),
        0 <= k < arena.issued.len(),
        j != k,
    ensures
        disjoint(arena.issued[j], arena.issued[k]),
{
}

/// Where the slabs of an arena lie apart in memory, no two blocks that it has
/// handed out have an address in common.
pub proof fn lemma_issued_apart(arena: ArenaView, j: int, k: int)
    requires
        arena.wf(),
        slabs_apart(arena.slabs),
        0 <= j < arena.issued.len(),
        0 <= k < arena.issued.len(),
        j != k,
    ensures
        apart(arena.issued[j], arena.issued[k]),
{
    let a = arena.issued[j];
    let b = arena.issued[k];
    assert(disjoint(a, b));
    if a.size > 0 && b.size > 0 && a.slab != b.slab {
        assert(arena.holds(a) && arena.holds(b));
        let s = arena.slabs[a.slab as int];
        let t = arena.slabs[b.slab as int];
        assert(s.base + s.bytes.len() <= t.base || t.base + t.bytes.len() <= s.base);
    }
}

/// A store into a block that the arena holds keeps the arena well formed.
pub proof fn lemma_store_wf(arena: ArenaView, target: Block, offset: int, value: u8)
    requires
        arena.wf(),
        arena.holds(target),
        0 <= offset < target.size,
    ensures
        arena.store(target, offset, value).wf(),
{
    let after = arena.store(target, offset, value);
    assert forall|k: int| 0 <= k < after.issued.len() implies (#[trigger] after.issued[k]).size
        == 0 || after.holds(after.issued[k]) by {
        assert(arena.issued[k].size == 0 || arena.holds(arena.issued[k]));
    }
}

/// A store into one block shows in that block, and in no block that has no
/// byte in common with it.
pub proof fn lemma_store(arena: ArenaView, target: Block, offset: int, value: u8, other: Block)
    requires
        arena.holds(target),
        0 <= offset < target.size,
        arena.holds(other),
        disjoint(target, other),
    ensures
        arena.store(target, offset, value).bytes(target) == arena.bytes(target).update(
            offset,
            value,
        ),
        arena.store(target, offset, value).bytes(other) == arena.bytes(other),
        arena.store(target, offset, value).holds(other),
{
    let after = arena.store(target, offset, value);
    assert(after.bytes(target) =~= arena.bytes(target).update(offset, value));
    assert(after.bytes(other) =~= arena.bytes(other));
}

} // verus!
