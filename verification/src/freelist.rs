//! The allocator: a list of free blocks kept inside the arena it hands out.

use crate::chain::{
    header_clear, headed, lemma_agree_represents, lemma_insert, lemma_replace, lemma_resize,
    lemma_store_clear, lemma_unlink, pointed, prepared, word_clear,
};
use crate::handle::FreeListPtr;
use crate::laws::{
    grant_bytes, lemma_allocation_conserves, lemma_release_apart, lemma_release_conserves,
    lemma_store_spares_grant,
};
use crate::memory::{
    agree_outside, changed_within, lemma_changed_spares, lemma_changed_step, lemma_word_apart,
    lemma_word_outside, lemma_word_range, lemma_word_stored, load_word, store_word, with_bytes,
    word_at,
};
use crate::model::{
    apart, carve, first_fit, first_fit_from, fits, free_space, grant_for, lemma_padding_aligns,
    lemma_slot_from, lemma_sum_one, link, live_space, padding, release, represents, slot,
    slot_from, sound, tiled, Block, Grant, HEADER_ALIGN, HEADER_SIZE, INVALID,
};
use crate::node::Node;
use vstd::prelude::*;

verus! {

/// Keeps track of allocations inside one arena of bytes. It searches its
/// free blocks in address order and takes the first that is large enough, so
/// the arena can fragment. Offsets are thirty-two bits wide, which limits the
/// arena to `u32::MAX` bytes.
pub struct FreeListAllocator {
    head: u32,
    base: usize,
    memory: Vec<u8>,
    free: Ghost<Seq<Block>>,
    live: Ghost<Seq<Grant>>,
}

impl FreeListAllocator {
    /// The number of bytes in the arena.
    pub closed spec fn capacity(&self) -> int {
        self.memory@.len() as int
    }

    /// The address of the arena's first byte.
    pub closed spec fn base(&self) -> int {
        self.base as int
    }

    /// The free blocks, in address order.
    pub closed spec fn free_list(&self) -> Seq<Block> {
        self.free@
    }

    /// The allocations that were handed out and not given back, oldest first.
    pub closed spec fn live(&self) -> Seq<Grant> {
        self.live@
    }

    /// The bytes of the arena.
    pub closed spec fn bytes(&self) -> Seq<u8> {
        self.memory@
    }

    /// The offset of the first free block, or `INVALID` where none is free.
    pub closed spec fn head(&self) -> int {
        self.head as int
    }

    /// The headers inside the arena hold the free list, no free block ends
    /// where the next one starts, and the arena's addresses fit the machine.
    pub open spec fn linked(&self) -> bool {
        &&& represents(self.bytes(), self.head(), self.free_list())
        &&& apart(self.free_list())
        &&& self.base() + self.capacity() <= usize::MAX
        &&& self.base() % HEADER_ALIGN as int == 0
    }

    /// The allocator is linked, and its free blocks and live allocations
    /// share out the arena.
    pub open spec fn wf(&self) -> bool {
        &&& self.linked()
        &&& tiled(self.free_list(), self.live(), self.base(), self.capacity())
    }

    /// The usable bytes of the allocation `g`.
    pub open spec fn contents(&self, g: Grant) -> Seq<u8> {
        grant_bytes(self.bytes(), self.base(), g)
    }

    /// In a well-formed allocator the free bytes and the reserved bytes add
    /// up to the arena's size.
    pub proof fn lemma_conservation(&self)
        requires
            self.wf(),
        ensures
            free_space(self.free_list()) + live_space(self.live()) == self.capacity(),
    {
    }

    /// Reads the header at offset `at`.
    fn node_at(&self, at: u32) -> (node: Node)
        requires
            at + HEADER_SIZE <= self.memory.len(),
        ensures
            node.next == word_at(self.memory@, at as int),
            node.size == word_at(self.memory@, at + 4),
    {
        let next = load_word(&self.memory, at as usize);
        let size = load_word(&self.memory, at as usize + 4);
        Node { next, size }
    }

    /// Takes over the arena `memory`, whose first byte is taken to stand at
    /// address `base`, and makes all of it one free block.
    pub fn new(memory: Vec<u8>, base: usize) -> (allocator: Self)
        requires
            HEADER_SIZE <= memory.len() <= u32::MAX,
            base + memory.len() <= usize::MAX,
            base as int % HEADER_ALIGN as int == 0,
        ensures
            allocator.wf(),
            allocator.base() == base,
            allocator.capacity() == memory.len(),
            allocator.free_list() == seq![Block { start: 0, size: memory.len() as int }],
            allocator.live() == Seq::<Grant>::empty(),
            allocator.bytes().subrange(HEADER_SIZE as int, memory.len() as int)
                == memory@.subrange(HEADER_SIZE as int, memory.len() as int),
    {
        let mut memory = memory;
        let ghost bytes0 = memory@;
        let mem_size: u32 = memory.len() as u32;
        store_word(&mut memory, 0, INVALID);
        let ghost bytes1 = memory@;
        store_word(&mut memory, 4, mem_size);
        let ghost free = seq![Block { start: 0, size: mem_size as int }];
        proof {
            lemma_word_stored(bytes0, 0, INVALID as int);
            lemma_word_stored(bytes1, 4, mem_size as int);
            lemma_word_apart(bytes1, 4, mem_size as int, 0);
            lemma_word_outside(bytes0, 0, INVALID as int, 8, mem_size as int);
            lemma_word_outside(bytes1, 4, mem_size as int, 8, mem_size as int);
            assert(crate::model::block_sizes(free) =~= seq![mem_size as int]);
            lemma_sum_one(mem_size as int);
            assert(crate::model::grant_sizes(Seq::<Grant>::empty()) =~= Seq::<int>::empty());
        }
        FreeListAllocator {
            head: 0,
            base,
            memory,
            free: Ghost(free),
            live: Ghost(Seq::empty()),
        }
    }

    /// Points the link that leads to block `j` at `target`: the head where
    /// `previous` is `INVALID`, else the header at `previous`.
    fn point(&mut self, previous: u32, target: u32, Ghost(j): Ghost<int>)
        requires
            represents(old(self).memory@, old(self).head as int, old(self).free@),
            0 <= j <= old(self).free@.len(),
            previous == link(old(self).free@, j - 1),
        ensures
            final(self).memory@ == pointed(old(self).memory@, old(self).free@, j, target as int),
            final(self).head == headed(old(self).head as int, j, target as int),
            final(self).memory.len() == old(self).memory.len(),
            final(self).base == old(self).base,
            final(self).free == old(self).free,
            final(self).live == old(self).live,
    {
        if previous == INVALID {
            self.head = target;
        } else {
            assert(0 <= self.free@[j - 1].start);
            store_word(&mut self.memory, previous as usize, target);
        }
    }

    /// Takes block `i` out of the list and hands all of it out.
    fn take_node(
        &mut self,
        previous: u32,
        node_index: u32,
        node: Node,
        padding: u32,
        Ghost(i): Ghost<int>,
    ) -> (handle: FreeListPtr<u8>)
        requires
            old(self).wf(),
            0 <= i < old(self).free@.len(),
            node_index == old(self).free@[i].start,
            previous == link(old(self).free@, i - 1),
            node.next == link(old(self).free@, i + 1),
            node.size == old(self).free@[i].size,
            padding <= node.size,
        ensures
            handle@ == (Grant {
                addr: old(self).base + node_index + padding,
                pad: padding as int,
                size: node.size as int,
            }),
            represents(final(self).memory@, final(self).head as int, final(self).free@),
            final(self).free@ == old(self).free@.remove(i),
            final(self).live@ == old(self).live@.push(handle@),
            final(self).base == old(self).base,
            final(self).memory.len() == old(self).memory.len(),
            forall|k: int|
                0 <= k < old(self).live@.len() ==> grant_bytes(
                    final(self).memory@,
                    old(self).base as int,
                    #[trigger] old(self).live@[k],
                ) == grant_bytes(old(self).memory@, old(self).base as int, old(self).live@[k]),
    {
        let ghost free = self.free@;
        let ghost bytes = self.memory@;
        let ghost live = self.live@;
        self.point(previous, node.next, Ghost(i));
        let handle = FreeListPtr::new(
            self.base + node_index as usize + padding as usize,
            padding,
            node.size,
        );
        proof {
            lemma_unlink(bytes, old(self).head as int, free, i);
            assert forall|k: int| 0 <= k < live.len() implies grant_bytes(
                self.memory@,
                self.base as int,
                #[trigger] live[k],
            ) == grant_bytes(bytes, self.base as int, live[k]) by {
                if i > 0 {
                    assert(sound(live[k], self.base as int, bytes.len() as int));
                    lemma_store_spares_grant(
                        bytes,
                        free[i - 1].start,
                        node.next as int,
                        free[i - 1],
                        live[k],
                        self.base as int,
                    );
                }
            }
        }
        self.free = Ghost(free.remove(i));
        self.live = Ghost(live.push(handle@));
        handle
    }

    /// Hands out the first `alloc_size` bytes of block `i` and leaves the rest
    /// in the list, under a header of its own.
    fn split_node(
        &mut self,
        previous: u32,
        node_index: u32,
        node: Node,
        padding: u32,
        alloc_size: u32,
        Ghost(i): Ghost<int>,
    ) -> (handle: FreeListPtr<u8>)
        requires
            old(self).wf(),
            0 <= i < old(self).free@.len(),
            node_index == old(self).free@[i].start,
            previous == link(old(self).free@, i - 1),
            node.next == link(old(self).free@, i + 1),
            node.size == old(self).free@[i].size,
            padding <= alloc_size,
            HEADER_SIZE <= alloc_size,
            alloc_size + HEADER_SIZE <= node.size,
        ensures
            handle@ == (Grant {
                addr: old(self).base + node_index + padding,
                pad: padding as int,
                size: alloc_size as int,
            }),
            represents(final(self).memory@, final(self).head as int, final(self).free@),
            final(self).free@ == old(self).free@.update(
                i,
                Block { start: node_index + alloc_size, size: node.size - alloc_size },
            ),
            final(self).live@ == old(self).live@.push(handle@),
            final(self).base == old(self).base,
            final(self).memory.len() == old(self).memory.len(),
            forall|k: int|
                0 <= k < old(self).live@.len() ==> grant_bytes(
                    final(self).memory@,
                    old(self).base as int,
                    #[trigger] old(self).live@[k],
                ) == grant_bytes(old(self).memory@, old(self).base as int, old(self).live@[k]),
    {
        let ghost free = self.free@;
        let ghost bytes = self.memory@;
        let ghost live = self.live@;
        let ghost head = self.head as int;
        let left_over: u32 = node.size - alloc_size;
        let new_ptr: u32 = node_index + alloc_size;
        let ghost rest = Block { start: new_ptr as int, size: left_over as int };
        assert(free[i].end() <= bytes.len());
        store_word(&mut self.memory, new_ptr as usize, node.next);
        let ghost bytes1 = self.memory@;
        store_word(&mut self.memory, new_ptr as usize + 4, left_over);
        let ghost bytes2 = self.memory@;
        proof {
            assert(word_clear(free, new_ptr as int) && word_clear(free, new_ptr + 4)) by {
                assert forall|j: int| 0 <= j < free.len() implies new_ptr + 8 <= (
                #[trigger] free[j]).start || free[j].start + HEADER_SIZE <= new_ptr by {
                    if j < i {
                        assert(free[j].end() < free[i].start);
                    } else if j > i {
                        assert(free[i].end() < free[j].start);
                    }
                }
            }
            lemma_store_clear(bytes, head, free, new_ptr as int, node.next as int);
            lemma_store_clear(bytes1, head, free, new_ptr + 4, left_over as int);
            lemma_word_stored(bytes, new_ptr as int, node.next as int);
            lemma_word_stored(bytes1, new_ptr + 4, left_over as int);
            lemma_word_apart(bytes1, new_ptr + 4, left_over as int, new_ptr as int);
            assert(prepared(bytes2, rest, link(free, i + 1)));
            if i > 0 {
                assert(free[i - 1].end() < free[i].start);
            }
            if i + 1 < free.len() {
                assert(free[i].end() < free[i + 1].start);
            }
            lemma_replace(bytes2, head, free, i, rest);
        }
        self.point(previous, new_ptr, Ghost(i));
        let handle = FreeListPtr::new(
            self.base + node_index as usize + padding as usize,
            padding,
            alloc_size,
        );
        proof {
            assert forall|k: int| 0 <= k < live.len() implies grant_bytes(
                self.memory@,
                self.base as int,
                #[trigger] live[k],
            ) == grant_bytes(bytes, self.base as int, live[k]) by {
                let g = live[k];
                let b = self.base as int;
                assert(sound(g, b, bytes.len() as int));
                assert(b + free[i].end() <= g.first() || g.end() <= b + free[i].start);
                lemma_store_spares_grant(bytes, new_ptr as int, node.next as int, free[i], g, b);
                lemma_store_spares_grant(bytes1, new_ptr + 4, left_over as int, free[i], g, b);
                if i > 0 {
                    lemma_store_spares_grant(
                        bytes2,
                        free[i - 1].start,
                        new_ptr as int,
                        free[i - 1],
                        g,
                        b,
                    );
                }
            }
        }
        self.free = Ghost(free.update(i, rest));
        self.live = Ghost(live.push(handle@));
        handle
    }

    /// Reserves `size` bytes at an address that is a multiple of `align`, in
    /// the first free block, in address order, that has room for them behind
    /// the padding that its address calls for. Where the rest of that block
    /// would be too small for a header, the whole block is handed out.
    /// Returns `None` where no free block has room.
    pub fn allocate(&mut self, size: usize, align: usize) -> (result: Option<FreeListPtr<u8>>)
        requires
            old(self).wf(),
            HEADER_SIZE <= size,
            0 < align,
        ensures
            final(self).wf(),
            final(self).base() == old(self).base(),
            final(self).capacity() == old(self).capacity(),
            ({
                let free = old(self).free_list();
                let base = old(self).base();
                let i = first_fit(free, base, size as int, align as int);
                if i == free.len() {
                    &&& result is None
                    &&& final(self).free_list() == free
                    &&& final(self).live() == old(self).live()
                    &&& final(self).bytes() == old(self).bytes()
                } else {
                    &&& 0 <= i < free.len()
                    &&& result is Some
                    &&& result->0@ == grant_for(free[i], base, size as int, align as int)
                    &&& final(self).free_list() == carve(
                        free,
                        i,
                        size + padding(base + free[i].start, align as int),
                    )
                    &&& final(self).live() == old(self).live().push(result->0@)
                }
            }),
            result matches Some(handle) ==> {
                &&& handle@.addr % (align as int) == 0
                &&& handle@.pad == padding(handle@.first(), align as int)
                &&& handle@.size >= size + handle@.pad
            },
            forall|k: int|
                0 <= k < old(self).live().len() ==> final(self).contents(
                    #[trigger] old(self).live()[k],
                ) == old(self).contents(old(self).live()[k]),
    {
        let mut node_index = self.head;
        let mut previous: u32 = INVALID;
        let ghost mut i: int = 0;
        let ghost free = self.free@;
        while node_index != INVALID
            invariant
                *self == *old(self),
                self.wf(),
                free == self.free@,
                0 <= i <= free.len(),
                node_index == link(free, i),
                previous == link(free, i - 1),
                first_fit(free, self.base as int, size as int, align as int) == first_fit_from(
                    free,
                    i,
                    self.base as int,
                    size as int,
                    align as int,
                ),
                HEADER_SIZE <= size,
                0 < align,
            decreases free.len() - i,
        {
            assert(0 <= free[i].start && free[i].end() <= self.memory@.len());
            let node = self.node_at(node_index);
            let node_addr: usize = self.base + node_index as usize;
            proof {
                vstd::arithmetic::div_mod::lemma_mod_pos_bound(node_addr as int, align as int);
                lemma_padding_aligns(node_addr as int, align as int);
            }
            let padding: usize = (align - node_addr % align) % align;
            assert(padding == crate::model::padding(self.base + free[i].start, align as int));
            if padding <= node.size as usize && size <= node.size as usize - padding {
                let alloc_size: u32 = (size + padding) as u32;
                let left_over: u32 = node.size - alloc_size;
                proof {
                    assert(fits(free[i], self.base as int, size as int, align as int));
                    lemma_allocation_conserves(
                        free,
                        self.live@,
                        self.base as int,
                        self.memory@.len() as int,
                        i,
                        size as int,
                        align as int,
                    );
                }
                let handle = if left_over < HEADER_SIZE {
                    self.take_node(previous, node_index, node, padding as u32, Ghost(i))
                } else {
                    self.split_node(
                        previous,
                        node_index,
                        node,
                        padding as u32,
                        alloc_size,
                        Ghost(i),
                    )
                };
                assert(handle@ == grant_for(free[i], self.base as int, size as int, align as int));
                assert(self.free@ == carve(free, i, size + padding));
                assert(apart(self.free@)) by {
                    assert forall|j: int| 0 <= j && j + 1 < self.free@.len() implies (
                    #[trigger] self.free@[j]).end() != self.free@[j + 1].start by {
                        assert(self.free@[j].end() < self.free@[j + 1].start);
                    }
                }
                return Some(handle);
            }
            previous = node_index;
            node_index = node.next;
            proof {
                i = i + 1;
            }
        }
        None
    }

    /// Puts the block whose header stands at `at` into the list, at its place
    /// in address order. The block takes in the block behind it where it ends
    /// at that block's start, and the block before it takes it in where that
    /// block ends at `at`.
    fn dealloc_intern(&mut self, at: u32)
        requires
            represents(old(self).memory@, old(self).head as int, old(self).free@),
            apart(old(self).free@),
            at + HEADER_SIZE <= old(self).memory.len(),
            header_clear(old(self).free@, at as int),
            forall|j: int|
                0 <= j < old(self).free@.len() ==> (#[trigger] old(self).free@[j]).end()
                    <= u32::MAX,
            at + word_at(old(self).memory@, at + 4) <= u32::MAX,
        ensures
            represents(final(self).memory@, final(self).head as int, final(self).free@),
            apart(final(self).free@),
            final(self).free@ == release(
                old(self).free@,
                at as int,
                word_at(old(self).memory@, at + 4),
            ),
            changed_within(
                old(self).memory@,
                final(self).memory@,
                at as int,
                link(old(self).free@, slot(old(self).free@, at as int) - 1),
            ),
            final(self).base == old(self).base,
            final(self).live == old(self).live,
    {
        let ghost free = self.free@;
        let ghost bytes = self.memory@;
        let ghost head = self.head as int;
        let mut node_index = self.head;
        let mut previous: u32 = INVALID;
        let ghost mut i: int = 0;
        while node_index < at
            invariant
                *self == *old(self),
                represents(bytes, head, free),
                free == self.free@,
                bytes == self.memory@,
                0 <= i <= free.len(),
                node_index == link(free, i),
                previous == link(free, i - 1),
                slot(free, at as int) == slot_from(free, i, at as int),
            decreases free.len() - i,
        {
            assert(0 <= free[i].start);
            let node = self.node_at(node_index);
            previous = node_index;
            node_index = node.next;
            proof {
                i = i + 1;
            }
        }
        proof {
            lemma_slot_from(free, 0, at as int);
            lemma_word_range(bytes, at + 4);
            if i < free.len() {
                assert(0 <= free[i].start);
            }
            if i > 0 {
                assert(0 <= free[i - 1].start);
            }
        }
        assert(slot(free, at as int) == i);
        let freed = self.node_at(at);
        let ghost len = freed.size as int;
        let mut size: u32 = freed.size;
        let mut next: u32 = node_index;
        let mut merged = false;
        if node_index != INVALID {
            let node = self.node_at(node_index);
            if Node::touches(node_index, &node, at, &freed) {
                size = freed.size + node.size;
                next = node.next;
                merged = true;
            }
        }
        assert(merged == (i < free.len() && at + len == free[i].start));
        store_word(&mut self.memory, at as usize, next);
        let ghost bytes1 = self.memory@;
        store_word(&mut self.memory, at as usize + 4, size);
        let ghost bytes2 = self.memory@;
        let ghost block = Block { start: at as int, size: size as int };
        let ghost other = link(free, i - 1);
        proof {
            assert(word_clear(free, at as int) && word_clear(free, at + 4));
            lemma_store_clear(bytes, head, free, at as int, next as int);
            lemma_store_clear(bytes1, head, free, at + 4, size as int);
            lemma_word_stored(bytes, at as int, next as int);
            lemma_word_stored(bytes1, at + 4, size as int);
            lemma_word_apart(bytes1, at + 4, size as int, at as int);
            assert(prepared(bytes2, block, next as int));
            assert(changed_within(bytes, bytes, at as int, other));
            lemma_changed_step(bytes, bytes, at as int, other, at as int, next as int);
            lemma_changed_step(bytes, bytes1, at as int, other, at + 4, size as int);
        }
        if previous == INVALID {
            self.head = at;
            proof {
                if merged {
                    if 1 < free.len() {
                        assert(free[0].start + HEADER_SIZE <= free[1].start);
                    }
                    lemma_replace(bytes2, head, free, 0, block);
                    self.free@ = free.update(0, block);
                } else {
                    lemma_insert(bytes2, head, free, 0, block);
                    self.free@ = free.insert(0, block);
                }
            }
        } else {
            let prev = self.node_at(previous);
            let joining = Node { next, size };
            if Node::touches(previous, &prev, at, &joining) {
                let joined: u32 = prev.size + size;
                store_word(&mut self.memory, previous as usize + 4, joined);
                let ghost bytes3 = self.memory@;
                let ghost grown = free.update(
                    i - 1,
                    Block { start: free[i - 1].start, size: joined as int },
                );
                proof {
                    lemma_resize(bytes2, head, free, i - 1, joined as int);
                    lemma_changed_step(bytes, bytes2, at as int, other, previous + 4, joined as int);
                }
                if merged {
                    store_word(&mut self.memory, previous as usize, next);
                    proof {
                        assert(link(grown, i + 1) == link(free, i + 1)) by {
                            if i + 1 < free.len() {
                                assert(grown[i + 1] == free[i + 1]);
                            }
                        }
                        assert(grown[i - 1].start == previous);
                        lemma_unlink(bytes3, head, grown, i);
                        lemma_changed_step(
                            bytes,
                            bytes3,
                            at as int,
                            other,
                            previous as int,
                            next as int,
                        );
                        self.free@ = grown.remove(i);
                    }
                } else {
                    proof {
                        self.free@ = grown;
                    }
                }
            } else {
                store_word(&mut self.memory, previous as usize, at);
                proof {
                    lemma_changed_step(bytes, bytes2, at as int, other, previous as int, at as int);
                    if merged {
                        if i + 1 < free.len() {
                            assert(free[i].start + HEADER_SIZE <= free[i + 1].start);
                        }
                        lemma_replace(bytes2, head, free, i, block);
                        self.free@ = free.update(i, block);
                    } else {
                        lemma_insert(bytes2, head, free, i, block);
                        self.free@ = free.insert(i, block);
                    }
                }
            }
        }
        proof {
            let after = self.free@;
            assert(after == release(free, at as int, len));
            lemma_release_apart(free, at as int, len);
        }
    }

    /// Gives the allocation `mem` back. The bytes from the first reserved one
    /// on, as many as the size and the padding of `mem` add up to, become a
    /// free block, joined with the free block behind them and the free block
    /// before them where they touch.
    ///
    /// For a handle without padding these are the reserved bytes, and the
    /// allocator stays well formed. The size of a handle with padding counts
    /// the padding already, so the bytes given back reach past the reserved
    /// ones by the padding, and the allocator is linked but no longer well
    /// formed.
    pub fn dealloc<T>(&mut self, mem: FreeListPtr<T>)
        requires
            old(self).wf(),
            old(self).live().contains(mem@),
            mem@.end() + mem@.pad - old(self).base() <= u32::MAX,
        ensures
            final(self).linked(),
            apart(final(self).free_list()),
            final(self).base() == old(self).base(),
            final(self).capacity() == old(self).capacity(),
            final(self).free_list() == release(
                old(self).free_list(),
                mem@.first() - old(self).base(),
                mem@.size + mem@.pad,
            ),
            final(self).live() == old(self).live().remove(old(self).live().index_of(mem@)),
            mem@.pad == 0 ==> final(self).wf(),
            forall|k: int|
                0 <= k < old(self).live().len() && old(self).live()[k] != mem@
                    ==> final(self).contents(#[trigger] old(self).live()[k])
                    == old(self).contents(old(self).live()[k]),
    {
        let ghost free = self.free@;
        let ghost bytes = self.memory@;
        let ghost live = self.live@;
        let ghost head = self.head as int;
        let ghost base = self.base as int;
        let ghost k = live.index_of(mem@);
        assert(0 <= k < live.len() && live[k] == mem@);
        assert(sound(live[k], base, bytes.len() as int));
        // the first reserved byte, without the padding
        let at: u32 = (mem.as_ptr() - mem.padding() as usize - self.base) as u32;
        let mem_size: u32 = mem.size() + mem.padding();
        let ghost block = Block { start: at as int, size: mem_size as int };
        proof {
            assert forall|j: int| 0 <= j < free.len() implies at + HEADER_SIZE <= (
            #[trigger] free[j]).start || free[j].start + HEADER_SIZE <= at by {
                assert(base + free[j].end() <= live[k].first() || live[k].end() <= base
                    + free[j].start);
            }
            assert(word_clear(free, at as int) && word_clear(free, at + 4));
        }
        store_word(&mut self.memory, at as usize, INVALID);
        let ghost bytes1 = self.memory@;
        store_word(&mut self.memory, at as usize + 4, mem_size);
        let ghost bytes2 = self.memory@;
        let ghost other = link(free, slot(free, at as int) - 1);
        proof {
            lemma_store_clear(bytes, head, free, at as int, INVALID as int);
            lemma_store_clear(bytes1, head, free, at + 4, mem_size as int);
            lemma_word_stored(bytes, at as int, INVALID as int);
            lemma_word_stored(bytes1, at + 4, mem_size as int);
            lemma_word_apart(bytes1, at + 4, mem_size as int, at as int);
            assert(changed_within(bytes, bytes, at as int, other));
            lemma_changed_step(bytes, bytes, at as int, other, at as int, INVALID as int);
            lemma_changed_step(bytes, bytes1, at as int, other, at + 4, mem_size as int);
            lemma_slot_from(free, 0, at as int);
        }
        // there is no free space, so no point in looking for touching blocks
        if self.head == INVALID {
            self.head = at;
            proof {
                assert(free.len() == 0) by {
                    if free.len() > 0 {
                        assert(free[0].start + HEADER_SIZE <= bytes.len());
                    }
                }
                lemma_insert(bytes2, head, free, 0, block);
                self.free@ = free.insert(0, block);
                lemma_release_apart(free, at as int, mem_size as int);
            }
        } else {
            self.dealloc_intern(at);
        }
        proof {
            self.live@ = live.remove(k);
            let after = self.memory@;
            assert(changed_within(bytes, after, at as int, other));
            if mem@.pad == 0 {
                lemma_release_conserves(free, live, base, bytes.len() as int, k);
            }
            assert forall|m: int| 0 <= m < live.len() && live[m] != mem@ implies grant_bytes(
                after,
                base,
                #[trigger] live[m],
            ) == grant_bytes(bytes, base, live[m]) by {
                let g = live[m];
                let i = slot(free, at as int);
                assert(sound(g, base, bytes.len() as int));
                if m < k {
                    assert(live[m].end() <= live[k].first() || live[k].end() <= live[m].first());
                } else {
                    assert(live[k].end() <= live[m].first() || live[m].end() <= live[k].first());
                }
                if i > 0 {
                    assert(base + free[i - 1].end() <= g.first() || g.end() <= base + free[i
                        - 1].start);
                    assert(HEADER_SIZE <= free[i - 1].size);
                }
                lemma_changed_spares(
                    bytes,
                    after,
                    at as int,
                    other,
                    g.addr - base,
                    g.addr - base + g.usable(),
                );
            }
        }
    }

    /// Copies `data` into the first usable bytes of the allocation `ptr`.
    pub fn write<T>(&mut self, ptr: &FreeListPtr<T>, data: &[u8])
        requires
            old(self).wf(),
            old(self).live().contains(ptr@),
            data.len() <= ptr@.usable(),
        ensures
            final(self).wf(),
            final(self).base() == old(self).base(),
            final(self).capacity() == old(self).capacity(),
            final(self).free_list() == old(self).free_list(),
            final(self).live() == old(self).live(),
            final(self).bytes() == with_bytes(
                old(self).bytes(),
                ptr@.addr - old(self).base(),
                data@,
            ),
            final(self).contents(ptr@) == data@ + old(self).contents(ptr@).subrange(
                data.len() as int,
                ptr@.usable(),
            ),
            forall|k: int|
                0 <= k < old(self).live().len() && old(self).live()[k] != ptr@
                    ==> final(self).contents(#[trigger] old(self).live()[k])
                    == old(self).contents(old(self).live()[k]),
    {
        let ghost free = self.free@;
        let ghost bytes = self.memory@;
        let ghost live = self.live@;
        let ghost base = self.base as int;
        let ghost k = live.index_of(ptr@);
        assert(0 <= k < live.len() && live[k] == ptr@);
        assert(sound(live[k], base, bytes.len() as int));
        let start: usize = ptr.as_ptr() - self.base;
        let mut n: usize = 0;
        while n < data.len()
            invariant
                0 <= n <= data.len(),
                start + data.len() <= bytes.len(),
                self.memory@.len() == bytes.len(),
                self.head == old(self).head,
                self.base == old(self).base,
                self.free == old(self).free,
                self.live == old(self).live,
                forall|x: int|
                    0 <= x < bytes.len() && !(start <= x < start + n) ==> #[trigger] self.memory@[x]
                        == bytes[x],
                forall|x: int|
                    start <= x < start + n ==> #[trigger] self.memory@[x] == data@[x - start],
                bytes.len() <= u32::MAX,
            decreases data.len() - n,
        {
            self.memory.set(start + n, data[n]);
            n = n + 1;
        }
        proof {
            let after = self.memory@;
            let from = start as int;
            let to = start + data.len();
            assert(agree_outside(bytes, after, from, to));
            assert(after =~= with_bytes(bytes, from, data@));
            assert forall|j: int| 0 <= j < free.len() implies to <= (#[trigger] free[j]).start
                || free[j].start + HEADER_SIZE <= from by {
                assert(base + free[j].end() <= live[k].first() || live[k].end() <= base
                    + free[j].start);
            }
            lemma_agree_represents(bytes, after, self.head as int, free, from, to);
            assert(grant_bytes(after, base, ptr@) =~= data@ + grant_bytes(
                bytes,
                base,
                ptr@,
            ).subrange(data.len() as int, ptr@.usable()));
            assert forall|m: int| 0 <= m < live.len() && live[m] != ptr@ implies grant_bytes(
                after,
                base,
                #[trigger] live[m],
            ) == grant_bytes(bytes, base, live[m]) by {
                assert(sound(live[m], base, bytes.len() as int));
                if m < k {
                    assert(live[m].end() <= live[k].first() || live[k].end() <= live[m].first());
                } else {
                    assert(live[k].end() <= live[m].first() || live[m].end() <= live[k].first());
                }
                assert(grant_bytes(after, base, live[m]) =~= grant_bytes(bytes, base, live[m]));
            }
        }
    }

    /// Copies the usable bytes of the allocation `ptr` out.
    pub fn read<T>(&self, ptr: &FreeListPtr<T>) -> (data: Vec<u8>)
        requires
            self.wf(),
            self.live().contains(ptr@),
        ensures
            data@ == self.contents(ptr@),
    {
        let ghost k = self.live@.index_of(ptr@);
        assert(0 <= k < self.live@.len() && self.live@[k] == ptr@);
        assert(sound(self.live@[k], self.base as int, self.memory@.len() as int));
        let start: usize = ptr.as_ptr() - self.base;
        let len: usize = (ptr.size() - ptr.padding()) as usize;
        let mut data: Vec<u8> = Vec::new();
        let mut n: usize = 0;
        while n < len
            invariant
                0 <= n <= len,
                start + len <= self.memory@.len(),
                self.memory@.len() <= u32::MAX,
                data@ == self.memory@.subrange(start as int, start + n),
            decreases len - n,
        {
            data.push(self.memory[start + n]);
            n = n + 1;
            assert(data@ =~= self.memory@.subrange(start as int, start + n));
        }
        data
    }

    /// The free blocks in address order, each as its offset and its size.
    pub fn free_blocks(&self) -> (blocks: Vec<(u32, u32)>)
        requires
            self.linked(),
        ensures
            blocks@.len() == self.free_list().len(),
            forall|i: int|
                0 <= i < blocks@.len() ==> (#[trigger] blocks@[i]).0 == self.free_list()[i].start
                    && blocks@[i].1 == self.free_list()[i].size,
    {
        let mut blocks: Vec<(u32, u32)> = Vec::new();
        let mut node_index = self.head;
        while node_index != INVALID
            invariant
                self.linked(),
                blocks@.len() <= self.free@.len(),
                node_index == link(self.free@, blocks@.len() as int),
                forall|i: int|
                    0 <= i < blocks@.len() ==> (#[trigger] blocks@[i]).0 == self.free@[i].start
                        && blocks@[i].1 == self.free@[i].size,
            decreases self.free@.len() - blocks@.len(),
        {
            assert(0 <= self.free@[blocks@.len() as int].start);
            let node = self.node_at(node_index);
            blocks.push((node_index, node.size));
            node_index = node.next;
        }
        blocks
    }

    /// The sizes of the free blocks, in address order.
    pub fn free_sizes(&self) -> (sizes: Vec<u32>)
        requires
            self.linked(),
        ensures
            sizes@.len() == self.free_list().len(),
            forall|i: int|
                0 <= i < sizes@.len() ==> #[trigger] sizes@[i] == self.free_list()[i].size,
    {
        let mut sizes: Vec<u32> = Vec::new();
        let mut node_index = self.head;
        while node_index != INVALID
            invariant
                self.linked(),
                sizes@.len() <= self.free@.len(),
                node_index == link(self.free@, sizes@.len() as int),
                forall|i: int| 0 <= i < sizes@.len() ==> #[trigger] sizes@[i] == self.free@[i].size,
            decreases self.free@.len() - sizes@.len(),
        {
            assert(0 <= self.free@[sizes@.len() as int].start);
            let node = self.node_at(node_index);
            sizes.push(node.size);
            node_index = node.next;
        }
        sizes
    }
}

} // verus!
