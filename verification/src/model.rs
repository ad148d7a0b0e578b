//! The allocator's mathematical model: the free list as a sequence of blocks,
//! the live allocations as a sequence of grants, and what allocating and
//! releasing do to them.

use vstd::prelude::*;

verus! {

/// The link that stands for "no next block"; as a head, for "no free block".
pub const INVALID: u32 = u32::MAX;

/// Bytes that a free block's header takes: two words.
pub const HEADER_SIZE: u32 = 8;

/// Alignment that the arena's first address must have.
pub const HEADER_ALIGN: usize = 4;

/// A run of bytes in the arena: `size` bytes from offset `start` on.
pub struct Block {
    pub start: int,
    pub size: int,
}

/// What a handle stands for: the address of the usable bytes, the padding
/// bytes in front of them, and the bytes reserved in all, padding included.
pub struct Grant {
    pub addr: int,
    pub pad: int,
    pub size: int,
}

impl Block {
    /// The offset of the first byte behind the block.
    pub open spec fn end(self) -> int {
        self.start + self.size
    }
}

impl Grant {
    /// The address of the first reserved byte.
    pub open spec fn first(self) -> int {
        self.addr - self.pad
    }

    /// The address of the first byte behind the reserved ones.
    pub open spec fn end(self) -> int {
        self.addr - self.pad + self.size
    }

    /// The number of usable bytes.
    pub open spec fn usable(self) -> int {
        self.size - self.pad
    }
}

/// Bytes to skip from `addr` to reach the next multiple of `align`.
pub open spec fn padding(addr: int, align: int) -> int {
    (align - addr % align) % align
}

/// The padding is smaller than the alignment and leads to an aligned address.
pub proof fn lemma_padding_aligns(addr: int, align: int)
    requires
        0 <= addr,
        0 < align,
    ensures
        0 <= padding(addr, align) < align,
        (addr + padding(addr, align)) % align == 0,
{
    let r = addr % align;
    assert(0 <= r < align) by (nonlinear_arith)
        requires
            0 <= addr,
            0 < align,
            r == addr % align,
    ;
    if r == 0 {
        assert(align % align == 0) by (nonlinear_arith)
            requires
                0 < align,
        ;
    } else {
        let p = align - r;
        assert(p % align == p) by (nonlinear_arith)
            requires
                0 < p < align,
        ;
        assert((addr + p) % align == 0) by (nonlinear_arith)
            requires
                0 <= addr,
                0 < align,
                r == addr % align,
                p == align - r,
        {
            assert(addr == align * (addr / align) + addr % align);
            assert(addr + p == align * (addr / align + 1));
            assert((align * (addr / align + 1)) % align == 0);
        }
    }
}

/// The sum of the numbers in `s`.
pub open spec fn sum(s: Seq<int>) -> int
    decreases s.len(),
{
    if s.len() == 0 {
        0
    } else {
        sum(s.drop_last()) + s.last()
    }
}

/// The sum of two sequences put together is the sum of their sums.
pub proof fn lemma_sum_concat(a: Seq<int>, b: Seq<int>)
    ensures
        sum(a + b) == sum(a) + sum(b),
    decreases b.len(),
{
    if b.len() == 0 {
        assert(a + b =~= a);
    } else {
        assert((a + b).drop_last() =~= a + b.drop_last());
        lemma_sum_concat(a, b.drop_last());
    }
}

/// The sum of a sequence of one number is that number.
pub proof fn lemma_sum_one(v: int)
    ensures
        sum(seq![v]) == v,
{
    assert(seq![v].drop_last() =~= Seq::<int>::empty());
    assert(sum(seq![v].drop_last()) == 0);
}

/// Taking an entry out lowers the sum by that entry.
pub proof fn lemma_sum_remove(s: Seq<int>, i: int)
    requires
        0 <= i < s.len(),
    ensures
        sum(s.remove(i)) == sum(s) - s[i],
{
    let a = s.subrange(0, i);
    let b = s.subrange(i + 1, s.len() as int);
    assert(s =~= a + seq![s[i]] + b);
    assert(s.remove(i) =~= a + b);
    lemma_sum_concat(a, seq![s[i]]);
    lemma_sum_concat(a + seq![s[i]], b);
    lemma_sum_concat(a, b);
    lemma_sum_one(s[i]);
}

/// Replacing an entry changes the sum by the difference.
pub proof fn lemma_sum_update(s: Seq<int>, i: int, v: int)
    requires
        0 <= i < s.len(),
    ensures
        sum(s.update(i, v)) == sum(s) - s[i] + v,
{
    let a = s.subrange(0, i);
    let b = s.subrange(i + 1, s.len() as int);
    assert(s =~= a + seq![s[i]] + b);
    assert(s.update(i, v) =~= a + seq![v] + b);
    lemma_sum_concat(a, seq![s[i]]);
    lemma_sum_concat(a + seq![s[i]], b);
    lemma_sum_concat(a, seq![v]);
    lemma_sum_concat(a + seq![v], b);
    lemma_sum_one(s[i]);
    lemma_sum_one(v);
}

/// Putting an entry in raises the sum by that entry.
pub proof fn lemma_sum_insert(s: Seq<int>, i: int, v: int)
    requires
        0 <= i <= s.len(),
    ensures
        sum(s.insert(i, v)) == sum(s) + v,
{
    let a = s.subrange(0, i);
    let b = s.subrange(i, s.len() as int);
    assert(s =~= a + b);
    assert(s.insert(i, v) =~= a + seq![v] + b);
    lemma_sum_concat(a, b);
    lemma_sum_concat(a, seq![v]);
    lemma_sum_concat(a + seq![v], b);
    lemma_sum_one(v);
}

/// The sizes of the blocks of `free`, in order.
pub open spec fn block_sizes(free: Seq<Block>) -> Seq<int> {
    Seq::new(free.len(), |i: int| free[i].size)
}

/// The reserved sizes of the grants of `live`, in order.
pub open spec fn grant_sizes(live: Seq<Grant>) -> Seq<int> {
    Seq::new(live.len(), |k: int| live[k].size)
}

/// The bytes that are free in all.
pub open spec fn free_space(free: Seq<Block>) -> int {
    sum(block_sizes(free))
}

/// The bytes that are reserved in all.
pub open spec fn live_space(live: Seq<Grant>) -> int {
    sum(grant_sizes(live))
}

/// The offset of block `i` of `free`, or `INVALID` where there is none.
pub open spec fn link(free: Seq<Block>, i: int) -> int {
    if 0 <= i < free.len() {
        free[i].start
    } else {
        INVALID as int
    }
}

/// The bytes `bytes` and the head `head` hold the list `free`: each block's
/// header lies inside the arena and apart from the others, in rising order,
/// and holds the offset of the next block and the block's size.
pub open spec fn represents(bytes: Seq<u8>, head: int, free: Seq<Block>) -> bool {
    &&& bytes.len() <= u32::MAX
    &&& head == link(free, 0)
    &&& forall|i: int|
        0 <= i < free.len() ==> {
            &&& 0 <= (#[trigger] free[i]).start
            &&& free[i].start + HEADER_SIZE <= bytes.len()
            &&& crate::memory::word_at(bytes, free[i].start) == link(free, i + 1)
            &&& crate::memory::word_at(bytes, free[i].start + 4) == free[i].size
        }
    &&& forall|i: int, j: int|
        0 <= i < j < free.len() ==> (#[trigger] free[i]).start + HEADER_SIZE <= (
        #[trigger] free[j]).start
}

/// No block of `free` ends where the next one starts.
pub open spec fn apart(free: Seq<Block>) -> bool {
    forall|i: int|
        0 <= i && i + 1 < free.len() ==> (#[trigger] free[i]).end() != free[i + 1].start
}

/// The grant `g` lies inside an arena of `capacity` bytes at address `base`
/// and reserves room for a header behind its padding.
pub open spec fn sound(g: Grant, base: int, capacity: int) -> bool {
    &&& 0 <= g.pad
    &&& g.pad + HEADER_SIZE <= g.size
    &&& base <= g.first()
    &&& g.end() <= base + capacity
}

/// Each block of `free` lies inside the arena and has room for a header.
pub open spec fn inside(free: Seq<Block>, capacity: int) -> bool {
    forall|i: int|
        0 <= i < free.len() ==> {
            &&& 0 <= (#[trigger] free[i]).start
            &&& HEADER_SIZE <= free[i].size
            &&& free[i].end() <= capacity
        }
}

/// The blocks of `free` come in rising order, with a gap between any two.
pub open spec fn ascending(free: Seq<Block>) -> bool {
    forall|i: int, j: int|
        0 <= i < j < free.len() ==> (#[trigger] free[i]).end() < (#[trigger] free[j]).start
}

/// Each grant of `live` is sound.
pub open spec fn all_sound(live: Seq<Grant>, base: int, capacity: int) -> bool {
    forall|k: int| 0 <= k < live.len() ==> sound(#[trigger] live[k], base, capacity)
}

/// No two grants of `live` overlap.
pub open spec fn separate(live: Seq<Grant>) -> bool {
    forall|k: int, l: int|
        0 <= k < l < live.len() ==> (#[trigger] live[k]).end() <= (#[trigger] live[l]).first()
            || live[l].end() <= live[k].first()
}

/// No block of `free` overlaps a grant of `live`.
pub open spec fn clear(free: Seq<Block>, live: Seq<Grant>, base: int) -> bool {
    forall|i: int, k: int|
        0 <= i < free.len() && 0 <= k < live.len() ==> base + (#[trigger] free[i]).end() <= (
        #[trigger] live[k]).first() || live[k].end() <= base + free[i].start
}

/// The free blocks and the live grants share out the arena: each lies inside
/// it, the free blocks come in rising order with a gap between any two,
/// nothing overlaps, and the sizes add up to the arena's size.
pub open spec fn tiled(free: Seq<Block>, live: Seq<Grant>, base: int, capacity: int) -> bool {
    &&& inside(free, capacity)
    &&& ascending(free)
    &&& all_sound(live, base, capacity)
    &&& separate(live)
    &&& clear(free, live, base)
    &&& free_space(free) + live_space(live) == capacity
}

/// A request for `size` bytes at alignment `align` fits into `block`.
pub open spec fn fits(block: Block, base: int, size: int, align: int) -> bool {
    padding(base + block.start, align) + size <= block.size
}

/// The index of the first block from `from` on into which the request fits,
/// or the length of `free` where there is none.
pub open spec fn first_fit_from(
    free: Seq<Block>,
    from: int,
    base: int,
    size: int,
    align: int,
) -> int
    decreases free.len() - from,
{
    if from < 0 || from >= free.len() {
        free.len() as int
    } else if fits(free[from], base, size, align) {
        from
    } else {
        first_fit_from(free, from + 1, base, size, align)
    }
}

/// The index of the first block into which the request fits, or the length
/// of `free` where there is none.
pub open spec fn first_fit(free: Seq<Block>, base: int, size: int, align: int) -> int {
    first_fit_from(free, 0, base, size, align)
}

/// What is handed out of `block` for the request: the whole block where the
/// rest would be too small for a header, else the padding and the bytes
/// asked for.
pub open spec fn grant_for(block: Block, base: int, size: int, align: int) -> Grant {
    let pad = padding(base + block.start, align);
    Grant {
        addr: base + block.start + pad,
        pad,
        size: if block.size - (size + pad) < HEADER_SIZE {
            block.size
        } else {
            size + pad
        },
    }
}

/// The free list after `need` bytes were taken from the front of block `i`:
/// the block leaves where the rest would be too small for a header, else it
/// starts `need` bytes later and is `need` bytes smaller.
pub open spec fn carve(free: Seq<Block>, i: int, need: int) -> Seq<Block> {
    if free[i].size - need < HEADER_SIZE {
        free.remove(i)
    } else {
        free.update(i, Block { start: free[i].start + need, size: free[i].size - need })
    }
}

/// The index of the first block from `from` on that starts at `start` or
/// later, or the length of `free` where there is none.
pub open spec fn slot_from(free: Seq<Block>, from: int, start: int) -> int
    decreases free.len() - from,
{
    if from < 0 || from >= free.len() {
        free.len() as int
    } else if free[from].start >= start {
        from
    } else {
        slot_from(free, from + 1, start)
    }
}

/// The index at which a block that starts at `start` belongs.
pub open spec fn slot(free: Seq<Block>, start: int) -> int {
    slot_from(free, 0, start)
}

/// The free list after the `len` bytes from `start` on were given back. The
/// block joins the one behind it where its end is that one's start, and the
/// one before it where that one's end is its start.
pub open spec fn release(free: Seq<Block>, start: int, len: int) -> Seq<Block> {
    let i = slot(free, start);
    let right = i < free.len() && start + len == free[i].start;
    let left = 0 < i && free[i - 1].end() == start;
    if left && right {
        free.update(
            i - 1,
            Block { start: free[i - 1].start, size: free[i - 1].size + len + free[i].size },
        ).remove(i)
    } else if left {
        free.update(i - 1, Block { start: free[i - 1].start, size: free[i - 1].size + len })
    } else if right {
        free.update(i, Block { start, size: len + free[i].size })
    } else {
        free.insert(i, Block { start, size: len })
    }
}

/// Where `first_fit_from` points: at a block that fits, with none that fits
/// between `from` and it.
pub proof fn lemma_first_fit_from(free: Seq<Block>, from: int, base: int, size: int, align: int)
    requires
        0 <= from <= free.len(),
    ensures
        from <= first_fit_from(free, from, base, size, align) <= free.len(),
        first_fit_from(free, from, base, size, align) < free.len() ==> fits(
            free[first_fit_from(free, from, base, size, align)],
            base,
            size,
            align,
        ),
        forall|j: int|
            from <= j < first_fit_from(free, from, base, size, align) ==> !fits(
                #[trigger] free[j],
                base,
                size,
                align,
            ),
    decreases free.len() - from,
{
    if from < free.len() && !fits(free[from], base, size, align) {
        lemma_first_fit_from(free, from + 1, base, size, align);
    }
}

/// Where `slot_from` points: every block between `from` and it starts before
/// `start`, and the block there does not.
pub proof fn lemma_slot_from(free: Seq<Block>, from: int, start: int)
    requires
        0 <= from <= free.len(),
    ensures
        from <= slot_from(free, from, start) <= free.len(),
        slot_from(free, from, start) < free.len() ==> free[slot_from(free, from, start)].start
            >= start,
        forall|j: int| from <= j < slot_from(free, from, start) ==> (#[trigger] free[j]).start < start,
    decreases free.len() - from,
{
    if from < free.len() && free[from].start < start {
        lemma_slot_from(free, from + 1, start);
    }
}

} // verus!
