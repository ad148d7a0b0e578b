//! What allocating and releasing keep true of the model.

use crate::memory::{lemma_word_outside, with_word};
use crate::model::{
    all_sound, apart, ascending, block_sizes, clear, inside, separate, sound, carve, fits, free_space, grant_for, grant_sizes, lemma_padding_aligns,
    lemma_slot_from, lemma_sum_insert, lemma_sum_remove, lemma_sum_update, live_space, padding,
    release, slot, tiled, Block, Grant, HEADER_SIZE,
};
use vstd::prelude::*;

verus! {

/// Adding a grant raises the reserved bytes by its size.
pub proof fn lemma_live_space_push(live: Seq<Grant>, g: Grant)
    ensures
        live_space(live.push(g)) == live_space(live) + g.size,
{
    assert(grant_sizes(live.push(g)).drop_last() =~= grant_sizes(live));
}

/// Dropping a grant lowers the reserved bytes by its size.
pub proof fn lemma_live_space_remove(live: Seq<Grant>, k: int)
    requires
        0 <= k < live.len(),
    ensures
        live_space(live.remove(k)) == live_space(live) - live[k].size,
{
    assert(grant_sizes(live.remove(k)) =~= grant_sizes(live).remove(k));
    lemma_sum_remove(grant_sizes(live), k);
}

/// Taking a block out lowers the free bytes by its size.
pub proof fn lemma_free_space_remove(free: Seq<Block>, i: int)
    requires
        0 <= i < free.len(),
    ensures
        free_space(free.remove(i)) == free_space(free) - free[i].size,
{
    assert(block_sizes(free.remove(i)) =~= block_sizes(free).remove(i));
    lemma_sum_remove(block_sizes(free), i);
}

/// Replacing a block changes the free bytes by the difference in size.
pub proof fn lemma_free_space_update(free: Seq<Block>, i: int, b: Block)
    requires
        0 <= i < free.len(),
    ensures
        free_space(free.update(i, b)) == free_space(free) - free[i].size + b.size,
{
    assert(block_sizes(free.update(i, b)) =~= block_sizes(free).update(i, b.size));
    lemma_sum_update(block_sizes(free), i, b.size);
}

/// Putting a block in raises the free bytes by its size.
pub proof fn lemma_free_space_insert(free: Seq<Block>, i: int, b: Block)
    requires
        0 <= i <= free.len(),
    ensures
        free_space(free.insert(i, b)) == free_space(free) + b.size,
{
    assert(block_sizes(free.insert(i, b)) =~= block_sizes(free).insert(i, b.size));
    lemma_sum_insert(block_sizes(free), i, b.size);
}

/// Allocation keeps the arena shared out: where a request fits into block
/// `i`, the list with the request carved out of that block and the grants
/// with the new one added still make up the whole arena, and nothing
/// overlaps.
pub proof fn lemma_allocation_conserves(
    free: Seq<Block>,
    live: Seq<Grant>,
    base: int,
    capacity: int,
    i: int,
    size: int,
    align: int,
)
    requires
        tiled(free, live, base, capacity),
        0 <= base,
        0 <= i < free.len(),
        HEADER_SIZE <= size,
        0 < align,
        fits(free[i], base, size, align),
    ensures
        tiled(
            carve(free, i, size + padding(base + free[i].start, align)),
            live.push(grant_for(free[i], base, size, align)),
            base,
            capacity,
        ),
{
    let pad = padding(base + free[i].start, align);
    let need = size + pad;
    let g = grant_for(free[i], base, size, align);
    let free2 = carve(free, i, need);
    let live2 = live.push(g);
    lemma_padding_aligns(base + free[i].start, align);
    lemma_live_space_push(live, g);
    assert(forall|k: int| 0 <= k < live.len() ==> live2[k] == live[k]);
    assert(live2[live.len() as int] == g);
    if free[i].size - need < HEADER_SIZE {
        lemma_free_space_remove(free, i);
        assert(forall|j: int| 0 <= j < i ==> free2[j] == free[j]);
        assert(forall|j: int| i <= j < free2.len() ==> free2[j] == free[j + 1]);
    } else {
        let b = Block { start: free[i].start + need, size: free[i].size - need };
        lemma_free_space_update(free, i, b);
        assert(forall|j: int| 0 <= j < free.len() && j != i ==> free2[j] == free[j]);
        assert(free2[i] == b);
    }
}

/// The block that comes of giving back `len` bytes at `start`, joined with
/// its neighbours where it touches them, stands at index `lo` of the new
/// list; before it the list is as it was, behind it the blocks from `hi` on
/// follow.
pub open spec fn release_shape(free: Seq<Block>, start: int, len: int, after: Seq<Block>) -> bool {
    let i = slot(free, start);
    let right = i < free.len() && start + len == free[i].start;
    let left = 0 < i && free[i - 1].end() == start;
    let lo = if left {
        i - 1
    } else {
        i
    };
    let hi = if right {
        i + 1
    } else {
        i
    };
    &&& 0 <= lo <= i <= hi <= free.len()
    &&& after.len() == free.len() - (hi - lo) + 1
    &&& forall|j: int| 0 <= j < lo ==> #[trigger] after[j] == free[j]
    &&& after[lo].start == if left {
        free[i - 1].start
    } else {
        start
    }
    &&& after[lo].end() == if right {
        free[i].end()
    } else {
        start + len
    }
    &&& forall|j: int| lo < j < after.len() ==> #[trigger] after[j] == free[j + hi - lo - 1]
}

/// `release` has the shape that `release_shape` describes.
pub proof fn lemma_release_shape(free: Seq<Block>, start: int, len: int)
    ensures
        release_shape(free, start, len, release(free, start, len)),
{
    lemma_slot_from(free, 0, start);
}

/// The bytes from `start` to `start + len` lie between block `i - 1` and
/// block `i` of `free`, and overlap neither.
pub open spec fn gap_at(free: Seq<Block>, i: int, start: int, len: int) -> bool {
    &&& 0 <= i <= free.len()
    &&& forall|j: int| 0 <= j < i ==> (#[trigger] free[j]).end() <= start
    &&& forall|j: int| i <= j < free.len() ==> start + len <= (#[trigger] free[j]).start
}

/// A live grant lies in the gap at the slot of its first byte.
pub proof fn lemma_grant_in_gap(
    free: Seq<Block>,
    live: Seq<Grant>,
    base: int,
    capacity: int,
    k: int,
)
    requires
        tiled(free, live, base, capacity),
        0 <= k < live.len(),
    ensures
        gap_at(free, slot(free, live[k].first() - base), live[k].first() - base, live[k].size),
{
    let start = live[k].first() - base;
    let i = slot(free, start);
    lemma_slot_from(free, 0, start);
    assert forall|j: int| 0 <= j < i implies (#[trigger] free[j]).end() <= start by {
        assert(base + free[j].end() <= live[k].first() || live[k].end() <= base + free[j].start);
    }
    assert forall|j: int| i <= j < free.len() implies start + live[k].size <= (
    #[trigger] free[j]).start by {
        if j > i {
            assert(free[i].end() < free[j].start);
        }
        assert(base + free[j].end() <= live[k].first() || live[k].end() <= base + free[j].start);
    }
}

/// Giving bytes back raises the free bytes by their number.
pub proof fn lemma_release_space(free: Seq<Block>, start: int, len: int)
    ensures
        free_space(release(free, start, len)) == free_space(free) + len,
{
    let i = slot(free, start);
    lemma_slot_from(free, 0, start);
    let right = i < free.len() && start + len == free[i].start;
    let left = 0 < i && free[i - 1].end() == start;
    if left && right {
        let b = Block { start: free[i - 1].start, size: free[i - 1].size + len + free[i].size };
        lemma_free_space_update(free, i - 1, b);
        lemma_free_space_remove(free.update(i - 1, b), i);
    } else if left {
        let b = Block { start: free[i - 1].start, size: free[i - 1].size + len };
        lemma_free_space_update(free, i - 1, b);
    } else if right {
        let b = Block { start, size: len + free[i].size };
        lemma_free_space_update(free, i, b);
    } else {
        lemma_free_space_insert(free, i, Block { start, size: len });
    }
}

/// A list that has the shape of a release into a gap lies inside the arena
/// and is in rising order, as the list before it was.
pub proof fn lemma_release_ordered(
    free: Seq<Block>,
    start: int,
    len: int,
    capacity: int,
    after: Seq<Block>,
)
    requires
        inside(free, capacity),
        ascending(free),
        gap_at(free, slot(free, start), start, len),
        release_shape(free, start, len, after),
        0 <= start,
        HEADER_SIZE <= len,
        start + len <= capacity,
    ensures
        inside(after, capacity),
        ascending(after),
{
    let i = slot(free, start);
    let right = i < free.len() && start + len == free[i].start;
    let left = 0 < i && free[i - 1].end() == start;
    let lo = if left {
        i - 1
    } else {
        i
    };
    let hi = if right {
        i + 1
    } else {
        i
    };
    let d = hi - lo - 1;
    assert forall|j: int| 0 <= j < after.len() implies {
        &&& 0 <= (#[trigger] after[j]).start
        &&& HEADER_SIZE <= after[j].size
        &&& after[j].end() <= capacity
    } by {
        if j < lo {
            assert(after[j] == free[j]);
        } else if j > lo {
            assert(after[j] == free[j + d]);
        } else {
            if left {
                assert(0 <= free[i - 1].start);
            }
            if right {
                assert(free[i].end() <= capacity);
            }
        }
    }
    assert forall|j: int, l: int| 0 <= j < l < after.len() implies (#[trigger] after[j]).end() < (
    #[trigger] after[l]).start by {
        if l < lo {
            assert(after[j] == free[j] && after[l] == free[l]);
        } else if j > lo {
            assert(after[j] == free[j + d] && after[l] == free[l + d]);
        } else if j < lo && l > lo {
            assert(after[j] == free[j] && after[l] == free[l + d]);
        } else if j < lo {
            // l == lo
            assert(after[j] == free[j]);
            if left {
                assert(free[j].end() < free[i - 1].start);
            } else {
                assert(free[j].end() <= start);
                assert(free[j].end() != start) by {
                    if j == i - 1 {
                    } else {
                        assert(free[j].end() < free[i - 1].start);
                        assert(free[i - 1].end() <= start);
                        assert(HEADER_SIZE <= free[i - 1].size);
                    }
                }
            }
        } else {
            // j == lo < l
            assert(after[l] == free[l + d]);
            if right {
                assert(free[i].end() < free[l + d].start);
            } else {
                assert(start + len <= free[l + d].start);
                if l + d == i {
                } else {
                    assert(free[i].end() < free[l + d].start);
                    assert(start + len <= free[i].start);
                    assert(HEADER_SIZE <= free[i].size);
                }
            }
        }
    }
}

/// A list that has the shape of the release of grant `k` overlaps none of
/// the grants that stay.
pub proof fn lemma_release_clear(
    free: Seq<Block>,
    live: Seq<Grant>,
    base: int,
    capacity: int,
    k: int,
    after: Seq<Block>,
)
    requires
        tiled(free, live, base, capacity),
        0 <= k < live.len(),
        release_shape(free, live[k].first() - base, live[k].size, after),
    ensures
        all_sound(live.remove(k), base, capacity),
        separate(live.remove(k)),
        clear(after, live.remove(k), base),
{
    let start = live[k].first() - base;
    let len = live[k].size;
    let live2 = live.remove(k);
    let i = slot(free, start);
    let right = i < free.len() && start + len == free[i].start;
    let left = 0 < i && free[i - 1].end() == start;
    let lo = if left {
        i - 1
    } else {
        i
    };
    let hi = if right {
        i + 1
    } else {
        i
    };
    let d = hi - lo - 1;
    assert forall|l: int| 0 <= l < live2.len() implies sound(#[trigger] live2[l], base, capacity) by {
        if l < k {
            assert(live2[l] == live[l]);
        } else {
            assert(live2[l] == live[l + 1]);
        }
    }
    assert forall|l: int, m: int| 0 <= l < m < live2.len() implies (#[trigger] live2[l]).end() <= (
    #[trigger] live2[m]).first() || live2[m].end() <= live2[l].first() by {
        let l0 = if l < k {
            l
        } else {
            l + 1
        };
        let m0 = if m < k {
            m
        } else {
            m + 1
        };
        assert(live2[l] == live[l0] && live2[m] == live[m0]);
        assert(live[l0].end() <= live[m0].first() || live[m0].end() <= live[l0].first());
    }
    assert forall|j: int, l: int| 0 <= j < after.len() && 0 <= l < live2.len() implies base + (
    #[trigger] after[j]).end() <= (#[trigger] live2[l]).first() || live2[l].end() <= base
        + after[j].start by {
        let l0 = if l < k {
            l
        } else {
            l + 1
        };
        assert(live2[l] == live[l0]);
        assert(sound(live[l0], base, capacity));
        assert(sound(live[k], base, capacity));
        if l0 < k {
            assert(live[l0].end() <= live[k].first() || live[k].end() <= live[l0].first());
        } else {
            assert(live[k].end() <= live[l0].first() || live[l0].end() <= live[k].first());
        }
        if j < lo {
            assert(after[j] == free[j]);
            assert(base + free[j].end() <= live[l0].first() || live[l0].end() <= base
                + free[j].start);
        } else if j > lo {
            assert(after[j] == free[j + d]);
            assert(base + free[j + d].end() <= live[l0].first() || live[l0].end() <= base
                + free[j + d].start);
        } else {
            if left {
                assert(base + free[i - 1].end() <= live[l0].first() || live[l0].end() <= base
                    + free[i - 1].start);
                assert(HEADER_SIZE <= free[i - 1].size);
            }
            if right {
                assert(base + free[i].end() <= live[l0].first() || live[l0].end() <= base
                    + free[i].start);
                assert(HEADER_SIZE <= free[i].size);
            }
        }
    }
}

/// Giving back a grant without padding keeps the arena shared out: the list
/// with the grant's bytes released and the grants without it still make up
/// the whole arena, and nothing overlaps.
pub proof fn lemma_release_conserves(
    free: Seq<Block>,
    live: Seq<Grant>,
    base: int,
    capacity: int,
    k: int,
)
    requires
        tiled(free, live, base, capacity),
        0 <= k < live.len(),
        live[k].pad == 0,
    ensures
        tiled(
            release(free, live[k].first() - base, live[k].size + live[k].pad),
            live.remove(k),
            base,
            capacity,
        ),
{
    let start = live[k].first() - base;
    let len = live[k].size;
    let after = release(free, start, len);
    assert(sound(live[k], base, capacity));
    lemma_grant_in_gap(free, live, base, capacity, k);
    lemma_release_shape(free, start, len);
    lemma_release_space(free, start, len);
    lemma_live_space_remove(live, k);
    lemma_release_ordered(free, start, len, capacity, after);
    lemma_release_clear(free, live, base, capacity, k, after);
}

/// The usable bytes of the grant `g` in an arena `bytes` at address `base`.
pub open spec fn grant_bytes(bytes: Seq<u8>, base: int, g: Grant) -> Seq<u8> {
    bytes.subrange(g.addr - base, g.addr - base + g.usable())
}

/// A store inside a block that overlaps no byte of a grant leaves the
/// grant's usable bytes as they were.
pub proof fn lemma_store_spares_grant(
    bytes: Seq<u8>,
    at: int,
    value: int,
    block: Block,
    g: Grant,
    base: int,
)
    requires
        sound(g, base, bytes.len() as int),
        0 <= block.start <= at,
        at + 4 <= block.end() <= bytes.len(),
        base + block.end() <= g.first() || g.end() <= base + block.start,
    ensures
        grant_bytes(with_word(bytes, at, value), base, g) == grant_bytes(bytes, base, g),
{
    lemma_word_outside(bytes, at, value, g.addr - base, g.addr - base + g.usable());
}

/// Giving bytes back leaves no free block that ends where the next one
/// starts, if there was none before.
pub proof fn lemma_release_apart(free: Seq<Block>, start: int, len: int)
    requires
        apart(free),
    ensures
        apart(release(free, start, len)),
{
    let after = release(free, start, len);
    let i = slot(free, start);
    let right = i < free.len() && start + len == free[i].start;
    let left = 0 < i && free[i - 1].end() == start;
    let lo = if left {
        i - 1
    } else {
        i
    };
    let hi = if right {
        i + 1
    } else {
        i
    };
    let d = hi - lo - 1;
    lemma_release_shape(free, start, len);
    assert forall|j: int| 0 <= j && j + 1 < after.len() implies (#[trigger] after[j]).end()
        != after[j + 1].start by {
        if j + 1 < lo {
            assert(after[j] == free[j] && after[j + 1] == free[j + 1]);
            assert(free[j].end() != free[j + 1].start);
        } else if j + 1 == lo {
            assert(after[j] == free[j]);
            if left {
                assert(free[j].end() != free[j + 1].start);
            }
        } else if j == lo {
            assert(after[j + 1] == free[j + 1 + d]);
            if right {
                assert(free[i].end() != free[i + 1].start);
            }
        } else {
            assert(after[j] == free[j + d] && after[j + 1] == free[j + 1 + d]);
            assert(free[j + d].end() != free[j + d + 1].start);
        }
    }
}

} // verus!
