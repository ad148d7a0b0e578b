//! How single stores into the arena change the list that the arena holds.

use crate::memory::{
    agree_outside, lemma_word_agrees, lemma_word_apart, lemma_word_stored, with_word, word_at,
};
use crate::model::{link, represents, Block, HEADER_SIZE};
use vstd::prelude::*;

verus! {

/// The bytes after the link that leads to block `j` was pointed at `target`.
/// For the first block that link is the head, which is no byte of the arena.
pub open spec fn pointed(bytes: Seq<u8>, free: Seq<Block>, j: int, target: int) -> Seq<u8> {
    if j == 0 {
        bytes
    } else {
        with_word(bytes, free[j - 1].start, target)
    }
}

/// The head after the link that leads to block `j` was pointed at `target`.
pub open spec fn headed(head: int, j: int, target: int) -> int {
    if j == 0 {
        target
    } else {
        head
    }
}

/// The word at `at` overlaps no header of `free`.
pub open spec fn word_clear(free: Seq<Block>, at: int) -> bool {
    forall|j: int|
        0 <= j < free.len() ==> at + 4 <= (#[trigger] free[j]).start || free[j].start
            + HEADER_SIZE <= at
}

/// The eight bytes from `at` on overlap no header of `free`.
pub open spec fn header_clear(free: Seq<Block>, at: int) -> bool {
    forall|j: int|
        0 <= j < free.len() ==> at + HEADER_SIZE <= (#[trigger] free[j]).start || free[j].start
            + HEADER_SIZE <= at
}

/// A store that overlaps no header leaves the list as it is.
pub proof fn lemma_store_clear(bytes: Seq<u8>, head: int, free: Seq<Block>, at: int, value: int)
    requires
        represents(bytes, head, free),
        0 <= at,
        at + 4 <= bytes.len(),
        0 <= value <= u32::MAX,
        word_clear(free, at),
    ensures
        represents(with_word(bytes, at, value), head, free),
{
    let bytes2 = with_word(bytes, at, value);
    lemma_word_stored(bytes, at, value);
    assert forall|i: int| 0 <= i < free.len() implies {
        &&& word_at(bytes2, (#[trigger] free[i]).start) == link(free, i + 1)
        &&& word_at(bytes2, free[i].start + 4) == free[i].size
    } by {
        lemma_word_apart(bytes, at, value, free[i].start);
        lemma_word_apart(bytes, at, value, free[i].start + 4);
    }
}

/// Changes to bytes that belong to no header leave the list as it is.
pub proof fn lemma_agree_represents(
    bytes: Seq<u8>,
    after: Seq<u8>,
    head: int,
    free: Seq<Block>,
    from: int,
    to: int,
)
    requires
        represents(bytes, head, free),
        agree_outside(bytes, after, from, to),
        forall|j: int|
            0 <= j < free.len() ==> to <= (#[trigger] free[j]).start || free[j].start
                + HEADER_SIZE <= from,
    ensures
        represents(after, head, free),
{
    assert forall|i: int| 0 <= i < free.len() implies {
        &&& word_at(after, (#[trigger] free[i]).start) == link(free, i + 1)
        &&& word_at(after, free[i].start + 4) == free[i].size
    } by {
        lemma_word_agrees(bytes, after, from, to, free[i].start);
        lemma_word_agrees(bytes, after, from, to, free[i].start + 4);
    }
}

/// Storing a size into the header of block `j` gives that block this size.
pub proof fn lemma_resize(bytes: Seq<u8>, head: int, free: Seq<Block>, j: int, size: int)
    requires
        represents(bytes, head, free),
        0 <= j < free.len(),
        0 <= size <= u32::MAX,
    ensures
        represents(
            with_word(bytes, free[j].start + 4, size),
            head,
            free.update(j, Block { start: free[j].start, size }),
        ),
{
    let at = free[j].start + 4;
    let bytes2 = with_word(bytes, at, size);
    let free2 = free.update(j, Block { start: free[j].start, size });
    lemma_word_stored(bytes, at, size);
    assert forall|i: int| 0 <= i < free2.len() implies {
        &&& 0 <= (#[trigger] free2[i]).start
        &&& free2[i].start + HEADER_SIZE <= bytes2.len()
        &&& word_at(bytes2, free2[i].start) == link(free2, i + 1)
        &&& word_at(bytes2, free2[i].start + 4) == free2[i].size
    } by {
        assert(free2[i].start == free[i].start);
        assert(link(free2, i + 1) == link(free, i + 1)) by {
            if i + 1 < free.len() {
                assert(free2[i + 1].start == free[i + 1].start);
            }
        }
        lemma_word_apart(bytes, at, size, free[i].start);
        if i != j {
            if i < j {
                assert(free[i].start + HEADER_SIZE <= free[j].start);
            } else {
                assert(free[j].start + HEADER_SIZE <= free[i].start);
            }
            lemma_word_apart(bytes, at, size, free[i].start + 4);
        }
    }
    assert forall|i: int, l: int| 0 <= i < l < free2.len() implies (#[trigger] free2[i]).start
        + HEADER_SIZE <= (#[trigger] free2[l]).start by {
        assert(free2[i].start == free[i].start && free2[l].start == free[l].start);
        assert(free[i].start + HEADER_SIZE <= free[l].start);
    }
}

/// `after` is `free` without block `j`.
pub open spec fn without(free: Seq<Block>, j: int, after: Seq<Block>) -> bool {
    &&& 0 <= j < free.len()
    &&& after.len() == free.len() - 1
    &&& forall|i: int| 0 <= i < j ==> #[trigger] after[i] == free[i]
    &&& forall|i: int| j <= i < after.len() ==> #[trigger] after[i] == free[i + 1]
}

proof fn lemma_unlink_shape(bytes: Seq<u8>, head: int, free: Seq<Block>, j: int, after: Seq<Block>)
    requires
        represents(bytes, head, free),
        without(free, j, after),
    ensures
        represents(
            pointed(bytes, free, j, link(free, j + 1)),
            headed(head, j, link(free, j + 1)),
            after,
        ),
{
    let target = link(free, j + 1);
    let bytes2 = pointed(bytes, free, j, target);
    if j + 1 < free.len() {
        assert(0 <= free[j + 1].start);
    }
    if j > 0 {
        assert(0 <= free[j - 1].start);
        lemma_word_stored(bytes, free[j - 1].start, target);
    }
    assert forall|i: int| 0 <= i < after.len() implies {
        &&& 0 <= (#[trigger] after[i]).start
        &&& after[i].start + HEADER_SIZE <= bytes2.len()
        &&& word_at(bytes2, after[i].start) == link(after, i + 1)
        &&& word_at(bytes2, after[i].start + 4) == after[i].size
    } by {
        let i0 = if i < j {
            i
        } else {
            i + 1
        };
        assert(after[i] == free[i0]);
        assert(0 <= free[i0].start);
        assert(link(after, i + 1) == if i0 == j - 1 {
            target
        } else {
            link(free, i0 + 1)
        }) by {
            if i + 1 < after.len() {
                if i + 1 < j {
                    assert(after[i + 1] == free[i + 1]);
                } else {
                    assert(after[i + 1] == free[i + 2]);
                }
            }
        }
        if j > 0 {
            let at = free[j - 1].start;
            lemma_word_apart(bytes, at, target, free[i0].start + 4);
            if i0 != j - 1 {
                if i0 < j - 1 {
                    assert(free[i0].start + HEADER_SIZE <= free[j - 1].start);
                } else {
                    assert(free[j - 1].start + HEADER_SIZE <= free[i0].start);
                }
                lemma_word_apart(bytes, at, target, free[i0].start);
            }
        }
    }
    assert forall|i: int, l: int| 0 <= i < l < after.len() implies (#[trigger] after[i]).start
        + HEADER_SIZE <= (#[trigger] after[l]).start by {
        let i0 = if i < j {
            i
        } else {
            i + 1
        };
        let l0 = if l < j {
            l
        } else {
            l + 1
        };
        assert(after[i] == free[i0] && after[l] == free[l0]);
        assert(free[i0].start + HEADER_SIZE <= free[l0].start);
    }
    if after.len() > 0 {
        if j == 0 {
            assert(after[0] == free[1]);
        } else {
            assert(after[0] == free[0]);
        }
    }
}

/// Pointing the link that leads to block `j` at the block behind it takes
/// block `j` out of the list.
pub proof fn lemma_unlink(bytes: Seq<u8>, head: int, free: Seq<Block>, j: int)
    requires
        represents(bytes, head, free),
        0 <= j < free.len(),
    ensures
        represents(
            pointed(bytes, free, j, link(free, j + 1)),
            headed(head, j, link(free, j + 1)),
            free.remove(j),
        ),
{
    assert(without(free, j, free.remove(j)));
    lemma_unlink_shape(bytes, head, free, j, free.remove(j));
}

/// The header at `b.start` lies inside the arena and holds the link `next`
/// and the size of `b`.
pub open spec fn prepared(bytes: Seq<u8>, b: Block, next: int) -> bool {
    &&& 0 <= b.start
    &&& b.start + HEADER_SIZE <= bytes.len()
    &&& word_at(bytes, b.start) == next
    &&& word_at(bytes, b.start + 4) == b.size
}

/// `after` is `free` with `b` put in at index `j`.
pub open spec fn with_block(free: Seq<Block>, j: int, b: Block, after: Seq<Block>) -> bool {
    &&& 0 <= j <= free.len()
    &&& after.len() == free.len() + 1
    &&& forall|i: int| 0 <= i < j ==> #[trigger] after[i] == free[i]
    &&& after[j] == b
    &&& forall|i: int| j < i < after.len() ==> #[trigger] after[i] == free[i - 1]
}

proof fn lemma_insert_shape(
    bytes: Seq<u8>,
    head: int,
    free: Seq<Block>,
    j: int,
    b: Block,
    after: Seq<Block>,
)
    requires
        represents(bytes, head, free),
        with_block(free, j, b, after),
        prepared(bytes, b, link(free, j)),
        0 < j ==> free[j - 1].start + HEADER_SIZE <= b.start,
        j < free.len() ==> b.start + HEADER_SIZE <= free[j].start,
    ensures
        represents(pointed(bytes, free, j, b.start), headed(head, j, b.start), after),
{
    let bytes2 = pointed(bytes, free, j, b.start);
    if j > 0 {
        assert(0 <= free[j - 1].start);
        lemma_word_stored(bytes, free[j - 1].start, b.start);
    }
    assert forall|i: int| 0 <= i < after.len() implies {
        &&& 0 <= (#[trigger] after[i]).start
        &&& after[i].start + HEADER_SIZE <= bytes2.len()
        &&& word_at(bytes2, after[i].start) == link(after, i + 1)
        &&& word_at(bytes2, after[i].start + 4) == after[i].size
    } by {
        if i == j {
            assert(link(after, i + 1) == link(free, j)) by {
                if j < free.len() {
                    assert(after[j + 1] == free[j]);
                }
            }
            if j > 0 {
                lemma_word_apart(bytes, free[j - 1].start, b.start, b.start);
                lemma_word_apart(bytes, free[j - 1].start, b.start, b.start + 4);
            }
        } else {
            let i0 = if i < j {
                i
            } else {
                i - 1
            };
            assert(after[i] == free[i0]);
            assert(0 <= free[i0].start);
            assert(link(after, i + 1) == if i0 == j - 1 {
                b.start
            } else {
                link(free, i0 + 1)
            }) by {
                if i + 1 < after.len() {
                    if i + 1 < j {
                        assert(after[i + 1] == free[i + 1]);
                    } else if i + 1 > j {
                        assert(after[i + 1] == free[i]);
                    }
                }
            }
            if j > 0 {
                let at = free[j - 1].start;
                lemma_word_apart(bytes, at, b.start, free[i0].start + 4);
                if i0 != j - 1 {
                    if i0 < j - 1 {
                        assert(free[i0].start + HEADER_SIZE <= free[j - 1].start);
                    } else {
                        assert(free[j - 1].start + HEADER_SIZE <= free[i0].start);
                    }
                    lemma_word_apart(bytes, at, b.start, free[i0].start);
                }
            }
        }
    }
    assert forall|i: int, l: int| 0 <= i < l < after.len() implies (#[trigger] after[i]).start
        + HEADER_SIZE <= (#[trigger] after[l]).start by {
        let i0 = if i < j {
            i
        } else {
            i - 1
        };
        let l0 = if l < j {
            l
        } else {
            l - 1
        };
        if i != j {
            assert(after[i] == free[i0]);
        }
        if l != j {
            assert(after[l] == free[l0]);
        }
        if i == j {
            if l0 > j {
                assert(free[j].start + HEADER_SIZE <= free[l0].start);
            }
        } else if l == j {
            if i0 < j - 1 {
                assert(free[i0].start + HEADER_SIZE <= free[j - 1].start);
            }
        } else {
            assert(free[i0].start + HEADER_SIZE <= free[l0].start);
        }
    }
    if j > 0 {
        assert(after[0] == free[0]);
    }
}

/// Pointing the link that leads to block `j` at a prepared header between
/// block `j - 1` and block `j` puts the new block into the list at `j`.
pub proof fn lemma_insert(bytes: Seq<u8>, head: int, free: Seq<Block>, j: int, b: Block)
    requires
        represents(bytes, head, free),
        0 <= j <= free.len(),
        prepared(bytes, b, link(free, j)),
        0 < j ==> free[j - 1].start + HEADER_SIZE <= b.start,
        j < free.len() ==> b.start + HEADER_SIZE <= free[j].start,
    ensures
        represents(
            pointed(bytes, free, j, b.start),
            headed(head, j, b.start),
            free.insert(j, b),
        ),
{
    assert(with_block(free, j, b, free.insert(j, b)));
    lemma_insert_shape(bytes, head, free, j, b, free.insert(j, b));
}

/// Pointing the link that leads to block `j` at a prepared header between
/// block `j - 1` and block `j + 1` puts the new block in the place of
/// block `j`.
pub proof fn lemma_replace(bytes: Seq<u8>, head: int, free: Seq<Block>, j: int, b: Block)
    requires
        represents(bytes, head, free),
        0 <= j < free.len(),
        prepared(bytes, b, link(free, j + 1)),
        0 < j ==> free[j - 1].start + HEADER_SIZE <= b.start,
        j + 1 < free.len() ==> b.start + HEADER_SIZE <= free[j + 1].start,
    ensures
        represents(
            pointed(bytes, free, j, b.start),
            headed(head, j, b.start),
            free.update(j, b),
        ),
{
    let bytes2 = pointed(bytes, free, j, b.start);
    let free2 = free.update(j, b);
    if j > 0 {
        assert(0 <= free[j - 1].start);
        lemma_word_stored(bytes, free[j - 1].start, b.start);
    }
    assert forall|i: int| 0 <= i < free2.len() implies {
        &&& 0 <= (#[trigger] free2[i]).start
        &&& free2[i].start + HEADER_SIZE <= bytes2.len()
        &&& word_at(bytes2, free2[i].start) == link(free2, i + 1)
        &&& word_at(bytes2, free2[i].start + 4) == free2[i].size
    } by {
        if i + 1 < free2.len() {
            if i + 1 == j {
                assert(free2[i + 1] == b);
            } else {
                assert(free2[i + 1] == free[i + 1]);
            }
        }
        if i == j {
            assert(free2[i] == b);
            if j > 0 {
                lemma_word_apart(bytes, free[j - 1].start, b.start, b.start);
                lemma_word_apart(bytes, free[j - 1].start, b.start, b.start + 4);
            }
        } else {
            assert(free2[i] == free[i]);
            assert(0 <= free[i].start);
            if j > 0 {
                let at = free[j - 1].start;
                lemma_word_apart(bytes, at, b.start, free[i].start + 4);
                if i != j - 1 {
                    if i < j - 1 {
                        assert(free[i].start + HEADER_SIZE <= free[j - 1].start);
                    } else {
                        assert(free[j - 1].start + HEADER_SIZE <= free[i].start);
                    }
                    lemma_word_apart(bytes, at, b.start, free[i].start);
                }
            }
        }
    }
    assert forall|i: int, l: int| 0 <= i < l < free2.len() implies (#[trigger] free2[i]).start
        + HEADER_SIZE <= (#[trigger] free2[l]).start by {
        if i != j {
            assert(free2[i] == free[i]);
        }
        if l != j {
            assert(free2[l] == free[l]);
        }
        if i == j {
            assert(free2[i] == b);
            if l > j + 1 {
                assert(free[j + 1].start + HEADER_SIZE <= free[l].start);
            }
        } else if l == j {
            assert(free2[l] == b);
            if i < j - 1 {
                assert(free[i].start + HEADER_SIZE <= free[j - 1].start);
            }
        } else {
            assert(free[i].start + HEADER_SIZE <= free[l].start);
        }
    }
    if j == 0 {
        assert(free2[0] == b);
    } else {
        assert(free2[0] == free[0]);
    }
}

} // verus!
