//! Thirty-two-bit words inside a byte buffer, least significant byte first.

use vstd::prelude::*;

verus! {

/// The word made of the four bytes of `bytes` that start at `at`.
#[verifier::opaque]
pub open spec fn word_at(bytes: Seq<u8>, at: int) -> int {
    bytes[at] as int + 256 * (bytes[at + 1] as int) + 65536 * (bytes[at + 2] as int) + 16777216
        * (bytes[at + 3] as int)
}

/// `bytes` with the four bytes from `at` on replaced by the word `value`.
#[verifier::opaque]
pub open spec fn with_word(bytes: Seq<u8>, at: int, value: int) -> Seq<u8> {
    bytes.update(at, (value % 256) as u8).update(at + 1, ((value / 256) % 256) as u8).update(
        at + 2,
        ((value / 65536) % 256) as u8,
    ).update(at + 3, ((value / 16777216) % 256) as u8)
}

/// A word that was stored is the word that is read.
pub proof fn lemma_word_stored(bytes: Seq<u8>, at: int, value: int)
    requires
        0 <= at,
        at + 4 <= bytes.len(),
        0 <= value <= u32::MAX,
    ensures
        with_word(bytes, at, value).len() == bytes.len(),
        word_at(with_word(bytes, at, value), at) == value,
{
    reveal(word_at);
    reveal(with_word);
}

/// Storing a word leaves every word that does not overlap it as it was.
pub proof fn lemma_word_apart(bytes: Seq<u8>, at: int, value: int, other: int)
    requires
        0 <= at,
        at + 4 <= bytes.len(),
        0 <= other,
        other + 4 <= bytes.len(),
        other + 4 <= at || at + 4 <= other,
    ensures
        word_at(with_word(bytes, at, value), other) == word_at(bytes, other),
{
    reveal(word_at);
    reveal(with_word);
}

/// Storing a word leaves every run of bytes that does not overlap it as it
/// was.
pub proof fn lemma_word_outside(bytes: Seq<u8>, at: int, value: int, from: int, to: int)
    requires
        0 <= at,
        at + 4 <= bytes.len(),
        0 <= from <= to <= bytes.len(),
        to <= at || at + 4 <= from,
    ensures
        with_word(bytes, at, value).subrange(from, to) == bytes.subrange(from, to),
{
    reveal(with_word);
    assert(with_word(bytes, at, value).subrange(from, to) =~= bytes.subrange(from, to));
}

/// `after` is `before` but for the eight bytes from `a` on and the eight
/// bytes from `b` on.
pub open spec fn changed_within(before: Seq<u8>, after: Seq<u8>, a: int, b: int) -> bool {
    &&& after.len() == before.len()
    &&& forall|x: int|
        0 <= x < before.len() && !(a <= x < a + 8) && !(b <= x < b + 8) ==> #[trigger] after[x]
            == before[x]
}

/// A further store into one of the two runs of eight bytes changes nothing
/// outside them.
pub proof fn lemma_changed_step(
    before: Seq<u8>,
    now: Seq<u8>,
    a: int,
    b: int,
    at: int,
    value: int,
)
    requires
        changed_within(before, now, a, b),
        0 <= at,
        at + 4 <= now.len(),
        a <= at && at + 4 <= a + 8 || b <= at && at + 4 <= b + 8,
    ensures
        changed_within(before, with_word(now, at, value), a, b),
{
    reveal(with_word);
}

/// A run of bytes that overlaps neither of the two runs of eight bytes is
/// as it was.
pub proof fn lemma_changed_spares(
    before: Seq<u8>,
    after: Seq<u8>,
    a: int,
    b: int,
    from: int,
    to: int,
)
    requires
        changed_within(before, after, a, b),
        0 <= from <= to <= before.len(),
        to <= a || a + 8 <= from,
        to <= b || b + 8 <= from,
    ensures
        after.subrange(from, to) == before.subrange(from, to),
{
    assert(after.subrange(from, to) =~= before.subrange(from, to));
}

/// `after` is `before` but for the bytes from `from` up to `to`.
pub open spec fn agree_outside(before: Seq<u8>, after: Seq<u8>, from: int, to: int) -> bool {
    &&& after.len() == before.len()
    &&& forall|x: int|
        0 <= x < before.len() && !(from <= x < to) ==> #[trigger] after[x] == before[x]
}

/// A word whose bytes lie outside what changed is as it was.
pub proof fn lemma_word_agrees(before: Seq<u8>, after: Seq<u8>, from: int, to: int, at: int)
    requires
        agree_outside(before, after, from, to),
        0 <= at,
        at + 4 <= before.len(),
        at + 4 <= from || to <= at,
    ensures
        word_at(after, at) == word_at(before, at),
{
    reveal(word_at);
    assert(after[at] == before[at]);
    assert(after[at + 1] == before[at + 1]);
    assert(after[at + 2] == before[at + 2]);
    assert(after[at + 3] == before[at + 3]);
}

/// `bytes` with `data` copied over the bytes from `at` on.
pub open spec fn with_bytes(bytes: Seq<u8>, at: int, data: Seq<u8>) -> Seq<u8> {
    Seq::new(
        bytes.len(),
        |x: int|
            if at <= x < at + data.len() {
                data[x - at]
            } else {
                bytes[x]
            },
    )
}

/// Bytes that were copied in are the bytes that are read back, and the copy
/// changes no byte around them.
pub proof fn lemma_round_trip(bytes: Seq<u8>, at: int, data: Seq<u8>)
    requires
        0 <= at,
        at + data.len() <= bytes.len(),
    ensures
        with_bytes(bytes, at, data).subrange(at, at + data.len()) == data,
        agree_outside(bytes, with_bytes(bytes, at, data), at, at + data.len()),
{
    assert(with_bytes(bytes, at, data).subrange(at, at + data.len()) =~= data);
}

/// A word is never negative and fits in thirty-two bits.
pub proof fn lemma_word_range(bytes: Seq<u8>, at: int)
    requires
        0 <= at,
        at + 4 <= bytes.len(),
    ensures
        0 <= word_at(bytes, at) <= u32::MAX,
{
    reveal(word_at);
}

/// Reads the word at `at`.
pub fn load_word(memory: &Vec<u8>, at: usize) -> (value: u32)
    requires
        at + 4 <= memory.len(),
    ensures
        value == word_at(memory@, at as int),
{
    proof {
        reveal(word_at);
    }
    let b0: u32 = memory[at] as u32;
    let b1: u32 = memory[at + 1] as u32;
    let b2: u32 = memory[at + 2] as u32;
    let b3: u32 = memory[at + 3] as u32;
    b0 + 256 * b1 + 65536 * b2 + 16777216 * b3
}

/// Writes the word `value` at `at`.
pub fn store_word(memory: &mut Vec<u8>, at: usize, value: u32)
    requires
        at + 4 <= old(memory).len(),
    ensures
        final(memory)@ == with_word(old(memory)@, at as int, value as int),
        final(memory).len() == old(memory).len(),
{
    proof {
        reveal(with_word);
    }
    memory.set(at, (value % 256) as u8);
    memory.set(at + 1, ((value / 256) % 256) as u8);
    memory.set(at + 2, ((value / 65536) % 256) as u8);
    memory.set(at + 3, ((value / 16777216) % 256) as u8);
}

} // verus!
