//! The two kinds of machine word the channel shares between threads.
//!
//! The *head* word names the next position to write: its upper half is the lap, its lower
//! half the index inside the buffer. The *state* word of a node says what may be done with
//! the node.

use vstd::prelude::*;

verus! {

/// Where the lap starts in a head word: half the width of `usize`, so 32 on 64-bit targets
/// and 16 on 32-bit targets.
pub const LAP_SHIFT: u32 = usize::BITS / 2;

/// The bits of a head word that hold the index.
pub const INDEX_MASK: usize = !0usize >> LAP_SHIFT;

/// The maximum length of the buffer allowed on this platform.
/// It is `2^16 - 1` on 32-bit platforms and `2^32 - 1` on 64-bit platforms.
pub const MAX_LEN: usize = INDEX_MASK;

/// Nothing was ever written to the node.
pub const STATE_EMPTY: usize = 0;

/// The node holds a message and nobody is using it.
pub const STATE_AVAILABLE: usize = 1;

/// A writer has taken the node.
pub const STATE_WRITING: usize = 2;

/// What each reader adds to the state while it is reading the node. Several readers can
/// read at once, so the state counts them in multiples of this power of two.
pub const STATE_READING: usize = 4;

/// The bits of a state that count readers.
pub const READING_MASK: usize = !0usize & !(STATE_READING - 1);

/// The number of laps, and of indices, that a head word can tell apart.
pub open spec fn radix() -> int {
    INDEX_MASK + 1
}

/// The lap in a head word.
pub open spec fn lap_of(word: usize) -> int {
    word as int / radix()
}

/// The index in a head word.
pub open spec fn index_of(word: usize) -> int {
    word as int % radix()
}

/// The head word for a lap and an index; of each, only what fits in half a word is kept.
pub open spec fn packed(lap: int, index: int) -> int {
    (lap % radix()) * radix() + index % radix()
}

/// The radix in numbers: it is at least `2^16`, and its square is the number of words.
pub proof fn lemma_radix()
    ensures
        65536 <= radix(),
        radix() < usize::MAX,
        radix() * radix() == usize::MAX + 1,
        usize::MAX as int % 4 == 3,
{
    assert((INDEX_MASK + 1) * (INDEX_MASK + 1) == !0usize + 1) by (bit_vector);
    assert(65536 <= INDEX_MASK + 1) by (bit_vector);
    assert(INDEX_MASK + 1 < !0usize) by (bit_vector);
    assert(!0usize % 4 == 3) by (bit_vector);
    assert(forall|w: usize| #![trigger w & !0usize] w <= !0usize) by (bit_vector);
    assert(usize::MAX & !0usize <= !0usize);
}

/// The word zero is lap zero, index zero.
pub proof fn lemma_zero()
    ensures
        lap_of(0) == 0,
        index_of(0) == 0,
{
    lemma_radix();
    vstd::arithmetic::div_mod::lemma_small_mod(0, radix() as nat);
    vstd::arithmetic::div_mod::lemma_basic_div(0, radix());
}

/// A packed lap and index always make a word.
pub proof fn lemma_packed_fits(lap: int, index: int)
    ensures
        0 <= packed(lap, index) <= usize::MAX,
{
    lemma_radix();
    let r = radix();
    vstd::arithmetic::div_mod::lemma_mod_bound(lap, r);
    vstd::arithmetic::div_mod::lemma_mod_bound(index, r);
    let high = lap % r;
    assert(0 <= high * r && high * r + r <= r * r) by (nonlinear_arith)
        requires
            0 <= high,
            high + 1 <= r,
    ;
}

/// Packing a lap and an index and unpacking the word gives both back, when each fits in
/// half a word.
pub proof fn law_unpack_after_pack(lap: int, index: int, word: usize)
    requires
        0 <= lap < radix(),
        0 <= index < radix(),
        word == packed(lap, index),
    ensures
        lap_of(word) == lap,
        index_of(word) == index,
{
    lemma_radix();
    vstd::arithmetic::div_mod::lemma_small_mod(lap as nat, radix() as nat);
    vstd::arithmetic::div_mod::lemma_small_mod(index as nat, radix() as nat);
    vstd::arithmetic::div_mod::lemma_fundamental_div_mod_converse(
        word as int,
        radix(),
        lap,
        index,
    );
}

/// Unpacking a word and packing what came out gives the word back; both parts fit in half
/// a word.
pub proof fn law_pack_after_unpack(word: usize)
    ensures
        0 <= lap_of(word) < radix(),
        0 <= index_of(word) < radix(),
        packed(lap_of(word), index_of(word)) == word,
{
    lemma_radix();
    let r = radix();
    vstd::arithmetic::div_mod::lemma_fundamental_div_mod(word as int, r);
    vstd::arithmetic::div_mod::lemma_mod_bound(word as int, r);
    vstd::arithmetic::div_mod::lemma_div_pos_is_pos(word as int, r);
    vstd::arithmetic::div_mod::lemma_multiply_divide_lt(word as int, r, r);
    vstd::arithmetic::div_mod::lemma_small_mod(lap_of(word) as nat, r as nat);
    vstd::arithmetic::div_mod::lemma_small_mod(index_of(word) as nat, r as nat);
    vstd::arithmetic::mul::lemma_mul_is_commutative(r, lap_of(word));
}

/// Extracts the lap and the index from a head word.
pub fn unpack_data_index(index: usize) -> (r: (usize, usize))
    ensures
        r.0 == lap_of(index),
        r.1 == index_of(index),
{
    assert(index >> LAP_SHIFT == index / ((INDEX_MASK + 1) as usize)) by (bit_vector);
    assert(index & INDEX_MASK == index % ((INDEX_MASK + 1) as usize)) by (bit_vector);
    proof {
        lemma_radix();
    }
    let lap: usize = index >> LAP_SHIFT;
    let low: usize = index & INDEX_MASK;
    (lap, low)
}

/// Makes a head word of a lap and an index, each of which fits in half a word.
pub fn pack_data_index(lap: usize, index: usize) -> (r: usize)
    requires
        lap <= INDEX_MASK,
        index <= INDEX_MASK,
    ensures
        r == packed(lap as int, index as int),
        lap_of(r) == lap,
        index_of(r) == index,
{
    assert(((lap << LAP_SHIFT) | (index & INDEX_MASK)) == (lap % ((INDEX_MASK + 1) as usize)) * (
    INDEX_MASK + 1) + index % ((INDEX_MASK + 1) as usize)) by (bit_vector);
    let word: usize = (lap << LAP_SHIFT) | (index & INDEX_MASK);
    proof {
        lemma_radix();
        law_unpack_after_pack(lap as int, index as int, word);
    }
    word
}

/// Whether a state says that some reader is reading the node.
pub open spec fn reading(state: usize) -> bool {
    state >= STATE_READING
}

/// Whether a state lets a reader start reading the node.
pub open spec fn readable(state: usize) -> bool {
    state == STATE_AVAILABLE || reading(state)
}

/// Whether some reader is reading the node.
#[inline]
pub fn is_reading(state: usize) -> (r: bool)
    ensures
        r == reading(state),
{
    assert((state & READING_MASK != 0) == (state >= STATE_READING)) by (bit_vector);
    state & READING_MASK != 0
}

/// Whether a reader may start reading the node.
#[inline]
pub fn is_readable(state: usize) -> (r: bool)
    ensures
        r == readable(state),
{
    state == STATE_AVAILABLE || is_reading(state)
}

} // verus!
