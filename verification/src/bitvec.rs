//! A growable bit set stored in 64-bit atomic words.
//!
//! Storage grows and shrinks in whole words, so the length in bits is always a multiple
//! of 64. Every read and write of a bit is one atomic operation on the word that holds the
//! bit, with the memory ordering that the caller chooses.
//!
//! The owner of a set works on it through [`AtomicBitVec`], whose contracts say exactly
//! which bits the set holds. For use from many threads at once the owner lends the set out
//! as [`SharedBits`]. What is read through the loan depends on what the other borrowers
//! have done, so nothing is promised of it, and when the loan ends only the length of the
//! set is known.

use std::sync::atomic::AtomicU64;
use std::sync::atomic::Ordering;
use vstd::prelude::*;

verus! {

/// The value that an atomic word holds.
///
/// A word of a set changes its value only under an exclusive borrow of the set or while
/// the set is on loan, and while it is on loan nothing reads the word by this name.
pub uninterp spec fn word_value(word: AtomicU64) -> u64;

/// `AtomicU64::new`: the fresh word holds `value`.
#[verifier::external_body]
pub(crate) fn word_new(value: u64) -> (word: AtomicU64)
    ensures
        word_value(word) == value,
{
    AtomicU64::new(value)
}

/// `AtomicU64::load` of a word that nobody is writing: returns the value that the word
/// holds. The standard library panics on the orderings `Release` and `AcqRel`, so they are
/// left out.
#[verifier::external_body]
fn word_load(word: &AtomicU64, ordering: Ordering) -> (value: u64)
    requires
        valid_for_load(ordering),
    ensures
        value == word_value(*word),
{
    word.load(ordering)
}

/// `AtomicU64::fetch_or` through an exclusive borrow: returns the word's former value and
/// leaves the word holding that value with the bits of `mask` raised.
#[verifier::external_body]
fn word_fetch_or(word: &mut AtomicU64, mask: u64, ordering: Ordering) -> (prev: u64)
    ensures
        prev == word_value(*old(word)),
        word_value(*final(word)) == prev | mask,
{
    word.fetch_or(mask, ordering)
}

/// `AtomicU64::fetch_and` through an exclusive borrow: returns the word's former value and
/// leaves the word holding only those of its bits that are also in `mask`.
#[verifier::external_body]
fn word_fetch_and(word: &mut AtomicU64, mask: u64, ordering: Ordering) -> (prev: u64)
    ensures
        prev == word_value(*old(word)),
        word_value(*final(word)) == prev & mask,
{
    word.fetch_and(mask, ordering)
}

/// Whether an atomic load accepts `ordering`.
pub open spec fn valid_for_load(ordering: Ordering) -> bool {
    ordering != Ordering::Release && ordering != Ordering::AcqRel
}

/// The mask that selects bit `k` of a word.
pub open spec fn mask_of(k: int) -> u64 {
    1u64 << (k as u64)
}

/// Whether bit `k` of `word` is set.
pub open spec fn bit_of(word: u64, k: int) -> bool {
    word & mask_of(k) != 0
}

/// Whether `value` is what some word that `f` may return holds.
pub open spec fn made_by<F: FnMut() -> AtomicU64>(f: F, value: u64) -> bool {
    exists|word: AtomicU64| f.ensures((), word) && word_value(word) == value
}

/// The smallest multiple of 64 that is strictly greater than `bits`.
pub open spec fn rounded_bits(bits: int) -> int {
    (bits / 64 + 1) * 64
}

/// The bits that a sequence of words holds, lowest bit of the first word first.
pub open spec fn bits_of_words(words: Seq<u64>) -> Seq<bool> {
    Seq::new(64 * words.len(), |i: int| bit_of(words[i / 64], i % 64))
}

/// `bits` with the bit at `idx` replaced by `value`.
pub open spec fn with_bit(bits: Seq<bool>, idx: usize, value: bool) -> Seq<bool> {
    bits.update(idx as int, value)
}

/// The bit of `bits` at `idx`.
pub open spec fn bit_at(bits: Seq<bool>, idx: usize) -> bool {
    bits[idx as int]
}

/// `bits` without its first `n` bits.
pub open spec fn without_first(bits: Seq<bool>, n: usize) -> Seq<bool> {
    bits.skip(n as int)
}

/// How many of the lowest `n` bits of `word` are set.
pub open spec fn ones_below(word: u64, n: nat) -> nat
    decreases n,
{
    if n == 0 {
        0
    } else {
        ones_below(word, (n - 1) as nat) + if bit_of(word, n - 1) {
            1nat
        } else {
            0nat
        }
    }
}

/// How many bits of `bits` are set.
pub open spec fn count_true(bits: Seq<bool>) -> nat
    decreases bits.len(),
{
    if bits.len() == 0 {
        0
    } else {
        count_true(bits.drop_last()) + if bits.last() {
            1nat
        } else {
            0nat
        }
    }
}

/// `u64::count_ones`: the number of set bits among the 64 bits of `word`.
pub assume_specification[ u64::count_ones ](word: u64) -> (count: u32)
    ensures
        count == ones_below(word, 64),
;

/// `small` as a `usize`.
fn widen(small: u32) -> (wide: usize)
    ensures
        wide == small,
{
    small as usize
}

/// The number of set bits of `word`, as a `usize`.
pub fn ones_in(word: u64) -> (count: usize)
    ensures
        count == ones_below(word, 64),
        count <= 64,
{
    proof {
        lemma_ones_below_bound(word, 64);
    }
    widen(word.count_ones())
}

proof fn lemma_ones_below_bound(word: u64, n: nat)
    ensures
        ones_below(word, n) <= n,
    decreases n,
{
    if n > 0 {
        lemma_ones_below_bound(word, (n - 1) as nat);
    }
}

/// The set bits among the first `64 * w + n` bits are those among the first `64 * w`
/// together with those among the lowest `n` bits of word `w`.
proof fn lemma_count_true_word(words: Seq<u64>, w: int, n: nat)
    requires
        0 <= w < words.len(),
        n <= 64,
    ensures
        count_true(bits_of_words(words).take(64 * w + n)) == count_true(
            bits_of_words(words).take(64 * w),
        ) + ones_below(words[w], n),
    decreases n,
{
    let bits = bits_of_words(words);
    if n > 0 {
        lemma_count_true_word(words, w, (n - 1) as nat);
        let upto = bits.take(64 * w + n);
        assert(upto.drop_last() =~= bits.take(64 * w + n - 1));
        assert(upto.last() == bit_of(words[w], n - 1));
    }
}

/// The set bits among the first `w + 1` words are those among the first `w` words together
/// with those of word `w`.
proof fn lemma_count_true_block(words: Seq<u64>, w: usize)
    requires
        w < words.len(),
    ensures
        count_true(bits_of_words(words).take(64 * w + 64)) == count_true(
            bits_of_words(words).take(64 * w),
        ) + ones_below(words[w as int], 64),
{
    lemma_count_true_word(words, w as int, 64);
}

/// A bit count rounded to whole words is a multiple of 64 and greater than the count.
pub proof fn rounded_bits_covers(bits: int)
    requires
        bits >= 0,
    ensures
        rounded_bits(bits) % 64 == 0,
        rounded_bits(bits) > bits,
{
}

/// After a bit was set it reads as the value given, and every other bit reads as before.
pub proof fn set_then_get(bits: Seq<bool>, idx: usize, value: bool, other: usize)
    requires
        idx < bits.len(),
        other < bits.len(),
    ensures
        bit_at(with_bit(bits, idx, value), idx) == value,
        other != idx ==> bit_at(with_bit(bits, idx, value), other) == bit_at(bits, other),
        with_bit(bits, idx, value).len() == bits.len(),
{
}

/// Setting a bit that was clear adds one to the number of set bits, and clearing a bit
/// that was set takes one away.
pub proof fn set_changes_count_by_one(bits: Seq<bool>, idx: usize, value: bool)
    requires
        idx < bits.len(),
        bit_at(bits, idx) != value,
    ensures
        value ==> count_true(with_bit(bits, idx, value)) == count_true(bits) + 1,
        !value ==> count_true(with_bit(bits, idx, value)) + 1 == count_true(bits),
    decreases bits.len(),
{
    let after = bits.update(idx as int, value);
    if idx == bits.len() - 1 {
        assert(after.drop_last() =~= bits.drop_last());
    } else {
        set_changes_count_by_one(bits.drop_last(), idx, value);
        assert(after.drop_last() =~= bits.drop_last().update(idx as int, value));
    }
}

/// Rounds `v` up to the next multiple of 64 above it.
fn next_mul_64(v: usize) -> (r: usize)
    requires
        v + 64 <= usize::MAX,
    ensures
        r == rounded_bits(v as int),
        r % 64 == 0,
        r > v,
{
    let raised: usize = v + 64;
    let r = raised & !63;
    assert(r == (raised / 64) * 64) by (bit_vector)
        requires
            r == raised & !63usize,
    ;
    r
}

proof fn lemma_mask_or(word: u64, k: u64, j: u64)
    requires
        k < 64,
        j < 64,
    ensures
        ((word | (1u64 << k)) & (1u64 << j) != 0) == (j == k || word & (1u64 << j) != 0),
{
    assert(((word | (1u64 << k)) & (1u64 << j) != 0) == (j == k || word & (1u64 << j) != 0))
        by (bit_vector)
        requires
            k < 64,
            j < 64,
    ;
}

proof fn lemma_mask_and_not(word: u64, k: u64, j: u64)
    requires
        k < 64,
        j < 64,
    ensures
        ((word & !(1u64 << k)) & (1u64 << j) != 0) == (j != k && word & (1u64 << j) != 0),
{
    assert(((word & !(1u64 << k)) & (1u64 << j) != 0) == (j != k && word & (1u64 << j) != 0))
        by (bit_vector)
        requires
            k < 64,
            j < 64,
    ;
}

/// A bit set over atomic words.
pub struct AtomicBitVec {
    data: Vec<AtomicU64>,
}

impl View for AtomicBitVec {
    type V = Seq<bool>;

    /// The bits held, in index order.
    open spec fn view(&self) -> Seq<bool> {
        bits_of_words(self.words())
    }
}

impl AtomicBitVec {
    /// The values of the words of storage, in order.
    pub closed spec fn words(&self) -> Seq<u64> {
        Seq::new(self.data@.len(), |i: int| word_value(self.data@[i]))
    }

    #[verifier::type_invariant]
    spec fn fits(&self) -> bool {
        self.data@.len() * 64 <= usize::MAX
    }

    /// A set holds whole words: its length in bits is a multiple of 64.
    pub proof fn len_is_whole_words(&self)
        ensures
            self@.len() % 64 == 0,
    {
    }

    /// An empty bit set. Nothing is allocated.
    pub fn new() -> (r: Self)
        ensures
            r.words() == Seq::<u64>::empty(),
    {
        let r = Self { data: Vec::new() };
        assert(r.words() =~= Seq::<u64>::empty());
        r
    }

    /// An empty bit set with room for more than `bit_cap` bits, rounded to whole words.
    pub fn with_bit_capacity(bit_cap: usize) -> (r: Self)
        requires
            bit_cap + 64 <= usize::MAX,
        ensures
            r.words() == Seq::<u64>::empty(),
    {
        let blocks = next_mul_64(bit_cap) / 64;
        Self::with_capacity(blocks)
    }

    /// An empty bit set with room for `blocks` words.
    pub fn with_capacity(blocks: usize) -> (r: Self)
        requires
            blocks * 64 <= usize::MAX,
        ensures
            r.words() == Seq::<u64>::empty(),
    {
        let r = Self { data: Vec::with_capacity(blocks) };
        assert(r.words() =~= Seq::<u64>::empty());
        r
    }

    /// The number of words of storage.
    pub fn block_cnt(&self) -> (r: usize)
        ensures
            r == self.words().len(),
            r * 64 == self@.len(),
    {
        self.data.len()
    }

    /// The number of bits held, always a multiple of 64.
    pub fn len(&self) -> (r: usize)
        ensures
            r == self@.len(),
            r % 64 == 0,
    {
        proof {
            use_type_invariant(self);
        }
        self.data.len() * 64
    }

    /// The number of bits held; the same as [`AtomicBitVec::len`].
    pub fn bit_size(&self) -> (r: usize)
        ensures
            r == self@.len(),
            r % 64 == 0,
    {
        self.len()
    }

    /// The word that holds bit `idx`, and the mask that selects the bit in that word.
    fn loc_and_mask(idx: usize) -> (r: (usize, u64))
        ensures
            r.0 == idx / 64,
            r.1 == mask_of(idx as int % 64),
    {
        let k: u64 = (idx % 64) as u64;
        let mask = 1u64 << k;
        let block = idx / 64;
        (block, mask)
    }

    /// Sets the bit at `idx` to `value` with one atomic read-modify-write, and returns the
    /// bit's former value.
    pub fn set(&mut self, idx: usize, value: bool, ordering: Ordering) -> (prev: bool)
        requires
            idx < old(self)@.len(),
        ensures
            prev == bit_at(old(self)@, idx),
            final(self)@ == with_bit(old(self)@, idx, value),
    {
        let (loc, mask) = Self::loc_and_mask(idx);
        let ghost before = self.words();
        proof {
            use_type_invariant(&*self);
        }
        let dest = &mut self.data[loc];
        let word = if value {
            word_fetch_or(dest, mask, ordering)
        } else {
            word_fetch_and(dest, !mask, ordering)
        };
        proof {
            Self::lemma_set(before, self.words(), idx, value);
        }
        word & mask != 0
    }

    proof fn lemma_set(before: Seq<u64>, after: Seq<u64>, idx: usize, value: bool)
        requires
            idx < 64 * before.len(),
            after.len() == before.len(),
            forall|w: int| 0 <= w < before.len() && w != idx as int / 64 ==> after[w] == before[w],
            after[idx as int / 64] == if value {
                before[idx as int / 64] | mask_of(idx as int % 64)
            } else {
                before[idx as int / 64] & !mask_of(idx as int % 64)
            },
        ensures
            bits_of_words(after) == bits_of_words(before).update(idx as int, value),
            bits_of_words(before)[idx as int] == (before[idx as int / 64] & mask_of(
                idx as int % 64,
            ) != 0),
    {
        let loc = idx as int / 64;
        let k = (idx as int % 64) as u64;
        let old_word = before[loc];
        assert forall|i: int| 0 <= i < 64 * before.len() implies bits_of_words(after)[i]
            == bits_of_words(before).update(idx as int, value)[i] by {
            if i / 64 == loc {
                let j = (i % 64) as u64;
                lemma_mask_or(old_word, k, j);
                lemma_mask_and_not(old_word, k, j);
            }
        }
        assert(bits_of_words(after) =~= bits_of_words(before).update(idx as int, value));
    }

    /// Grows or shrinks the storage to `new_blocks` words. Words that stay keep their
    /// value; each added word comes from one call of `f`.
    pub fn resize_with(&mut self, new_blocks: usize, mut f: impl FnMut() -> AtomicU64)
        requires
            new_blocks * 64 <= usize::MAX,
            f.requires(()),
        ensures
            final(self)@.len() == 64 * new_blocks,
            forall|i: int|
                0 <= i < final(self)@.len() && i < old(self)@.len() ==> final(self)@[i]
                    == old(self)@[i],
            final(self).words().len() == new_blocks,
            forall|k: int|
                0 <= k < new_blocks && k < old(self).words().len() ==> final(self).words()[k]
                    == old(self).words()[k],
            forall|k: int|
                old(self).words().len() <= k < new_blocks ==> made_by(
                    f,
                    #[trigger] final(self).words()[k],
                ),
    {
        let ghost before = self.words();
        let ghost f0 = f;
        // The words are taken out while their number changes, so that the set is whole
        // whenever `f` runs.
        let mut data: Vec<AtomicU64> = Vec::new();
        std::mem::swap(&mut self.data, &mut data);
        if new_blocks <= data.len() {
            data.truncate(new_blocks);
        } else {
            while data.len() < new_blocks
                invariant
                    new_blocks * 64 <= usize::MAX,
                    f == f0,
                    f.requires(()),
                    before.len() <= data.len() <= new_blocks,
                    forall|k: int| 0 <= k < before.len() ==> word_value(data@[k]) == before[k],
                    forall|k: int|
                        before.len() <= k < data.len() ==> f.ensures((), #[trigger] data@[k]),
                decreases new_blocks - data.len(),
            {
                let word = f();
                data.push(word);
            }
        }
        std::mem::swap(&mut self.data, &mut data);
        proof {
            assert forall|k: int| before.len() <= k < new_blocks implies made_by(
                f,
                #[trigger] self.words()[k],
            ) by {
                assert(f.ensures((), self.data@[k]));
            }
        }
    }

    /// Grows or shrinks the storage to hold more than `new_bits` bits, rounded to whole
    /// words. Words that stay keep their value; each added word comes from one call of `f`.
    pub fn resize_bits_with(&mut self, new_bits: usize, f: impl FnMut() -> AtomicU64)
        requires
            new_bits + 64 <= usize::MAX,
            f.requires(()),
        ensures
            final(self)@.len() == rounded_bits(new_bits as int),
            final(self)@.len() % 64 == 0,
            final(self)@.len() > new_bits,
            forall|i: int|
                0 <= i < final(self)@.len() && i < old(self)@.len() ==> final(self)@[i]
                    == old(self)@[i],
            final(self).words().len() == new_bits / 64 + 1,
            forall|k: int|
                0 <= k < final(self).words().len() && k < old(self).words().len()
                    ==> final(self).words()[k] == old(self).words()[k],
            forall|k: int|
                old(self).words().len() <= k < final(self).words().len() ==> made_by(
                    f,
                    #[trigger] final(self).words()[k],
                ),
    {
        let blocks = next_mul_64(new_bits) / 64;
        self.resize_with(blocks, f)
    }

    /// Lends the set out for concurrent use. While the loan lasts the set itself cannot be
    /// used; when it ends the set has its former length, and its bits are whatever the
    /// borrowers left.
    pub fn share(&mut self) -> (shared: SharedBits<'_>)
        ensures
            shared.size() == old(self)@.len(),
            final(self)@.len() == old(self)@.len(),
    {
        SharedBits { bits: self }
    }

    /// The bit at `idx`, read with one atomic load.
    pub fn get(&self, idx: usize, ordering: Ordering) -> (bit: bool)
        requires
            idx < self@.len(),
            valid_for_load(ordering),
        ensures
            bit == bit_at(self@, idx),
    {
        let (loc, mask) = Self::loc_and_mask(idx);
        let word = word_load(&self.data[loc], ordering);
        word & mask != 0
    }

    /// The number of set bits, from one atomic load of each word.
    pub fn count_ones(&self, ordering: Ordering) -> (count: usize)
        requires
            valid_for_load(ordering),
        ensures
            count == count_true(self@),
    {
        proof {
            use_type_invariant(self);
        }
        let mut count: usize = 0;
        let mut w: usize = 0;
        while w < self.data.len()
            invariant
                w <= self.data.len(),
                self.data.len() * 64 <= usize::MAX,
                valid_for_load(ordering),
                count == count_true(self@.take(64 * w)),
                count <= 64 * w,
            decreases self.data.len() - w,
        {
            let word = word_load(&self.data[w], ordering);
            proof {
                lemma_count_true_block(self.words(), w);
            }
            count = count + ones_in(word);
            w = w + 1;
        }
        assert(self@.take(64 * w) =~= self@);
        count
    }

    /// A cursor over the bits, from the first to the last. Each call starts a fresh cursor.
    pub fn iter<'a>(&'a self, ordering: Ordering) -> (cursor: BitArrayIter<'a>)
        requires
            valid_for_load(ordering),
        ensures
            cursor.remaining() == self@,
            cursor.load_order() == load_order_of(ordering),
    {
        BitArrayIter::new(self, load_order(ordering))
    }
}

/// A bit set on loan from its owner, for any number of threads to read and write at once.
///
/// Every operation is one atomic operation on the word that holds the bit. What a read
/// returns depends on what the other borrowers have done by then, so nothing is promised
/// of it.
#[derive(Clone, Copy)]
pub struct SharedBits<'a> {
    bits: &'a AtomicBitVec,
}

impl<'a> SharedBits<'a> {
    /// The number of bits of the set on loan.
    pub closed spec fn size(&self) -> nat {
        self.bits@.len()
    }

    /// The number of bits of the set on loan.
    pub fn len(&self) -> (r: usize)
        ensures
            r == self.size(),
    {
        self.bits.len()
    }

    /// Sets the bit at `idx` to `value` with one atomic read-modify-write, and returns the
    /// value that the bit had when the operation took effect.
    pub fn set(&self, idx: usize, value: bool, ordering: Ordering) -> (prev: bool)
        requires
            idx < self.size(),
    {
        let (loc, mask) = AtomicBitVec::loc_and_mask(idx);
        let dest = &self.bits.data[loc];
        let word = if value {
            dest.fetch_or(mask, ordering)
        } else {
            dest.fetch_and(!mask, ordering)
        };
        bit_in_word(word, idx)
    }

    /// The bit at `idx` as one atomic load finds it.
    pub fn get(&self, idx: usize, ordering: Ordering) -> (bit: bool)
        requires
            idx < self.size(),
            valid_for_load(ordering),
    {
        let (loc, _) = AtomicBitVec::loc_and_mask(idx);
        let word = self.bits.data[loc].load(ordering);
        bit_in_word(word, idx)
    }

    /// The number of set bits that one atomic load of each word finds. While others write,
    /// this is the count of no single moment.
    pub fn count_ones(&self, ordering: Ordering) -> (count: usize)
        requires
            valid_for_load(ordering),
        ensures
            count <= self.size(),
    {
        proof {
            use_type_invariant(self.bits);
        }
        let mut count: usize = 0;
        let mut w: usize = 0;
        while w < self.bits.data.len()
            invariant
                w <= self.bits.data.len(),
                self.bits.data.len() * 64 <= usize::MAX,
                count <= 64 * w,
            decreases self.bits.data.len() - w,
        {
            let word = self.bits.data[w].load(ordering);
            count = count + ones_in(word);
            w = w + 1;
        }
        count
    }

    /// A cursor over the bits of the set on loan, from the first to the last. Each call
    /// starts a fresh cursor. The cursor yields as many bits as the set has; each is what
    /// one atomic load finds at the time.
    pub fn iter(&self, ordering: Ordering) -> (cursor: SharedBitsIter<'a>)
        requires
            valid_for_load(ordering),
        ensures
            cursor.left() == self.size(),
            cursor.load_order() == load_order_of(ordering),
    {
        SharedBitsIter::new(*self, load_order(ordering))
    }
}

/// The memory orderings that an atomic load accepts.
#[derive(Clone, Copy, Debug, PartialEq, Eq, Structural)]
pub enum LoadOrder {
    Relaxed,
    Acquire,
    SeqCst,
}

/// The ordering that a cursor loads with when it was asked for `ordering`: `Relaxed` and
/// `Acquire` as they are, and the strongest in place of any other.
pub open spec fn load_order_of(ordering: Ordering) -> LoadOrder {
    match ordering {
        Ordering::Relaxed => LoadOrder::Relaxed,
        Ordering::Acquire => LoadOrder::Acquire,
        _ => LoadOrder::SeqCst,
    }
}

/// The ordering of the standard library that `order` stands for.
pub open spec fn ordering_for(order: LoadOrder) -> Ordering {
    match order {
        LoadOrder::Relaxed => Ordering::Relaxed,
        LoadOrder::Acquire => Ordering::Acquire,
        LoadOrder::SeqCst => Ordering::SeqCst,
    }
}

/// Hands out the ordering of the standard library that `order` stands for.
fn load_ordering(order: LoadOrder) -> (ordering: Ordering)
    ensures
        ordering == ordering_for(order),
        valid_for_load(ordering),
{
    match order {
        LoadOrder::Relaxed => Ordering::Relaxed,
        LoadOrder::Acquire => Ordering::Acquire,
        LoadOrder::SeqCst => Ordering::SeqCst,
    }
}

/// Picks the ordering that a cursor loads with.
fn load_order(ordering: Ordering) -> (order: LoadOrder)
    ensures
        order == load_order_of(ordering),
{
    match ordering {
        Ordering::Relaxed => LoadOrder::Relaxed,
        Ordering::Acquire => LoadOrder::Acquire,
        _ => LoadOrder::SeqCst,
    }
}

/// A cursor over the bits of an [`AtomicBitVec`] that can be advanced from both ends.
pub struct BitArrayIter<'a> {
    src: &'a AtomicBitVec,
    order: LoadOrder,
    idx: usize,
    back_idx: usize,
}

impl<'a> BitArrayIter<'a> {
    #[verifier::type_invariant]
    spec fn in_bounds(&self) -> bool {
        self.idx <= self.back_idx <= self.src@.len()
    }

    /// The bits that the cursor has yet to yield, in index order.
    pub closed spec fn remaining(&self) -> Seq<bool> {
        self.src@.subrange(self.idx as int, self.back_idx as int)
    }

    /// The ordering that the cursor loads every bit with.
    pub closed spec fn load_order(&self) -> LoadOrder {
        self.order
    }

    /// The ordering that the cursor loads every bit with.
    pub fn order(&self) -> (order: LoadOrder)
        ensures
            order == self.load_order(),
    {
        self.order
    }

    /// A cursor over all the bits of `orig`, which loads them with `order`.
    pub fn new(orig: &'a AtomicBitVec, order: LoadOrder) -> (cursor: Self)
        ensures
            cursor.remaining() == orig@,
            cursor.load_order() == order,
    {
        let bit_size = orig.len();
        let cursor = Self { src: orig, order, idx: 0, back_idx: bit_size };
        assert(cursor.remaining() =~= orig@);
        cursor
    }

    /// The bit at `idx` of the set under the cursor.
    fn read(&self, idx: usize) -> (bit: bool)
        requires
            idx < self.src@.len(),
        ensures
            bit == bit_at(self.src@, idx),
    {
        self.src.get(idx, load_ordering(self.order))
    }

    /// Yields the first remaining bit, or `None` when none remains.
    pub fn next(&mut self) -> (item: Option<bool>)
        ensures
            match item {
                Some(bit) => {
                    &&& old(self).remaining().len() > 0
                    &&& bit == old(self).remaining().first()
                    &&& final(self).remaining() == old(self).remaining().drop_first()
                },
                None => {
                    &&& old(self).remaining().len() == 0
                    &&& final(self).remaining() == old(self).remaining()
                },
            },
            final(self).load_order() == old(self).load_order(),
    {
        proof {
            use_type_invariant(&*self);
        }
        if self.idx < self.back_idx {
            let bit = self.read(self.idx);
            self.idx = self.idx + 1;
            assert(self.remaining() =~= old(self).remaining().drop_first());
            Some(bit)
        } else {
            None
        }
    }

    /// Yields the last remaining bit, or `None` when none remains.
    pub fn next_back(&mut self) -> (item: Option<bool>)
        ensures
            match item {
                Some(bit) => {
                    &&& old(self).remaining().len() > 0
                    &&& bit == old(self).remaining().last()
                    &&& final(self).remaining() == old(self).remaining().drop_last()
                },
                None => {
                    &&& old(self).remaining().len() == 0
                    &&& final(self).remaining() == old(self).remaining()
                },
            },
            final(self).load_order() == old(self).load_order(),
    {
        proof {
            use_type_invariant(&*self);
        }
        if self.idx < self.back_idx {
            let bit = self.read(self.back_idx - 1);
            self.back_idx = self.back_idx - 1;
            assert(self.remaining() =~= old(self).remaining().drop_last());
            Some(bit)
        } else {
            None
        }
    }

    /// The number of bits that remain, as a lower and an upper bound.
    pub fn size_hint(&self) -> (hint: (usize, Option<usize>))
        ensures
            hint.0 == self.remaining().len(),
            hint.1 == Some(hint.0),
    {
        proof {
            use_type_invariant(self);
        }
        let hint = self.back_idx - self.idx;
        (hint, Some(hint))
    }

    /// Skips `n` bits from the front. When fewer than `n` remain, all of them are skipped
    /// and their number is returned as the error.
    pub fn advance_by(&mut self, n: usize) -> (outcome: Result<(), usize>)
        ensures
            match outcome {
                Ok(_) => {
                    &&& n <= old(self).remaining().len()
                    &&& final(self).remaining() == without_first(old(self).remaining(), n)
                },
                Err(skipped) => {
                    &&& n > old(self).remaining().len()
                    &&& skipped == old(self).remaining().len()
                    &&& final(self).remaining().len() == 0
                },
            },
            final(self).load_order() == old(self).load_order(),
    {
        proof {
            use_type_invariant(&*self);
        }
        let left = self.back_idx - self.idx;
        if n <= left {
            self.idx = self.idx + n;
            assert(self.remaining() =~= without_first(old(self).remaining(), n));
            Ok(())
        } else {
            self.idx = self.back_idx;
            Err(left)
        }
    }
}

/// A cursor over the bits of a set on loan that can be advanced from both ends.
///
/// The cursor says how many bits it has yet to yield. The bits themselves are read while
/// other borrowers may write, so nothing is promised of them.
pub struct SharedBitsIter<'a> {
    src: SharedBits<'a>,
    order: LoadOrder,
    idx: usize,
    back_idx: usize,
}

impl<'a> SharedBitsIter<'a> {
    #[verifier::type_invariant]
    spec fn in_bounds(&self) -> bool {
        self.idx <= self.back_idx <= self.src.size()
    }

    /// The number of bits that the cursor has yet to yield.
    pub closed spec fn left(&self) -> nat {
        (self.back_idx - self.idx) as nat
    }

    /// The ordering that the cursor loads every bit with.
    pub closed spec fn load_order(&self) -> LoadOrder {
        self.order
    }

    /// The ordering that the cursor loads every bit with.
    pub fn order(&self) -> (order: LoadOrder)
        ensures
            order == self.load_order(),
    {
        self.order
    }

    /// A cursor over all the bits of `src`, which loads them with `order`.
    pub fn new(src: SharedBits<'a>, order: LoadOrder) -> (cursor: Self)
        ensures
            cursor.left() == src.size(),
            cursor.load_order() == order,
    {
        let bit_size = src.len();
        Self { src, order, idx: 0, back_idx: bit_size }
    }

    /// The bit at `idx` of the set under the cursor, as one atomic load finds it.
    fn read(&self, idx: usize) -> (bit: bool)
        requires
            idx < self.src.size(),
    {
        self.src.get(idx, load_ordering(self.order))
    }

    /// Yields the first of the bits that are left, or `None` when none is left.
    pub fn next(&mut self) -> (item: Option<bool>)
        ensures
            item is Some <==> old(self).left() > 0,
            item is Some ==> final(self).left() == old(self).left() - 1,
            item is None ==> final(self).left() == 0,
            final(self).load_order() == old(self).load_order(),
    {
        proof {
            use_type_invariant(&*self);
        }
        if self.idx < self.back_idx {
            let bit = self.read(self.idx);
            self.idx = self.idx + 1;
            Some(bit)
        } else {
            None
        }
    }

    /// Yields the last of the bits that are left, or `None` when none is left.
    pub fn next_back(&mut self) -> (item: Option<bool>)
        ensures
            item is Some <==> old(self).left() > 0,
            item is Some ==> final(self).left() == old(self).left() - 1,
            item is None ==> final(self).left() == 0,
            final(self).load_order() == old(self).load_order(),
    {
        proof {
            use_type_invariant(&*self);
        }
        if self.idx < self.back_idx {
            let bit = self.read(self.back_idx - 1);
            self.back_idx = self.back_idx - 1;
            Some(bit)
        } else {
            None
        }
    }

    /// The number of bits that are left, as a lower and an upper bound.
    pub fn size_hint(&self) -> (hint: (usize, Option<usize>))
        ensures
            hint.0 == self.left(),
            hint.1 == Some(hint.0),
    {
        proof {
            use_type_invariant(self);
        }
        let hint = self.back_idx - self.idx;
        (hint, Some(hint))
    }

    /// Skips `n` bits from the front. When fewer than `n` are left, all of them are
    /// skipped and their number is returned as the error.
    pub fn advance_by(&mut self, n: usize) -> (outcome: Result<(), usize>)
        ensures
            match outcome {
                Ok(_) => n <= old(self).left() && final(self).left() == old(self).left() - n,
                Err(skipped) => {
                    &&& n > old(self).left()
                    &&& skipped == old(self).left()
                    &&& final(self).left() == 0
                },
            },
            final(self).load_order() == old(self).load_order(),
    {
        proof {
            use_type_invariant(&*self);
        }
        let left = self.back_idx - self.idx;
        if n <= left {
            self.idx = self.idx + n;
            Ok(())
        } else {
            self.idx = self.back_idx;
            Err(left)
        }
    }
}

/// Whether bit `idx` of a set is set, given the value `word` of the word that holds it.
pub fn bit_in_word(word: u64, idx: usize) -> (bit: bool)
    ensures
        bit == bit_of(word, idx as int % 64),
{
    let (_, mask) = AtomicBitVec::loc_and_mask(idx);
    word & mask != 0
}

} // verus!
