//! The search itself: a table of bit sets, one row per entry, filled row by row and then
//! walked backwards.
//!
//! Bit `b` of row `i` says whether some sub-multiset of the first `i + 1` entries sums to
//! `b - zero_index`. Row `i` is filled from row `i - 1` by two sweeps over all bit indices,
//! which run on rayon's thread pool.

use crate::bitvec::bit_at;
use crate::bitvec::rounded_bits;
use crate::bitvec::with_bit;
use crate::bitvec::word_new;
use crate::bitvec::word_value;
use crate::bitvec::AtomicBitVec;
use crate::bitvec::SharedBits;
use crate::subset::backtrack;
use crate::subset::lemma_reachable_bounds;
use crate::subset::lemma_reachable_single;
use crate::subset::lemma_reachable_step;
use crate::subset::lemma_reachable_zero;
use crate::subset::lemma_totals_of_prefix;
use crate::subset::neg_total;
use crate::subset::pos_total;
use crate::subset::reachable;
use crate::subset::seq_sum;
use crate::subset::solution;
use crate::subset::solution_iff_reachable;
use crate::subset::solution_sums_to_target;
use crate::subset::solution_within_entries;
use rayon::iter::IntoParallelIterator;
use rayon::iter::ParallelIterator;
use std::sync::atomic::AtomicU64;
use std::sync::atomic::AtomicUsize;
use std::sync::atomic::Ordering;
use vstd::prelude::*;

verus! {

/// Whether the bit indices that `entries` call for, rounded up to whole words, fit in a
/// `usize`.
pub open spec fn offset_space_fits(entries: Seq<i64>) -> bool {
    neg_total(entries) + 1 + pos_total(entries) + 64 <= usize::MAX
}

/// How signed sums map to bit indices: the sum `s` has the index `s + zero_index`, and
/// every sum that the entries can reach has an index below `sum_size`.
#[derive(Clone, Copy, Debug)]
pub struct OffsetSpace {
    pub zero_index: usize,
    pub sum_size: usize,
}

impl OffsetSpace {
    /// Whether this is the offset space of `entries`.
    pub open spec fn describes(&self, entries: Seq<i64>) -> bool {
        &&& self.zero_index == neg_total(entries)
        &&& self.sum_size == neg_total(entries) + 1 + pos_total(entries)
    }
}

/// Why a search cannot be set up.
#[derive(Clone, Copy, Debug)]
pub enum ConfigError {
    /// The entries span more sums than there are bit indices.
    OffsetSpaceTooLarge,
}

/// The magnitude of `entry`.
fn magnitude(entry: i64) -> (m: u64)
    ensures
        entry >= 0 ==> m == entry,
        entry < 0 ==> m == -entry,
{
    if entry >= 0 {
        entry as u64
    } else if entry == i64::MIN {
        0x8000_0000_0000_0000u64
    } else {
        (-entry) as u64
    }
}

/// Computes the offset space of `entries` in one pass, or reports that it does not fit.
pub fn offset_space(entries: &Vec<i64>) -> (outcome: Result<OffsetSpace, ConfigError>)
    ensures
        match outcome {
            Ok(space) => offset_space_fits(entries@) && space.describes(entries@),
            Err(_) => !offset_space_fits(entries@),
        },
{
    let mut most_negative: usize = 0;
    let mut most_positive: usize = 0;
    let mut i: usize = 0;
    assert(entries@.take(0) =~= Seq::<i64>::empty());
    while i < entries.len()
        invariant
            i <= entries.len(),
            most_negative == neg_total(entries@.take(i as int)),
            most_positive == pos_total(entries@.take(i as int)),
            most_negative + most_positive + 65 <= usize::MAX,
        decreases entries.len() - i,
    {
        let entry = entries[i];
        let room: usize = usize::MAX - 65 - most_negative - most_positive;
        let m = magnitude(entry);
        proof {
            assert(entries@.take(i + 1).drop_last() =~= entries@.take(i as int));
            lemma_totals_of_prefix(entries@, i + 1);
        }
        if m > room as u64 {
            return Err(ConfigError::OffsetSpaceTooLarge);
        }
        if entry < 0 {
            most_negative = most_negative + m as usize;
        } else {
            most_positive = most_positive + m as usize;
        }
        i = i + 1;
    }
    assert(entries@.take(i as int) =~= entries@);
    Ok(OffsetSpace { zero_index: most_negative, sum_size: most_negative + 1 + most_positive })
}

/// The index `delta` above `index`, when it lies below `sum_size`.
fn index_plus(index: usize, delta: i64, sum_size: usize) -> (moved: Option<usize>)
    ensures
        match moved {
            Some(at) => at == index + delta && at < sum_size,
            None => !(0 <= index + delta < sum_size),
        },
{
    let at: i128 = index as i128 + delta as i128;
    if 0 <= at && at < sum_size as i128 {
        Some(at as usize)
    } else {
        None
    }
}

/// The index `delta` below `index`, when it lies below `sum_size`.
fn index_minus(index: usize, delta: i64, sum_size: usize) -> (moved: Option<usize>)
    ensures
        match moved {
            Some(at) => at == index - delta && at < sum_size,
            None => !(0 <= index - delta < sum_size),
        },
{
    let at: i128 = index as i128 - delta as i128;
    if 0 <= at && at < sum_size as i128 {
        Some(at as usize)
    } else {
        None
    }
}

/// Reads bit `index` of `row`, sequentially consistent.
fn load(row: &AtomicBitVec, index: usize) -> (bit: bool)
    requires
        index < row@.len(),
    ensures
        bit == bit_at(row@, index),
{
    row.get(index, Ordering::SeqCst)
}

/// Raises bit `index` of `row`, sequentially consistent.
fn set_true(row: &mut AtomicBitVec, index: usize)
    requires
        index < old(row)@.len(),
    ensures
        final(row)@ == with_bit(old(row)@, index, true),
{
    let _ = row.set(index, true, Ordering::SeqCst);
}

/// Publishes the number of the row that is about to be filled.
fn report_progress(progress: Option<&AtomicUsize>, row: usize) {
    if let Some(counter) = progress {
        counter.store(row, Ordering::SeqCst);
    }
}

/// Whether `row` has room for more than `sum_size` bits, rounded to whole words, and no bit
/// set.
pub open spec fn is_blank(row: Seq<bool>, sum_size: int) -> bool {
    &&& row.len() == rounded_bits(sum_size)
    &&& forall|b: int| 0 <= b < row.len() ==> !#[trigger] row[b]
}

/// A row for `sum_size` sums with no bit set.
fn blank_row(sum_size: usize) -> (row: AtomicBitVec)
    requires
        sum_size + 64 <= usize::MAX,
    ensures
        is_blank(row@, sum_size as int),
{
    let mut row = AtomicBitVec::with_bit_capacity(sum_size);
    let zeroed = || -> (word: AtomicU64)
        ensures
            word_value(word) == 0,
        { word_new(0) };
    row.resize_bits_with(sum_size, zeroed);
    proof {
        assert forall|b: int| 0 <= b < row@.len() implies !#[trigger] row@[b] by {
            let word = row.words()[b / 64];
            let k = (b % 64) as u64;
            assert(word == 0);
            assert(0u64 & (1u64 << k) == 0) by (bit_vector);
        }
    }
    row
}

/// One blank row per entry. The rows are made on rayon's thread pool: `into_par_iter` on
/// the range of row numbers, `map` and `collect` hand back, in a `Vec` as long as the
/// range, what one call of `blank_row` returned for each number.
#[verifier::external_body]
fn create_dp_table(sum_size: usize, total: usize) -> (table: Vec<AtomicBitVec>)
    requires
        sum_size + 64 <= usize::MAX,
    ensures
        table@.len() == total,
        forall|k: int| 0 <= k < total ==> is_blank(#[trigger] table@[k]@, sum_size as int),
{
    (0..total).into_par_iter().map(|_| blank_row(sum_size)).collect()
}

/// Whether a sweep by `shift` raises bit `j`: the bit `shift` places below `j` exists and
/// is set in the row before.
pub open spec fn hit_at(prev: Seq<bool>, shift: int, sum_size: int, j: int) -> bool {
    0 <= j - shift < sum_size && prev[j - shift]
}

/// `row` after a sweep by `shift` over the first `sum_size` bits, reading `prev`.
pub open spec fn swept(prev: Seq<bool>, row: Seq<bool>, shift: int, sum_size: int) -> Seq<bool> {
    Seq::new(row.len(), |j: int| row[j] || (0 <= j < sum_size && hit_at(prev, shift, sum_size, j)))
}

/// Decides whether a sweep by `shift` raises bit `j`.
fn sweep_hit(prev: &AtomicBitVec, shift: i64, sum_size: usize, j: usize) -> (hit: bool)
    requires
        j < sum_size <= prev@.len(),
    ensures
        hit == hit_at(prev@, shift as int, sum_size as int, j as int),
{
    match index_minus(j, shift, sum_size) {
        Some(from) => load(prev, from),
        None => false,
    }
}

/// The part of a sweep that one worker does for bit `j`: the bit is raised in `row` when
/// the sweep hits it.
fn sweep_step(prev: &AtomicBitVec, row: &SharedBits, shift: i64, sum_size: usize, j: usize)
    requires
        j < sum_size <= prev@.len(),
        sum_size <= row.size(),
{
    if sweep_hit(prev, shift, sum_size, j) {
        let _ = row.set(j, true, Ordering::SeqCst);
    }
}

/// One sweep over the bit indices below `sum_size`, on rayon's thread pool: `for_each` on
/// the parallel range runs `sweep_step` once for every index and returns when all of them
/// are done. The steps read only `prev` and raise bits of `row` by atomic OR, so no raise
/// is lost and `row` ends with its former bits and those that the sweep hits.
#[verifier::external_body]
fn par_sweep(prev: &AtomicBitVec, row: &mut AtomicBitVec, shift: i64, sum_size: usize)
    requires
        sum_size <= prev@.len(),
        sum_size <= old(row)@.len(),
    ensures
        final(row)@ == swept(prev@, old(row)@, shift as int, sum_size as int),
{
    let shared = row.share();
    (0..sum_size).into_par_iter().for_each(|j| sweep_step(prev, &shared, shift, sum_size, j));
}

/// Whether the first `sum_size` bits of `row` tell which sums `prefix` reaches.
pub open spec fn row_tells(row: Seq<bool>, prefix: Seq<i64>, zero_index: int, sum_size: int) -> bool {
    &&& sum_size <= row.len()
    &&& forall|b: int| 0 <= b < sum_size ==> #[trigger] row[b] == reachable(prefix, b - zero_index)
}

/// Whether `table` holds, for each of its rows, the sums that the entries up to that row
/// reach.
pub open spec fn table_tells(
    table: Seq<AtomicBitVec>,
    entries: Seq<i64>,
    zero_index: int,
    sum_size: int,
) -> bool {
    forall|k: int|
        0 <= k < table.len() ==> row_tells(
            #[trigger] table[k]@,
            entries.take(k + 1),
            zero_index,
            sum_size,
        )
}

/// The first entry has a bit index of its own.
proof fn lemma_first_entry_fits(entries: Seq<i64>)
    requires
        entries.len() >= 1,
    ensures
        -neg_total(entries) <= entries[0] <= pos_total(entries),
{
    lemma_reachable_single(entries, entries[0] as int);
    lemma_reachable_bounds(entries.take(1), entries[0] as int);
    lemma_totals_of_prefix(entries, 1);
}

/// The first row, with the bits for the sum 0 and for the first entry raised, tells what
/// the first entry reaches.
proof fn lemma_first_row(entries: Seq<i64>, space: OffsetSpace, blank: Seq<bool>, row: Seq<bool>)
    requires
        entries.len() >= 1,
        space.describes(entries),
        is_blank(blank, space.sum_size as int),
        row == blank.update(space.zero_index as int, true).update(
            space.zero_index + entries[0],
            true,
        ),
    ensures
        row_tells(row, entries.take(1), space.zero_index as int, space.sum_size as int),
{
    lemma_first_entry_fits(entries);
    assert forall|b: int| 0 <= b < space.sum_size implies #[trigger] row[b] == reachable(
        entries.take(1),
        b - space.zero_index,
    ) by {
        lemma_reachable_single(entries, b - space.zero_index);
    }
}

/// A blank row with the bit for the sum 0 raised, swept once in place and once by entry
/// `i`, tells what the first `i + 1` entries reach.
proof fn lemma_next_row(
    entries: Seq<i64>,
    i: int,
    space: OffsetSpace,
    prev: Seq<bool>,
    blank: Seq<bool>,
    row: Seq<bool>,
)
    requires
        0 < i < entries.len(),
        space.describes(entries),
        is_blank(blank, space.sum_size as int),
        row_tells(prev, entries.take(i), space.zero_index as int, space.sum_size as int),
        row == swept(
            prev,
            swept(prev, blank.update(space.zero_index as int, true), 0, space.sum_size as int),
            entries[i] as int,
            space.sum_size as int,
        ),
    ensures
        row_tells(row, entries.take(i + 1), space.zero_index as int, space.sum_size as int),
{
    let zero = space.zero_index as int;
    let size = space.sum_size as int;
    lemma_totals_of_prefix(entries, i);
    lemma_reachable_zero(entries.take(i));
    assert forall|b: int| 0 <= b < size implies #[trigger] row[b] == reachable(
        entries.take(i + 1),
        b - zero,
    ) by {
        lemma_reachable_step(entries, i, b - zero);
        let from = b - entries[i];
        if reachable(entries.take(i), from - zero) {
            lemma_reachable_bounds(entries.take(i), from - zero);
            assert(prev[from]);
        }
        if 0 <= from < size {
            assert(prev[from] == reachable(entries.take(i), from - zero));
        }
        assert(prev[b] == reachable(entries.take(i), b - zero));
    }
}

/// Fills the table: one row per entry, each row from the one before it.
fn build_table(entries: &Vec<i64>, space: &OffsetSpace, progress: Option<&AtomicUsize>) -> (table:
    Vec<AtomicBitVec>)
    requires
        offset_space_fits(entries@),
        space.describes(entries@),
    ensures
        table@.len() == entries@.len(),
        table_tells(table@, entries@, space.zero_index as int, space.sum_size as int),
{
    let total = entries.len();
    let zero_index = space.zero_index;
    let sum_size = space.sum_size;
    let mut blank = create_dp_table(sum_size, total);
    let mut table: Vec<AtomicBitVec> = Vec::new();
    let mut i: usize = 0;
    while i < total
        invariant
            total == entries@.len(),
            i <= total,
            space.describes(entries@),
            zero_index == space.zero_index,
            sum_size == space.sum_size,
            sum_size + 64 <= usize::MAX,
            blank@.len() == total - i,
            forall|k: int| 0 <= k < blank@.len() ==> is_blank(#[trigger] blank@[k]@, sum_size as int),
            table@.len() == i,
            table_tells(table@, entries@, zero_index as int, sum_size as int),
        decreases total - i,
    {
        report_progress(progress, i);
        // The row moves from `blank` to `table` once it is filled: the row in work is
        // held exclusively while the row before it is read.
        let mut row = blank.pop().unwrap();
        let ghost fresh = row@;
        set_true(&mut row, zero_index);
        if i == 0 {
            proof {
                lemma_first_entry_fits(entries@);
            }
            let at = index_plus(zero_index, entries[0], sum_size).unwrap();
            set_true(&mut row, at);
            proof {
                lemma_first_row(entries@, *space, fresh, row@);
            }
        } else {
            let prev = &table[i - 1];
            par_sweep(prev, &mut row, 0, sum_size);
            par_sweep(prev, &mut row, entries[i], sum_size);
            proof {
                lemma_next_row(entries@, i as int, *space, prev@, fresh, row@);
            }
        }
        table.push(row);
        i = i + 1;
    }
    table
}

/// Walks the table backwards from the last row and collects a sub-multiset that accounts
/// for the sum at bit index `wanted`.
fn reconstruct(
    entries: &Vec<i64>,
    table: &Vec<AtomicBitVec>,
    space: &OffsetSpace,
    wanted: usize,
) -> (subset: Vec<i64>)
    requires
        entries@.len() > 0,
        space.describes(entries@),
        table@.len() == entries@.len(),
        table_tells(table@, entries@, space.zero_index as int, space.sum_size as int),
        wanted < space.sum_size,
        reachable(entries@, wanted - space.zero_index),
    ensures
        subset@ == backtrack(entries@, entries@.len() - 1, wanted - space.zero_index),
{
    let zero_index = space.zero_index;
    let sum_size = space.sum_size;
    let ghost whole = backtrack(entries@, entries@.len() - 1, wanted - space.zero_index);
    let mut subset: Vec<i64> = Vec::new();
    if wanted == zero_index {
        assert(subset@ =~= whole);
        return subset;
    }
    let mut current_sum = wanted;
    let mut i = entries.len() - 1;
    assert(entries@.take(i + 1) =~= entries@);
    loop
        invariant_except_break
            i < entries@.len(),
            current_sum < sum_size,
            current_sum != zero_index,
            reachable(entries@.take(i + 1), current_sum - zero_index),
            whole == subset@ + backtrack(entries@, i as int, current_sum - zero_index),
        invariant
            space.describes(entries@),
            zero_index == space.zero_index,
            sum_size == space.sum_size,
            table@.len() == entries@.len(),
            table_tells(table@, entries@, zero_index as int, sum_size as int),
        ensures
            subset@ == whole,
        decreases i,
    {
        let ghost sum = current_sum - zero_index;
        let ghost found = subset@;
        let necessary = i == 0 || !load(&table[i - 1], current_sum);
        if necessary {
            subset.push(entries[i]);
        }
        if i == 0 {
            assert(backtrack(entries@, 0, sum) =~= seq![entries@[0]]);
            assert(subset@ =~= found + backtrack(entries@, 0, sum));
            break;
        }
        if necessary {
            proof {
                lemma_reachable_step(entries@, i as int, sum);
                lemma_reachable_bounds(entries@.take(i as int), sum - entries@[i as int]);
                lemma_totals_of_prefix(entries@, i as int);
            }
            current_sum = index_minus(current_sum, entries[i], sum_size).unwrap();
        }
        if current_sum == zero_index {
            assert(subset@ =~= found + backtrack(entries@, i as int, sum));
            break;
        }
        assert(subset@ + backtrack(entries@, i - 1, current_sum - zero_index) =~= found
            + backtrack(entries@, i as int, sum));
        i = i - 1;
    }
    subset
}

/// Whether `result` is what a search of `entries` for `target` returns.
pub open spec fn returned(result: Option<Vec<i64>>, target: i64, entries: Seq<i64>) -> bool {
    match result {
        Some(subset) => solution(target as int, entries) == Some(subset@),
        None => solution(target as int, entries).is_none(),
    }
}

/// Two searches of the same entries for the same target agree: both find nothing, or both
/// return the same entries in the same order, which add up to the target.
pub proof fn runs_agree(
    target: i64,
    entries: Seq<i64>,
    first: Option<Vec<i64>>,
    second: Option<Vec<i64>>,
)
    requires
        returned(first, target, entries),
        returned(second, target, entries),
    ensures
        first.is_some() == second.is_some(),
        first matches Some(a) ==> second matches Some(b) && a@ == b@ && seq_sum(a@) == target
            && seq_sum(b@) == target,
{
    solution_sums_to_target(target as int, entries);
}

/// Searches `entries` for a sub-multiset that sums to `target`.
///
/// Returns `None` when there is none. Otherwise returns the entries that the backward walk
/// through the table collects, latest entry first; for the target 0 that is no entry at
/// all. While the table is filled, the number of the row in work is stored in `progress`.
///
/// The offset space of the entries has to fit, which [`offset_space`] tells.
pub fn run_algorithm(target: i64, entries: Vec<i64>, progress: Option<&AtomicUsize>) -> (result:
    Option<Vec<i64>>)
    requires
        offset_space_fits(entries@),
    ensures
        returned(result, target, entries@),
        result.is_some() <==> reachable(entries@, target as int),
        result matches Some(subset) ==> subset@.to_multiset().subset_of(entries@.to_multiset()),
        result matches Some(subset) ==> seq_sum(subset@) == target,
{
    proof {
        solution_iff_reachable(target as int, entries@);
        solution_within_entries(target as int, entries@);
        solution_sums_to_target(target as int, entries@);
    }
    let total = entries.len();
    if total == 0 {
        return if target == 0 {
            let subset: Vec<i64> = Vec::new();
            assert(subset@ =~= Seq::<i64>::empty());
            Some(subset)
        } else {
            None
        };
    }
    let space = match offset_space(&entries) {
        Ok(space) => space,
        Err(_) => unreached(),
    };
    let table = build_table(&entries, &space, progress);
    assert(entries@.take(total as int) =~= entries@);
    let wanted = match index_plus(space.zero_index, target, space.sum_size) {
        Some(wanted) => wanted,
        None => {
            proof {
                if reachable(entries@, target as int) {
                    lemma_reachable_bounds(entries@, target as int);
                }
            }
            return None;
        },
    };
    if !load(&table[total - 1], wanted) {
        return None;
    }
    Some(reconstruct(&entries, &table, &space, wanted))
}

} // verus!
