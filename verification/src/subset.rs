//! The mathematics of the search: which sums the sub-multisets of a sequence of entries
//! reach, and which sub-multiset the search hands back.

use vstd::prelude::*;

verus! {

/// The sum of the entries that `pick` selects, position by position.
pub open spec fn picked_sum(entries: Seq<i64>, pick: Seq<bool>) -> int
    decreases entries.len(),
{
    if entries.len() == 0 {
        0
    } else {
        picked_sum(entries.drop_last(), pick.drop_last()) + if pick.last() {
            entries.last() as int
        } else {
            0
        }
    }
}

/// Whether some sub-multiset of `entries` sums to `sum`.
pub open spec fn reachable(entries: Seq<i64>, sum: int) -> bool {
    exists|pick: Seq<bool>|
        pick.len() == entries.len() && #[trigger] picked_sum(entries, pick) == sum
}

/// The sum of the magnitudes of the negative entries.
pub open spec fn neg_total(entries: Seq<i64>) -> nat
    decreases entries.len(),
{
    if entries.len() == 0 {
        0
    } else {
        neg_total(entries.drop_last()) + if entries.last() < 0 {
            (-entries.last()) as nat
        } else {
            0
        }
    }
}

/// The sum of the positive entries.
pub open spec fn pos_total(entries: Seq<i64>) -> nat
    decreases entries.len(),
{
    if entries.len() == 0 {
        0
    } else {
        pos_total(entries.drop_last()) + if entries.last() > 0 {
            entries.last() as nat
        } else {
            0
        }
    }
}

/// The sum of all of `values`.
pub open spec fn seq_sum(values: Seq<i64>) -> int
    decreases values.len(),
{
    if values.len() == 0 {
        0
    } else {
        seq_sum(values.drop_last()) + values.last()
    }
}

/// The entries that the backward walk collects when it stands at entry `i` and still has
/// to account for `sum`.
///
/// With nothing left to account for, the walk collects nothing. Otherwise entry `i` is
/// taken when it is the first entry or when the entries before it cannot reach `sum`
/// without it, and the walk goes on from the entry before it with what is then left.
pub open spec fn backtrack(entries: Seq<i64>, i: int, sum: int) -> Seq<i64>
    decreases i,
{
    if i < 0 || i >= entries.len() || sum == 0 {
        Seq::empty()
    } else {
        let necessary = i == 0 || !reachable(entries.take(i), sum);
        let head = if necessary {
            seq![entries[i]]
        } else {
            Seq::empty()
        };
        let rest = if necessary {
            sum - entries[i]
        } else {
            sum
        };
        if i == 0 || rest == 0 {
            head
        } else {
            head + backtrack(entries, i - 1, rest)
        }
    }
}

/// What the search returns for `target` and `entries`: nothing when no sub-multiset sums to
/// `target`, else the entries that the backward walk from the last entry collects. The
/// target 0 is always met, by the empty selection, and without entries no other target is.
pub open spec fn solution(target: int, entries: Seq<i64>) -> Option<Seq<i64>> {
    if entries.len() == 0 {
        if target == 0 {
            Some(Seq::empty())
        } else {
            None
        }
    } else if reachable(entries, target) {
        Some(backtrack(entries, entries.len() - 1, target))
    } else {
        None
    }
}

/// Without entries, only the sum 0 is reached.
pub proof fn lemma_reachable_empty(sum: int)
    ensures
        reachable(Seq::<i64>::empty(), sum) <==> sum == 0,
{
    assert(picked_sum(Seq::<i64>::empty(), Seq::<bool>::empty()) == 0);
}

/// The sum 0 is always reached, by selecting nothing.
pub proof fn lemma_reachable_zero(entries: Seq<i64>)
    ensures
        reachable(entries, 0),
    decreases entries.len(),
{
    if entries.len() == 0 {
        assert(entries =~= Seq::<i64>::empty());
        lemma_reachable_empty(0);
    } else {
        lemma_reachable_zero(entries.drop_last());
        assert(entries.drop_last().push(entries.last()) =~= entries);
        lemma_reachable_push(entries.drop_last(), entries.last(), 0);
    }
}

/// One more entry reaches what was reached before, and what was reached before moved by
/// the entry.
pub proof fn lemma_reachable_push(prefix: Seq<i64>, entry: i64, sum: int)
    ensures
        reachable(prefix.push(entry), sum) <==> (reachable(prefix, sum) || reachable(
            prefix,
            sum - entry,
        )),
{
    let longer = prefix.push(entry);
    assert(longer.drop_last() =~= prefix);
    if reachable(longer, sum) {
        let pick = choose|pick: Seq<bool>|
            pick.len() == longer.len() && #[trigger] picked_sum(longer, pick) == sum;
        let shorter = pick.drop_last();
        if pick.last() {
            assert(picked_sum(prefix, shorter) == sum - entry);
        } else {
            assert(picked_sum(prefix, shorter) == sum);
        }
    }
    if reachable(prefix, sum) {
        let pick = choose|pick: Seq<bool>|
            pick.len() == prefix.len() && #[trigger] picked_sum(prefix, pick) == sum;
        let wider = pick.push(false);
        assert(wider.drop_last() =~= pick);
        assert(picked_sum(longer, wider) == sum);
    }
    if reachable(prefix, sum - entry) {
        let pick = choose|pick: Seq<bool>|
            pick.len() == prefix.len() && #[trigger] picked_sum(prefix, pick) == sum - entry;
        let wider = pick.push(true);
        assert(wider.drop_last() =~= pick);
        assert(picked_sum(longer, wider) == sum);
    }
}

/// The first `i + 1` entries reach what the first `i` reach, with and without entry `i`.
pub proof fn lemma_reachable_step(entries: Seq<i64>, i: int, sum: int)
    requires
        0 <= i < entries.len(),
    ensures
        reachable(entries.take(i + 1), sum) <==> (reachable(entries.take(i), sum) || reachable(
            entries.take(i),
            sum - entries[i],
        )),
{
    assert(entries.take(i + 1) =~= entries.take(i).push(entries[i]));
    lemma_reachable_push(entries.take(i), entries[i], sum);
}

/// A single entry reaches 0 and itself.
pub proof fn lemma_reachable_single(entries: Seq<i64>, sum: int)
    requires
        entries.len() >= 1,
    ensures
        reachable(entries.take(1), sum) <==> (sum == 0 || sum == entries[0]),
{
    lemma_reachable_step(entries, 0, sum);
    assert(entries.take(0) =~= Seq::<i64>::empty());
    lemma_reachable_empty(sum);
    lemma_reachable_empty(sum - entries[0]);
}

/// No selection sums below the negative total or above the positive total.
pub proof fn lemma_picked_sum_bounds(entries: Seq<i64>, pick: Seq<bool>)
    requires
        pick.len() == entries.len(),
    ensures
        -neg_total(entries) <= picked_sum(entries, pick) <= pos_total(entries),
    decreases entries.len(),
{
    if entries.len() > 0 {
        lemma_picked_sum_bounds(entries.drop_last(), pick.drop_last());
    }
}

/// Every reached sum lies between the negative total and the positive total.
pub proof fn lemma_reachable_bounds(entries: Seq<i64>, sum: int)
    requires
        reachable(entries, sum),
    ensures
        -neg_total(entries) <= sum <= pos_total(entries),
{
    let pick = choose|pick: Seq<bool>|
        pick.len() == entries.len() && #[trigger] picked_sum(entries, pick) == sum;
    lemma_picked_sum_bounds(entries, pick);
}

/// The totals of a prefix do not exceed those of the whole.
pub proof fn lemma_totals_of_prefix(entries: Seq<i64>, i: int)
    requires
        0 <= i <= entries.len(),
    ensures
        neg_total(entries.take(i)) <= neg_total(entries),
        pos_total(entries.take(i)) <= pos_total(entries),
    decreases entries.len() - i,
{
    if i < entries.len() {
        lemma_totals_of_prefix(entries, i + 1);
        assert(entries.take(i + 1).drop_last() =~= entries.take(i));
    } else {
        assert(entries.take(i) =~= entries);
    }
}

/// The sum of a sequence that starts with `first`.
proof fn lemma_sum_of_cons(first: i64, rest: Seq<i64>)
    ensures
        seq_sum(seq![first] + rest) == first + seq_sum(rest),
    decreases rest.len(),
{
    let whole = seq![first] + rest;
    if rest.len() == 0 {
        assert(whole.drop_last() =~= Seq::<i64>::empty());
        assert(whole.last() == first);
        assert(seq_sum(whole.drop_last()) == 0);
    } else {
        lemma_sum_of_cons(first, rest.drop_last());
        assert(whole.drop_last() =~= seq![first] + rest.drop_last());
        assert(whole.last() == rest.last());
    }
}

/// From a sum that the first `i + 1` entries reach, the backward walk collects entries that
/// add up to the sum.
proof fn lemma_backtrack_sum(entries: Seq<i64>, i: int, sum: int)
    requires
        0 <= i < entries.len(),
        reachable(entries.take(i + 1), sum),
    ensures
        seq_sum(backtrack(entries, i, sum)) == sum,
    decreases i,
{
    lemma_sum_of_cons(entries[i], Seq::empty());
    assert(seq![entries[i]] + Seq::<i64>::empty() =~= seq![entries[i]]);
    if sum == 0 {
    } else if i == 0 {
        lemma_reachable_single(entries, sum);
    } else {
        lemma_reachable_step(entries, i, sum);
        let necessary = !reachable(entries.take(i), sum);
        let rest = if necessary {
            sum - entries[i]
        } else {
            sum
        };
        if rest != 0 {
            lemma_backtrack_sum(entries, i - 1, rest);
            if necessary {
                lemma_sum_of_cons(entries[i], backtrack(entries, i - 1, rest));
            } else {
                assert(Seq::<i64>::empty() + backtrack(entries, i - 1, rest) =~= backtrack(
                    entries,
                    i - 1,
                    rest,
                ));
            }
        }
    }
}

/// Whatever the backward walk collects from entry `i` on is a sub-multiset of the first
/// `i + 1` entries.
proof fn lemma_backtrack_within(entries: Seq<i64>, i: int, sum: int)
    requires
        i < entries.len(),
    ensures
        backtrack(entries, i, sum).to_multiset().subset_of(entries.take(i + 1).to_multiset()),
    decreases i,
{
    broadcast use vstd::multiset::group_multiset_axioms;

    let none = Seq::<i64>::empty();
    vstd::seq_lib::to_multiset_len(none);
    vstd::multiset::lemma_multiset_empty_len(none.to_multiset());
    if i >= 0 {
        let upto = entries.take(i);
        let one = seq![entries[i]];
        assert(entries.take(i + 1) =~= upto.push(entries[i]));
        vstd::seq_lib::to_multiset_build(upto, entries[i]);
        assert(one =~= none.push(entries[i]));
        vstd::seq_lib::to_multiset_build(none, entries[i]);
        let necessary = i == 0 || !reachable(upto, sum);
        let head = if necessary {
            one
        } else {
            none
        };
        let rest = if necessary {
            sum - entries[i]
        } else {
            sum
        };
        if i == 0 || rest == 0 {
        } else {
            lemma_backtrack_within(entries, i - 1, rest);
            vstd::seq_lib::lemma_multiset_commutative(head, backtrack(entries, i - 1, rest));
        }
    }
}

/// The positive entries together reach the positive total, the negative ones the negative
/// total.
pub proof fn lemma_totals_reached(entries: Seq<i64>)
    ensures
        reachable(entries, pos_total(entries) as int),
        reachable(entries, -neg_total(entries)),
    decreases entries.len(),
{
    if entries.len() == 0 {
        assert(entries =~= Seq::<i64>::empty());
        lemma_reachable_empty(0);
    } else {
        let prefix = entries.drop_last();
        lemma_totals_reached(prefix);
        assert(prefix.push(entries.last()) =~= entries);
        lemma_reachable_push(prefix, entries.last(), pos_total(entries) as int);
        lemma_reachable_push(prefix, entries.last(), -neg_total(entries));
    }
}

/// The search finds nothing for a target below the negative total or above the positive
/// total.
pub proof fn solution_none_outside_totals(target: int, entries: Seq<i64>)
    requires
        target < -neg_total(entries) || target > pos_total(entries),
    ensures
        solution(target, entries) is None,
{
    solution_iff_reachable(target, entries);
    if reachable(entries, target) {
        lemma_reachable_bounds(entries, target);
    }
}

/// The search finds a sub-multiset for the positive total and for the negative total.
pub proof fn solution_some_at_totals(entries: Seq<i64>)
    ensures
        solution(pos_total(entries) as int, entries) is Some,
        solution(-neg_total(entries), entries) is Some,
{
    lemma_totals_reached(entries);
    solution_iff_reachable(pos_total(entries) as int, entries);
    solution_iff_reachable(-neg_total(entries), entries);
}

/// Whether every entry is above 0.
pub open spec fn all_positive(entries: Seq<i64>) -> bool {
    forall|k: int| 0 <= k < entries.len() ==> #[trigger] entries[k] > 0
}

/// Whether every entry is below 0.
pub open spec fn all_negative(entries: Seq<i64>) -> bool {
    forall|k: int| 0 <= k < entries.len() ==> #[trigger] entries[k] < 0
}

/// From the total of the first `i + 1` entries, all of one sign, the backward walk
/// collects every one of them, the latest first.
proof fn lemma_backtrack_takes_all(entries: Seq<i64>, i: int)
    requires
        0 <= i < entries.len(),
        all_positive(entries) || all_negative(entries),
    ensures
        all_positive(entries) ==> backtrack(entries, i, pos_total(entries.take(i + 1)) as int)
            == entries.take(i + 1).reverse(),
        all_negative(entries) ==> backtrack(entries, i, -neg_total(entries.take(i + 1)))
            == entries.take(i + 1).reverse(),
    decreases i,
{
    let upto = entries.take(i);
    let with = entries.take(i + 1);
    assert(with.drop_last() =~= upto);
    assert(entries[i] != 0);
    let sum = if all_positive(entries) {
        pos_total(with) as int
    } else {
        -neg_total(with)
    };
    let rest = sum - entries[i];
    if i == 0 {
        assert(backtrack(entries, i, sum) =~= with.reverse());
    } else {
        if reachable(upto, sum) {
            lemma_reachable_bounds(upto, sum);
        }
        assert(upto.take(1).drop_last() =~= Seq::<i64>::empty());
        assert(upto.take(1).last() == entries[0]);
        lemma_totals_of_prefix(upto, 1);
        assert(rest != 0);
        lemma_backtrack_takes_all(entries, i - 1);
        assert(seq![entries[i]] + upto.reverse() =~= with.reverse());
    }
}

/// Among entries that are all above 0, the search for their total takes every entry; so it
/// does among entries that are all below 0. The entries come latest first.
pub proof fn solution_takes_all_of_one_sign(entries: Seq<i64>)
    requires
        entries.len() > 0,
    ensures
        all_positive(entries) ==> solution(pos_total(entries) as int, entries) == Some(
            entries.reverse(),
        ),
        all_negative(entries) ==> solution(-neg_total(entries), entries) == Some(
            entries.reverse(),
        ),
{
    lemma_totals_reached(entries);
    assert(entries.take(entries.len() as int) =~= entries);
    if all_positive(entries) || all_negative(entries) {
        lemma_backtrack_takes_all(entries, entries.len() - 1);
    }
}

/// The search finds a sub-multiset exactly when one exists.
pub proof fn solution_iff_reachable(target: int, entries: Seq<i64>)
    ensures
        solution(target, entries).is_some() <==> reachable(entries, target),
{
    if entries.len() == 0 {
        assert(entries =~= Seq::<i64>::empty());
        lemma_reachable_empty(target);
    }
}

/// What the search returns holds no entry more often than the entries do.
pub proof fn solution_within_entries(target: int, entries: Seq<i64>)
    ensures
        solution(target, entries) matches Some(subset) ==> subset.to_multiset().subset_of(
            entries.to_multiset(),
        ),
{
    broadcast use vstd::multiset::group_multiset_axioms;

    if entries.len() == 0 {
        let none = Seq::<i64>::empty();
        vstd::seq_lib::to_multiset_len(none);
        vstd::multiset::lemma_multiset_empty_len(none.to_multiset());
    } else {
        lemma_backtrack_within(entries, entries.len() - 1, target);
        assert(entries.take(entries.len() as int) =~= entries);
    }
}

/// What the search returns adds up to the target.
pub proof fn solution_sums_to_target(target: int, entries: Seq<i64>)
    ensures
        solution(target, entries) matches Some(subset) ==> seq_sum(subset) == target,
{
    if entries.len() > 0 && reachable(entries, target) {
        let last = entries.len() - 1;
        assert(entries.take(last + 1) =~= entries);
        lemma_backtrack_sum(entries, last, target);
    }
}

/// For the target 0 the search returns the empty selection, whatever the entries are.
pub proof fn solution_for_zero_is_empty(entries: Seq<i64>)
    ensures
        solution(0, entries) == Some(Seq::<i64>::empty()),
{
    lemma_reachable_zero(entries);
}

} // verus!
