//! What holds of every settlement: the number of transfers, and that balances
//! which sum to zero are cleared exactly.

use vstd::prelude::*;
use crate::number::{
    lemma_minus, lemma_order, lemma_plus, lemma_sign, lemma_times, max_places, Number,
};
use crate::settlement::{
    after_transfer, everyone, insert_position, lemma_insert_position_in_range,
    lemma_sort_descending_len, lemma_transfer_clears_one, only, settle, sort_descending, sum_where,
    sweep, total, transfer_amount, AmountView, GroupMemberView, SettlementView,
};

verus! {

/// What one transfer brings `who`: the amount when `who` receives it, minus
/// the amount when `who` sends it.
pub open spec fn gain(transfer: SettlementView, who: GroupMemberView) -> Number {
    let received = if transfer.member_to == who {
        transfer.amount
    } else {
        Number::zero()
    };
    let sent = if transfer.member_from == who {
        transfer.amount
    } else {
        Number::zero()
    };
    received.minus(sent)
}

/// What all the transfers together bring `who`.
pub open spec fn received(transfers: Seq<SettlementView>, who: GroupMemberView) -> Number
    decreases transfers.len(),
{
    if transfers.len() == 0 {
        Number::zero()
    } else {
        gain(transfers[0], who).plus(received(transfers.drop_first(), who))
    }
}

/// What `who` is still owed once the transfers are made: the balances of
/// `who`, minus what the transfers bring.
pub open spec fn outstanding(
    balances: Seq<AmountView>,
    transfers: Seq<SettlementView>,
    who: GroupMemberView,
) -> Number {
    sum_where(balances, only(who)).minus(received(transfers, who))
}

/// No amount in the list has more than `k` decimal places.
pub open spec fn places_within(entries: Seq<AmountView>, k: nat) -> bool {
    forall|x: int| 0 <= x < entries.len() ==> (#[trigger] entries[x]).amount.places <= k
}

/// The largest number of decimal places in the list.
pub open spec fn most_places(entries: Seq<AmountView>) -> nat
    decreases entries.len(),
{
    if entries.len() == 0 {
        0
    } else {
        max_places(most_places(entries.drop_last()), entries.last().amount.places)
    }
}

/// No amount has more places than [`most_places`] says.
proof fn lemma_most_places(entries: Seq<AmountView>)
    ensures
        places_within(entries, most_places(entries)),
    decreases entries.len(),
{
    if entries.len() > 0 {
        lemma_most_places(entries.drop_last());
        assert forall|x: int| 0 <= x < entries.len() implies (#[trigger] entries[x]).amount.places
            <= most_places(entries) by {
            if x < entries.len() - 1 {
                assert(entries[x] == entries.drop_last()[x]);
            }
        }
    }
}

/// One entry counted in units of `10^-k`, or nothing when it is not picked.
spec fn term(entry: AmountView, pick: spec_fn(GroupMemberView) -> bool, k: nat) -> int {
    if pick(entry.member) {
        entry.amount.units(k)
    } else {
        0
    }
}

/// [`sum_where`], counted in units of `10^-k`.
spec fn units_where(entries: Seq<AmountView>, pick: spec_fn(GroupMemberView) -> bool, k: nat) -> int
    decreases entries.len(),
{
    if entries.len() == 0 {
        0
    } else {
        units_where(entries.drop_last(), pick, k) + term(entries.last(), pick, k)
    }
}

/// The sum of the picked amounts, counted in units of `10^-k`, is the sum of
/// their counts.
proof fn lemma_sum_where_units(
    entries: Seq<AmountView>,
    pick: spec_fn(GroupMemberView) -> bool,
    k: nat,
)
    requires
        places_within(entries, k),
    ensures
        sum_where(entries, pick).places <= k,
        sum_where(entries, pick).units(k) == units_where(entries, pick, k),
    decreases entries.len(),
{
    if entries.len() == 0 {
        lemma_sign(Number::zero(), k);
    } else {
        let rest = entries.drop_last();
        assert forall|x: int| 0 <= x < rest.len() implies (#[trigger] rest[x]).amount.places
            <= k by {
            assert(rest[x] == entries[x]);
        }
        lemma_sum_where_units(rest, pick, k);
        assert(entries.last() == entries[entries.len() - 1]);
        if pick(entries.last().member) {
            lemma_plus(sum_where(rest, pick), entries.last().amount, k);
        }
    }
}

/// One more entry at the end adds its own count.
proof fn lemma_units_where_push(
    entries: Seq<AmountView>,
    entry: AmountView,
    pick: spec_fn(GroupMemberView) -> bool,
    k: nat,
)
    ensures
        units_where(entries.push(entry), pick, k) == units_where(entries, pick, k) + term(
            entry,
            pick,
            k,
        ),
{
    assert(entries.push(entry).drop_last() =~= entries);
}

/// The count of two lists joined is the sum of their counts.
proof fn lemma_units_where_concat(
    front: Seq<AmountView>,
    back: Seq<AmountView>,
    pick: spec_fn(GroupMemberView) -> bool,
    k: nat,
)
    ensures
        units_where(front + back, pick, k) == units_where(front, pick, k) + units_where(
            back,
            pick,
            k,
        ),
    decreases back.len(),
{
    if back.len() == 0 {
        assert(front + back =~= front);
    } else {
        assert((front + back).drop_last() =~= front + back.drop_last());
        lemma_units_where_concat(front, back.drop_last(), pick, k);
    }
}

/// One more entry anywhere adds its own count.
proof fn lemma_units_where_insert(
    entries: Seq<AmountView>,
    p: int,
    entry: AmountView,
    pick: spec_fn(GroupMemberView) -> bool,
    k: nat,
)
    requires
        0 <= p <= entries.len(),
    ensures
        units_where(entries.insert(p, entry), pick, k) == units_where(entries, pick, k) + term(
            entry,
            pick,
            k,
        ),
{
    let front = entries.take(p);
    let back = entries.skip(p);
    assert(entries =~= front + back);
    assert(entries.insert(p, entry) =~= front.push(entry) + back);
    lemma_units_where_concat(front, back, pick, k);
    lemma_units_where_concat(front.push(entry), back, pick, k);
    lemma_units_where_push(front, entry, pick, k);
}

/// An entry put in the place of another changes the count by the difference
/// of the two.
proof fn lemma_units_where_update(
    entries: Seq<AmountView>,
    x: int,
    entry: AmountView,
    pick: spec_fn(GroupMemberView) -> bool,
    k: nat,
)
    requires
        0 <= x < entries.len(),
    ensures
        units_where(entries.update(x, entry), pick, k) == units_where(entries, pick, k) - term(
            entries[x],
            pick,
            k,
        ) + term(entry, pick, k),
{
    let front = entries.take(x);
    let back = entries.skip(x + 1);
    assert(entries =~= front.push(entries[x]) + back);
    assert(entries.update(x, entry) =~= front.push(entry) + back);
    lemma_units_where_concat(front.push(entries[x]), back, pick, k);
    lemma_units_where_concat(front.push(entry), back, pick, k);
    lemma_units_where_push(front, entries[x], pick, k);
    lemma_units_where_push(front, entry, pick, k);
}

/// Amounts of zero count for nothing.
proof fn lemma_units_where_all_zero(
    entries: Seq<AmountView>,
    pick: spec_fn(GroupMemberView) -> bool,
    k: nat,
)
    requires
        places_within(entries, k),
        forall|x: int| 0 <= x < entries.len() ==> (#[trigger] entries[x]).amount.is_zero(),
    ensures
        units_where(entries, pick, k) == 0,
    decreases entries.len(),
{
    if entries.len() > 0 {
        let rest = entries.drop_last();
        assert forall|x: int| 0 <= x < rest.len() implies (#[trigger] rest[x]).amount.places <= k
            && rest[x].amount.is_zero() by {
            assert(rest[x] == entries[x]);
        }
        lemma_units_where_all_zero(rest, pick, k);
        assert(entries.last() == entries[entries.len() - 1]);
        lemma_sign(entries.last().amount, k);
    }
}

/// Sorting keeps every sum and adds no decimal places.
proof fn lemma_sort_keeps_sums(
    entries: Seq<AmountView>,
    pick: spec_fn(GroupMemberView) -> bool,
    k: nat,
)
    requires
        places_within(entries, k),
    ensures
        places_within(sort_descending(entries), k),
        units_where(sort_descending(entries), pick, k) == units_where(entries, pick, k),
    decreases entries.len(),
{
    if entries.len() > 0 {
        let rest = entries.drop_last();
        let sorted = sort_descending(rest);
        let p = insert_position(sorted, entries.last().amount);
        assert forall|x: int| 0 <= x < rest.len() implies (#[trigger] rest[x]).amount.places
            <= k by {
            assert(rest[x] == entries[x]);
        }
        lemma_sort_keeps_sums(rest, pick, k);
        lemma_insert_position_in_range(sorted, entries.last().amount);
        lemma_units_where_insert(sorted, p, entries.last(), pick, k);
        assert(entries.last() == entries[entries.len() - 1]);
        let after = sorted.insert(p, entries.last());
        assert forall|x: int| 0 <= x < after.len() implies (#[trigger] after[x]).amount.places
            <= k by {
            if x < p {
                assert(after[x] == sorted[x]);
            } else if x > p {
                assert(after[x] == sorted[x - 1]);
            }
        }
    }
}

/// No amount is smaller than an amount behind it.
pub open spec fn is_descending(entries: Seq<AmountView>) -> bool {
    forall|a: int, b: int|
        0 <= a < b < entries.len() ==> !(#[trigger] entries[a]).amount.lt(
            (#[trigger] entries[b]).amount,
        )
}

/// What [`insert_position`] names: no entry before it is smaller than
/// `amount`, and the entry at it is.
pub proof fn lemma_insert_position_splits(sorted: Seq<AmountView>, amount: Number)
    ensures
        0 <= insert_position(sorted, amount) <= sorted.len(),
        forall|q: int|
            0 <= q < insert_position(sorted, amount) ==> !(#[trigger] sorted[q]).amount.lt(amount),
        insert_position(sorted, amount) < sorted.len() ==> sorted[insert_position(
            sorted,
            amount,
        )].amount.lt(amount),
    decreases sorted.len(),
{
    if !(sorted.len() == 0 || sorted[0].amount.lt(amount)) {
        let rest = sorted.drop_first();
        lemma_insert_position_splits(rest, amount);
        let p = insert_position(rest, amount);
        assert forall|q: int| 0 <= q < p + 1 implies !(#[trigger] sorted[q]).amount.lt(amount) by {
            if q > 0 {
                assert(sorted[q] == rest[q - 1]);
            }
        }
        if p < rest.len() {
            assert(sorted[p + 1] == rest[p]);
        }
    }
}

/// What is not larger than something smaller than `z` is smaller than `z`.
proof fn lemma_lt_chain(x: Number, y: Number, z: Number)
    requires
        !y.lt(x),
        y.lt(z),
    ensures
        x.lt(z),
        !z.lt(x),
{
    let k = max_places(max_places(x.places, y.places), z.places);
    lemma_order(y, x, k);
    lemma_order(y, z, k);
    lemma_order(x, z, k);
    lemma_order(z, x, k);
}

/// Sorting puts the amounts in descending order, and keeps every entry as
/// often as it occurs.
pub proof fn lemma_sort_descending(entries: Seq<AmountView>)
    ensures
        sort_descending(entries).len() == entries.len(),
        is_descending(sort_descending(entries)),
        sort_descending(entries).to_multiset() == entries.to_multiset(),
    decreases entries.len(),
{
    broadcast use vstd::seq_lib::group_to_multiset_ensures;

    if entries.len() > 0 {
        let sorted = sort_descending(entries.drop_last());
        let item = entries.last();
        let p = insert_position(sorted, item.amount);
        lemma_sort_descending(entries.drop_last());
        lemma_insert_position_splits(sorted, item.amount);
        let after = sorted.insert(p, item);
        assert forall|a: int, b: int| 0 <= a < b < after.len() implies !(
        #[trigger] after[a]).amount.lt((#[trigger] after[b]).amount) by {
            if b < p {
                assert(after[a] == sorted[a] && after[b] == sorted[b]);
            } else if b == p {
                assert(after[a] == sorted[a]);
            } else if a < p {
                assert(after[a] == sorted[a] && after[b] == sorted[b - 1]);
            } else if a == p {
                assert(after[b] == sorted[b - 1]);
                if b - 1 > p {
                    assert(!sorted[p].amount.lt(sorted[b - 1].amount));
                    lemma_lt_chain(sorted[b - 1].amount, sorted[p].amount, item.amount);
                } else {
                    lemma_lt_chain(sorted[p].amount, sorted[p].amount, item.amount);
                }
            } else {
                assert(after[a] == sorted[a - 1] && after[b] == sorted[b - 1]);
            }
        }
        assert(entries =~= entries.drop_last().push(item));
        assert(after.remove(p) =~= sorted);
        assert(after[p] == item);
        assert(after.to_multiset() =~= sorted.to_multiset().insert(item)) by {
            assert(sorted.to_multiset() == after.to_multiset().remove(item));
            assert(after.to_multiset().count(item) > 0) by {
                assert(after.contains(item));
            }
        }
    } else {
        assert(entries =~= Seq::<AmountView>::empty());
    }
}

/// The sweep makes at most one transfer for each step that the two pointers
/// are apart.
pub proof fn lemma_sweep_len(entries: Seq<AmountView>, i: int, j: int)
    requires
        i <= j + 1,
    ensures
        sweep(entries, i, j).len() <= j + 1 - i,
        i >= j ==> sweep(entries, i, j).len() == 0,
        0 <= i < j < entries.len() ==> sweep(entries, i, j).len() <= j - i,
    decreases j + 1 - i,
{
    if 0 <= i < j < entries.len() {
        let paid = transfer_amount(entries[i].amount, entries[j].amount);
        let next = after_transfer(entries, i, j);
        let next_i = if next[i].amount.is_zero() {
            i + 1
        } else {
            i
        };
        let next_j = if next[j].amount.is_zero() {
            j - 1
        } else {
            j
        };
        lemma_transfer_clears_one(entries[i].amount, entries[j].amount);
        assert(next[i].amount == entries[i].amount.minus(paid));
        assert(next[j].amount == entries[j].amount.plus(paid));
        lemma_sweep_len(next, next_i, next_j);
    }
}

/// A settlement of `n > 0` balances makes at most `n - 1` transfers, and none
/// where there is no balance.
pub proof fn lemma_settle_len(balances: Seq<AmountView>)
    ensures
        balances.len() == 0 ==> settle(balances).len() == 0,
        balances.len() > 0 ==> settle(balances).len() <= balances.len() - 1,
{
    lemma_sort_descending_len(balances);
    lemma_sweep_len(sort_descending(balances), 0, balances.len() - 1);
}

/// [`received`], counted in units of `10^-k`.
spec fn units_received(transfers: Seq<SettlementView>, who: GroupMemberView, k: nat) -> int
    decreases transfers.len(),
{
    if transfers.len() == 0 {
        0
    } else {
        (if transfers[0].member_to == who {
            transfers[0].amount.units(k)
        } else {
            0
        }) - (if transfers[0].member_from == who {
            transfers[0].amount.units(k)
        } else {
            0
        }) + units_received(transfers.drop_first(), who, k)
    }
}

/// What a transfer brings a member, counted in units of `10^-k`.
proof fn lemma_gain_units(transfer: SettlementView, who: GroupMemberView, k: nat)
    requires
        transfer.amount.places <= k,
    ensures
        gain(transfer, who).places <= k,
        gain(transfer, who).units(k) == (if transfer.member_to == who {
            transfer.amount.units(k)
        } else {
            0
        }) - (if transfer.member_from == who {
            transfer.amount.units(k)
        } else {
            0
        }),
{
    let zero = Number::zero();
    lemma_sign(zero, k);
    let got = if transfer.member_to == who {
        transfer.amount
    } else {
        zero
    };
    let sent = if transfer.member_from == who {
        transfer.amount
    } else {
        zero
    };
    lemma_minus(got, sent, k);
}

/// While the balances outside of `i..=j` are zero and all of them sum to
/// zero, the transfers of the sweep bring each member exactly its balance.
proof fn lemma_sweep_settles(
    entries: Seq<AmountView>,
    i: int,
    j: int,
    who: GroupMemberView,
    k: nat,
)
    requires
        places_within(entries, k),
        0 <= i <= j + 1 <= entries.len(),
        forall|x: int|
            0 <= x < entries.len() && (x < i || j < x) ==> (#[trigger] entries[x]).amount.is_zero(),
        units_where(entries, everyone(), k) == 0,
    ensures
        received(sweep(entries, i, j), who).places <= k,
        received(sweep(entries, i, j), who).units(k) == units_where(entries, only(who), k),
    decreases j + 1 - i,
{
    if 0 <= i < j < entries.len() {
        let top = entries[i].amount;
        let bottom = entries[j].amount;
        let owed = bottom.times(-1);
        let paid = transfer_amount(top, bottom);
        let next = after_transfer(entries, i, j);
        let next_i = if next[i].amount.is_zero() {
            i + 1
        } else {
            i
        };
        let next_j = if next[j].amount.is_zero() {
            j - 1
        } else {
            j
        };
        let first = SettlementView {
            member_from: entries[j].member,
            member_to: entries[i].member,
            amount: paid,
        };
        let later = sweep(next, next_i, next_j);
        assert(sweep(entries, i, j) == seq![first] + later);
        lemma_transfer_clears_one(top, bottom);
        lemma_times(bottom, -1, k);
        lemma_order(top, owed, k);
        assert(paid.places <= k);
        lemma_plus(bottom, paid, k);
        lemma_minus(top, paid, k);
        let lowered = AmountView { member: entries[j].member, amount: bottom.plus(paid) };
        let raised = AmountView { member: entries[i].member, amount: top.minus(paid) };
        let middle = entries.update(j, lowered);
        assert(next == middle.update(i, raised));
        assert(middle[i] == entries[i]);
        assert(next[i] == raised);
        assert(next[j] == lowered);
        assert forall|x: int| 0 <= x < next.len() implies (#[trigger] next[x]).amount.places
            <= k by {
            if x != i && x != j {
                assert(next[x] == entries[x]);
            }
        }
        assert forall|x: int| 0 <= x < next.len() && (x < next_i || next_j < x) implies (
        #[trigger] next[x]).amount.is_zero() by {
            if x != i && x != j {
                assert(next[x] == entries[x]);
            }
        }
        lemma_units_where_update(entries, j, lowered, everyone(), k);
        lemma_units_where_update(middle, i, raised, everyone(), k);
        lemma_units_where_update(entries, j, lowered, only(who), k);
        lemma_units_where_update(middle, i, raised, only(who), k);
        lemma_sweep_settles(next, next_i, next_j, who, k);
        lemma_gain_units(first, who, k);
        assert((seq![first] + later).drop_first() =~= later);
        assert((seq![first] + later)[0] == first);
        lemma_plus(gain(first, who), received(later, who), k);
    } else {
        lemma_sign(Number::zero(), k);
        assert(sweep(entries, i, j) =~= Seq::empty());
        if i <= j {
            // The pointers have met: all but one balance is zero, and so is the sum.
            let cleared = AmountView { member: entries[i].member, amount: Number::zero() };
            let rest = entries.update(i, cleared);
            assert forall|x: int| 0 <= x < rest.len() implies (#[trigger] rest[x]).amount.places
                <= k && rest[x].amount.is_zero() by {
                if x != i {
                    assert(rest[x] == entries[x]);
                }
            }
            lemma_units_where_all_zero(rest, everyone(), k);
            lemma_units_where_all_zero(rest, only(who), k);
            lemma_units_where_update(entries, i, cleared, everyone(), k);
            lemma_units_where_update(entries, i, cleared, only(who), k);
        } else {
            lemma_units_where_all_zero(entries, only(who), k);
        }
    }
}

/// `v` where `up` holds, its negative where not.
spec fn turned(v: int, up: bool) -> int {
    if up {
        v
    } else {
        -v
    }
}

/// Amounts that all lie on one side of zero sum up to that side of zero;
/// and strictly so where the amount at `y` lies strictly on that side.
proof fn lemma_one_sided_sum(entries: Seq<AmountView>, k: nat, up: bool, y: int)
    requires
        forall|x: int|
            0 <= x < entries.len() ==> turned((#[trigger] entries[x]).amount.units(k), up) <= 0,
    ensures
        turned(units_where(entries, everyone(), k), up) <= 0,
        0 <= y < entries.len() && turned(entries[y].amount.units(k), up) < 0 ==> turned(
            units_where(entries, everyone(), k),
            up,
        ) < 0,
    decreases entries.len(),
{
    if entries.len() > 0 {
        let rest = entries.drop_last();
        assert forall|x: int| 0 <= x < rest.len() implies turned(
            (#[trigger] rest[x]).amount.units(k),
            up,
        ) <= 0 by {
            assert(rest[x] == entries[x]);
        }
        lemma_one_sided_sum(rest, k, up, y);
        assert(entries.last() == entries[entries.len() - 1]);
        if 0 <= y < rest.len() {
            assert(rest[y] == entries[y]);
        }
    }
}

/// While the balances are as the sweep leaves them on its way over balances
/// that were sorted and sum to zero, no transfer is negative: the creditor at
/// the front is owed something, the debtor at the back owes something.
proof fn lemma_sweep_not_negative(
    entries: Seq<AmountView>,
    sorted: Seq<AmountView>,
    i: int,
    j: int,
    k: nat,
)
    requires
        places_within(entries, k),
        places_within(sorted, k),
        entries.len() == sorted.len(),
        0 <= i <= j + 1 <= entries.len(),
        is_descending(sorted),
        forall|x: int| i < x < j ==> (#[trigger] entries[x]).amount == sorted[x].amount,
        forall|x: int|
            0 <= x < entries.len() && (x < i || j < x) ==> (#[trigger] entries[x]).amount.is_zero(),
        units_where(entries, everyone(), k) == 0,
        i < j ==> entries[i].amount == sorted[i].amount || entries[i].amount.units(k) >= 0,
        i < j ==> entries[j].amount == sorted[j].amount || entries[j].amount.units(k) <= 0,
    ensures
        forall|t: int|
            0 <= t < sweep(entries, i, j).len() ==> !(#[trigger] sweep(
                entries,
                i,
                j,
            )[t]).amount.is_negative(),
    decreases j + 1 - i,
{
    if 0 <= i < j < entries.len() {
        let top = entries[i].amount;
        let bottom = entries[j].amount;
        let owed = bottom.times(-1);
        let paid = transfer_amount(top, bottom);
        let next = after_transfer(entries, i, j);
        let next_i = if next[i].amount.is_zero() {
            i + 1
        } else {
            i
        };
        let next_j = if next[j].amount.is_zero() {
            j - 1
        } else {
            j
        };
        let first = SettlementView {
            member_from: entries[j].member,
            member_to: entries[i].member,
            amount: paid,
        };
        let later = sweep(next, next_i, next_j);
        assert(sweep(entries, i, j) == seq![first] + later);
        // Within i..=j every balance is at most the one at i and at least the one at j.
        assert forall|x: int| 0 <= x < entries.len() implies (entries[i].amount == sorted[i].amount
            ==> (#[trigger] entries[x]).amount.units(k) <= max_int(0, top.units(k))) && (
        entries[j].amount == sorted[j].amount ==> entries[x].amount.units(k) >= min_int(
            0,
            bottom.units(k),
        )) by {
            lemma_sign(entries[x].amount, k);
            if i < x < j {
                lemma_order(sorted[i].amount, sorted[x].amount, k);
                lemma_order(sorted[x].amount, sorted[j].amount, k);
            } else if x == j {
                lemma_order(sorted[i].amount, sorted[j].amount, k);
            } else if x == i {
                lemma_order(sorted[i].amount, sorted[j].amount, k);
            }
        }
        if top.units(k) < 0 {
            lemma_one_sided_sum(entries, k, true, i);
        }
        if bottom.units(k) > 0 {
            lemma_one_sided_sum(entries, k, false, j);
        }
        assert(top.units(k) >= 0 && bottom.units(k) <= 0);
        lemma_transfer_clears_one(top, bottom);
        lemma_times(bottom, -1, k);
        lemma_order(top, owed, k);
        lemma_sign(paid, k);
        lemma_plus(bottom, paid, k);
        lemma_minus(top, paid, k);
        let lowered = AmountView { member: entries[j].member, amount: bottom.plus(paid) };
        let raised = AmountView { member: entries[i].member, amount: top.minus(paid) };
        let middle = entries.update(j, lowered);
        assert(next == middle.update(i, raised));
        assert(middle[i] == entries[i]);
        assert(next[i] == raised);
        assert(next[j] == lowered);
        assert forall|x: int| 0 <= x < next.len() implies (#[trigger] next[x]).amount.places
            <= k by {
            if x != i && x != j {
                assert(next[x] == entries[x]);
            }
        }
        assert forall|x: int| 0 <= x < next.len() && (x < next_i || next_j < x) implies (
        #[trigger] next[x]).amount.is_zero() by {
            if x != i && x != j {
                assert(next[x] == entries[x]);
            }
        }
        assert forall|x: int| next_i < x < next_j implies (#[trigger] next[x]).amount
            == sorted[x].amount by {
            assert(next[x] == entries[x]);
        }
        if next_i < next_j {
            if next_i != i {
                assert(next[next_i] == entries[next_i]);
            }
            if next_j != j {
                assert(next[next_j] == entries[next_j]);
            }
        }
        lemma_units_where_update(entries, j, lowered, everyone(), k);
        lemma_units_where_update(middle, i, raised, everyone(), k);
        lemma_sweep_not_negative(next, sorted, next_i, next_j, k);
        assert forall|t: int| 0 <= t < sweep(entries, i, j).len() implies !(#[trigger] sweep(
            entries,
            i,
            j,
        )[t]).amount.is_negative() by {
            if t > 0 {
                assert(sweep(entries, i, j)[t] == later[t - 1]);
            }
        }
    }
}

/// The larger of two integers.
spec fn max_int(a: int, b: int) -> int {
    if a >= b {
        a
    } else {
        b
    }
}

/// The smaller of two integers.
spec fn min_int(a: int, b: int) -> int {
    if a <= b {
        a
    } else {
        b
    }
}

/// Balances that sum to zero are settled by transfers that are not negative:
/// money only ever goes from one who owes to one who is owed.
pub proof fn lemma_settle_not_negative(balances: Seq<AmountView>)
    requires
        total(balances).is_zero(),
    ensures
        forall|t: int|
            0 <= t < settle(balances).len() ==> !(#[trigger] settle(
                balances,
            )[t]).amount.is_negative(),
{
    let k = most_places(balances);
    let sorted = sort_descending(balances);
    lemma_most_places(balances);
    lemma_sum_where_units(balances, everyone(), k);
    lemma_sign(total(balances), k);
    lemma_sort_keeps_sums(balances, everyone(), k);
    lemma_sort_descending(balances);
    if balances.len() > 0 {
        lemma_sweep_not_negative(sorted, sorted, 0, balances.len() - 1, k);
    }
}

/// Balances that sum to zero are cleared by their settlement: for every
/// member, what the transfers bring is exactly what the member was owed, so
/// nothing is outstanding.
pub proof fn lemma_settle_clears_balances(balances: Seq<AmountView>, who: GroupMemberView)
    requires
        total(balances).is_zero(),
    ensures
        outstanding(balances, settle(balances), who).is_zero(),
{
    let k = most_places(balances);
    let sorted = sort_descending(balances);
    lemma_most_places(balances);
    lemma_sum_where_units(balances, everyone(), k);
    lemma_sum_where_units(balances, only(who), k);
    lemma_sign(total(balances), k);
    lemma_sort_keeps_sums(balances, everyone(), k);
    lemma_sort_keeps_sums(balances, only(who), k);
    lemma_sort_descending_len(balances);
    if balances.len() == 0 {
        assert(settle(balances) =~= Seq::empty());
        lemma_sign(Number::zero(), k);
    } else {
        lemma_sweep_settles(sorted, 0, balances.len() - 1, who, k);
    }
    lemma_minus(sum_where(balances, only(who)), received(settle(balances), who), k);
    lemma_sign(outstanding(balances, settle(balances), who), k);
}

} // verus!
