//! Balances per member, and the transfers that settle them.

use vstd::prelude::*;
use crate::decimal::Decimal;
use crate::number::{
    lemma_minus, lemma_order, lemma_plus, lemma_plus_zero, lemma_sign, lemma_times, max_places,
    Number,
};
use crate::settlement_laws::{
    is_descending, lemma_settle_clears_balances, lemma_settle_len, lemma_settle_not_negative,
    lemma_sort_descending, outstanding,
};

verus! {

/// A member as the settlement sees it: who it is and how it is called.
#[derive(Debug)]
pub struct GroupMember {
    pub uuid: String,
    pub nickname: String,
}

/// A member, by its values.
pub struct GroupMemberView {
    pub uuid: Seq<char>,
    pub nickname: Seq<char>,
}

impl View for GroupMember {
    type V = GroupMemberView;

    open spec fn view(&self) -> GroupMemberView {
        GroupMemberView { uuid: self.uuid@, nickname: self.nickname@ }
    }
}

impl Clone for GroupMember {
    fn clone(&self) -> (r: GroupMember)
        ensures
            r == *self,
    {
        GroupMember { uuid: self.uuid.clone(), nickname: self.nickname.clone() }
    }
}

/// A signed amount of one member: positive when the member is owed money,
/// negative when the member owes.
#[derive(Debug)]
pub struct Amount {
    pub member: GroupMember,
    pub amount: Decimal,
}

/// A signed amount of one member, by its values.
pub struct AmountView {
    pub member: GroupMemberView,
    pub amount: Number,
}

impl View for Amount {
    type V = AmountView;

    open spec fn view(&self) -> AmountView {
        AmountView { member: self.member@, amount: self.amount@ }
    }
}

impl Clone for Amount {
    fn clone(&self) -> (r: Amount)
        ensures
            r == *self,
    {
        Amount { member: self.member.clone(), amount: self.amount.clone() }
    }
}

/// A transfer of `amount` from one member to another.
#[derive(Debug)]
pub struct Settlement {
    pub member_from: GroupMember,
    pub member_to: GroupMember,
    pub amount: Decimal,
}

/// A transfer, by its values.
pub struct SettlementView {
    pub member_from: GroupMemberView,
    pub member_to: GroupMemberView,
    pub amount: Number,
}

impl View for Settlement {
    type V = SettlementView;

    open spec fn view(&self) -> SettlementView {
        SettlementView {
            member_from: self.member_from@,
            member_to: self.member_to@,
            amount: self.amount@,
        }
    }
}

/// The views of a list of amounts, in order.
pub open spec fn amount_views(items: Seq<Amount>) -> Seq<AmountView> {
    Seq::new(items.len(), |i: int| items[i]@)
}

/// The views of a list of settlements, in order.
pub open spec fn settlement_views(items: Seq<Settlement>) -> Seq<SettlementView> {
    Seq::new(items.len(), |i: int| items[i]@)
}

/// Picks every member.
pub open spec fn everyone() -> spec_fn(GroupMemberView) -> bool {
    |m: GroupMemberView| true
}

/// Picks the one member `who`.
pub open spec fn only(who: GroupMemberView) -> spec_fn(GroupMemberView) -> bool {
    |m: GroupMemberView| m == who
}

/// The sum of the amounts of the picked members, added up in order.
pub open spec fn sum_where(
    entries: Seq<AmountView>,
    pick: spec_fn(GroupMemberView) -> bool,
) -> Number
    decreases entries.len(),
{
    if entries.len() == 0 {
        Number::zero()
    } else if pick(entries.last().member) {
        sum_where(entries.drop_last(), pick).plus(entries.last().amount)
    } else {
        sum_where(entries.drop_last(), pick)
    }
}

/// The sum of all amounts.
pub open spec fn total(entries: Seq<AmountView>) -> Number {
    sum_where(entries, everyone())
}

/// Picks the members called `nickname`.
pub open spec fn called(nickname: Seq<char>) -> spec_fn(GroupMemberView) -> bool {
    |m: GroupMemberView| m.nickname == nickname
}

/// Whether some entry belongs to a member called `nickname`.
pub open spec fn has_nickname(entries: Seq<AmountView>, nickname: Seq<char>) -> bool {
    exists|x: int| 0 <= x < entries.len() && (#[trigger] entries[x]).member.nickname == nickname
}

/// The position of the first entry of a member called `nickname`; the length
/// of the list where there is none.
pub open spec fn first_called(entries: Seq<AmountView>, nickname: Seq<char>) -> int
    decreases entries.len(),
{
    if entries.len() == 0 || entries[0].member.nickname == nickname {
        0
    } else {
        1 + first_called(entries.drop_first(), nickname)
    }
}

/// `entry` is the balance of its nickname over `entries`: it carries the
/// member of the first entry with that nickname, and the sum of all the
/// amounts under that nickname.
pub open spec fn is_balance_of(entry: AmountView, entries: Seq<AmountView>) -> bool {
    let nickname = entry.member.nickname;
    &&& has_nickname(entries, nickname)
    &&& entry.member == entries[first_called(entries, nickname)].member
    &&& entry.amount == sum_where(entries, called(nickname))
}

/// `balances` are the balances of `entries`: one for each nickname that occurs.
pub open spec fn are_balances_of(balances: Seq<AmountView>, entries: Seq<AmountView>) -> bool {
    &&& forall|a: int, b: int|
        0 <= a < b < balances.len() ==> (#[trigger] balances[a]).member.nickname != (
        #[trigger] balances[b]).member.nickname
    &&& forall|x: int| 0 <= x < balances.len() ==> is_balance_of(#[trigger] balances[x], entries)
    &&& forall|i: int|
        0 <= i < entries.len() ==> exists|x: int|
            0 <= x < balances.len() && (#[trigger] balances[x]).member.nickname == (
            #[trigger] entries[i]).member.nickname
}

/// Where a new amount goes in a list sorted from largest to smallest: before
/// the first entry that is strictly smaller, so behind every entry that is
/// as large.
pub open spec fn insert_position(sorted: Seq<AmountView>, amount: Number) -> int
    decreases sorted.len(),
{
    if sorted.len() == 0 || sorted[0].amount.lt(amount) {
        0
    } else {
        1 + insert_position(sorted.drop_first(), amount)
    }
}

/// The amounts sorted from largest to smallest. Entries with the same amount
/// keep the order in which they came.
pub open spec fn sort_descending(items: Seq<AmountView>) -> Seq<AmountView>
    decreases items.len(),
{
    if items.len() == 0 {
        Seq::empty()
    } else {
        let sorted = sort_descending(items.drop_last());
        sorted.insert(insert_position(sorted, items.last().amount), items.last())
    }
}

/// What the debtor at the back pays to the creditor at the front: the smaller
/// of what the one is owed and what the other owes.
pub open spec fn transfer_amount(top: Number, bottom: Number) -> Number {
    top.min(bottom.times(-1))
}

/// The balances after the debtor at `j` has paid the creditor at `i`.
pub open spec fn after_transfer(entries: Seq<AmountView>, i: int, j: int) -> Seq<AmountView> {
    let paid = transfer_amount(entries[i].amount, entries[j].amount);
    entries.update(
        j,
        AmountView { member: entries[j].member, amount: entries[j].amount.plus(paid) },
    ).update(i, AmountView { member: entries[i].member, amount: entries[i].amount.minus(paid) })
}

/// The transfers of the two-pointer sweep over `entries`, from the creditor at
/// `i` and the debtor at `j` inwards. A pointer moves on when its balance has
/// become zero.
pub open spec fn sweep(entries: Seq<AmountView>, i: int, j: int) -> Seq<SettlementView>
    decreases j + 1 - i,
{
    if 0 <= i < j < entries.len() {
        let paid = transfer_amount(entries[i].amount, entries[j].amount);
        let next = after_transfer(entries, i, j);
        let next_i = if next[i].amount.is_zero() {
            i + 1
        } else {
            i
        };
        let next_j = if next[j].amount.is_zero() {
            j - 1
        } else {
            j
        };
        proof {
            lemma_transfer_clears_one(entries[i].amount, entries[j].amount);
            assert(next[i].amount == entries[i].amount.minus(paid));
            assert(next[j].amount == entries[j].amount.plus(paid));
        }
        seq![
            SettlementView {
                member_from: entries[j].member,
                member_to: entries[i].member,
                amount: paid,
            },
        ] + sweep(next, next_i, next_j)
    } else {
        Seq::empty()
    }
}

/// The transfers that settle the given balances: sort them from largest to
/// smallest, then sweep from both ends.
pub open spec fn settle(balances: Seq<AmountView>) -> Seq<SettlementView> {
    sweep(sort_descending(balances), 0, balances.len() - 1)
}

/// One transfer brings the creditor or the debtor to zero.
pub proof fn lemma_transfer_clears_one(top: Number, bottom: Number)
    ensures
        top.minus(transfer_amount(top, bottom)).is_zero() || bottom.plus(
            transfer_amount(top, bottom),
        ).is_zero(),
{
    let k = max_places(top.places, bottom.places);
    let owed = bottom.times(-1);
    lemma_times(bottom, -1, k);
    lemma_order(top, owed, k);
    if top.le(owed) {
        lemma_minus(top, top, k);
        lemma_sign(top.minus(top), k);
    } else {
        lemma_plus(bottom, owed, k);
        lemma_sign(bottom.plus(owed), k);
    }
}

/// The position that [`insert_position`] names is the first one that holds a
/// strictly smaller amount.
proof fn lemma_insert_position(sorted: Seq<AmountView>, amount: Number, p: int)
    requires
        0 <= p <= sorted.len(),
        forall|q: int| 0 <= q < p ==> !(#[trigger] sorted[q]).amount.lt(amount),
        p < sorted.len() ==> sorted[p].amount.lt(amount),
    ensures
        insert_position(sorted, amount) == p,
    decreases sorted.len(),
{
    if sorted.len() == 0 || sorted[0].amount.lt(amount) {
        if p > 0 {
            assert(!sorted[0].amount.lt(amount));
        }
    } else {
        let rest = sorted.drop_first();
        assert forall|q: int| 0 <= q < p - 1 implies !(#[trigger] rest[q]).amount.lt(amount) by {
            assert(rest[q] == sorted[q + 1]);
        }
        lemma_insert_position(rest, amount, p - 1);
    }
}

/// Sorting neither adds nor drops an entry.
pub proof fn lemma_sort_descending_len(items: Seq<AmountView>)
    ensures
        sort_descending(items).len() == items.len(),
    decreases items.len(),
{
    if items.len() > 0 {
        lemma_sort_descending_len(items.drop_last());
        lemma_insert_position_in_range(sort_descending(items.drop_last()), items.last().amount);
    }
}

/// The position that [`insert_position`] names lies within the list or at its
/// end.
pub proof fn lemma_insert_position_in_range(sorted: Seq<AmountView>, amount: Number)
    ensures
        0 <= insert_position(sorted, amount) <= sorted.len(),
    decreases sorted.len(),
{
    if !(sorted.len() == 0 || sorted[0].amount.lt(amount)) {
        lemma_insert_position_in_range(sorted.drop_first(), amount);
    }
}

/// Sorts the amounts from largest to smallest, keeping the order of equal ones.
pub fn sort_amounts_descending(items: &Vec<Amount>) -> (r: Vec<Amount>)
    ensures
        amount_views(r@) == sort_descending(amount_views(items@)),
        r.len() == items.len(),
        is_descending(amount_views(r@)),
        amount_views(r@).to_multiset() == amount_views(items@).to_multiset(),
{
    let ghost all = amount_views(items@);
    proof {
        lemma_sort_descending(all);
    }
    let mut sorted: Vec<Amount> = Vec::new();
    let mut k: usize = 0;
    proof {
        assert(all.take(0) =~= Seq::<AmountView>::empty());
    }
    while k < items.len()
        invariant
            k <= items.len(),
            all == amount_views(items@),
            sorted.len() == k,
            amount_views(sorted@) == sort_descending(all.take(k as int)),
        decreases items.len() - k,
    {
        let ghost before = amount_views(sorted@);
        let item = items[k].clone();
        let mut p: usize = 0;
        while p < sorted.len() && !sorted[p].amount.lt(&item.amount)
            invariant
                p <= sorted.len(),
                amount_views(sorted@) == before,
                forall|q: int| 0 <= q < p ==> !(#[trigger] before[q]).amount.lt(item.amount@),
            decreases sorted.len() - p,
        {
            p = p + 1;
        }
        proof {
            lemma_insert_position(before, item.amount@, p as int);
            let prefix = all.take(k + 1);
            assert(prefix.drop_last() =~= all.take(k as int));
            assert(prefix.last() == all[k as int]);
        }
        sorted.insert(p, item);
        proof {
            assert(amount_views(sorted@) =~= before.insert(p as int, all[k as int]));
        }
        k = k + 1;
    }
    proof {
        assert(all.take(k as int) =~= all);
    }
    sorted
}

/// The transfers that settle the given balances.
///
/// The balances are sorted from largest to smallest. Then the largest
/// creditor is paid by the largest debtor, as much as the smaller of the two
/// balances allows, and whoever is settled by that steps aside; this repeats
/// until creditor and debtor meet.
pub fn compute_settlements(transactions: Vec<Amount>) -> (r: Vec<Settlement>)
    ensures
        settlement_views(r@) == settle(amount_views(transactions@)),
        transactions.len() == 0 ==> r.len() == 0,
        transactions.len() > 0 ==> r.len() <= transactions.len() - 1,
        total(amount_views(transactions@)).is_zero() ==> forall|who: GroupMemberView|
            #[trigger] outstanding(
                amount_views(transactions@),
                settlement_views(r@),
                who,
            ).is_zero(),
        total(amount_views(transactions@)).is_zero() ==> forall|t: int|
            0 <= t < r.len() ==> !(#[trigger] r[t]).amount@.is_negative(),
{
    let ghost input = amount_views(transactions@);
    proof {
        lemma_settle_len(input);
        if total(input).is_zero() {
            lemma_settle_not_negative(input);
            assert forall|who: GroupMemberView| #[trigger]
                outstanding(input, settle(input), who).is_zero() by {
                lemma_settle_clears_balances(input, who);
            }
            assert forall|t: int| 0 <= t < settle(input).len() implies !(#[trigger] settle(
                input,
            )[t]).amount.is_negative() by {}
        }
    }
    let mut balances = sort_amounts_descending(&transactions);
    let mut settlements: Vec<Settlement> = Vec::new();
    if balances.len() == 0 {
        proof {
            assert(settlement_views(settlements@) =~= settle(input));
        }
        return settlements;
    }
    let ghost start = amount_views(balances@);
    let mut i: usize = 0;
    let mut j: usize = balances.len() - 1;
    proof {
        assert(input.len() == balances.len());
        assert(settlement_views(settlements@) + sweep(start, 0, j as int) =~= settle(input));
    }
    while i < j
        invariant
            j < balances.len(),
            settlement_views(settlements@) + sweep(amount_views(balances@), i as int, j as int)
                == settle(input),
        decreases j + 1 - i,
    {
        let ghost entries = amount_views(balances@);
        let ghost before = settlement_views(settlements@);
        let owed = balances[j].amount.times(-1);
        let paid = balances[i].amount.clone().min(owed);
        balances[j].amount.add_assign_ref(&paid);
        balances[i].amount.sub_assign_ref(&paid);
        settlements.push(
            Settlement {
                member_from: balances[j].member.clone(),
                member_to: balances[i].member.clone(),
                amount: paid,
            },
        );
        proof {
            lemma_transfer_clears_one(entries[i as int].amount, entries[j as int].amount);
            assert(amount_views(balances@) =~= after_transfer(entries, i as int, j as int));
            assert(balances[i as int].amount@ == amount_views(balances@)[i as int].amount);
            assert(balances[j as int].amount@ == amount_views(balances@)[j as int].amount);
            assert(settlement_views(settlements@) =~= before + seq![
                SettlementView {
                    member_from: entries[j as int].member,
                    member_to: entries[i as int].member,
                    amount: transfer_amount(entries[i as int].amount, entries[j as int].amount),
                },
            ]);
        }
        let bottom_settled = balances[j].amount.is_zero();
        let top_settled = balances[i].amount.is_zero();
        if bottom_settled {
            j = j - 1;
        }
        if top_settled {
            i = i + 1;
        }
    }
    proof {
        assert(sweep(amount_views(balances@), i as int, j as int) =~= Seq::empty());
        assert forall|t: int| 0 <= t < settlements.len() implies (#[trigger] settlements[t]).amount@
            == settle(input)[t].amount by {
            assert(settlement_views(settlements@)[t] == settlements[t]@);
        }
    }
    settlements
}

/// The first entry of a nickname that occurs carries that nickname.
pub proof fn lemma_first_called(entries: Seq<AmountView>, nickname: Seq<char>)
    ensures
        0 <= first_called(entries, nickname) <= entries.len(),
        has_nickname(entries, nickname) <==> first_called(entries, nickname) < entries.len(),
        first_called(entries, nickname) < entries.len() ==> entries[first_called(
            entries,
            nickname,
        )].member.nickname == nickname,
        forall|x: int|
            0 <= x < first_called(entries, nickname) ==> (#[trigger] entries[x]).member.nickname
                != nickname,
    decreases entries.len(),
{
    if entries.len() == 0 || entries[0].member.nickname == nickname {
    } else {
        let rest = entries.drop_first();
        lemma_first_called(rest, nickname);
        let f = first_called(rest, nickname);
        assert forall|x: int| 0 <= x < 1 + f implies (#[trigger] entries[x]).member.nickname
            != nickname by {
            if x > 0 {
                assert(entries[x] == rest[x - 1]);
            }
        }
        if f < rest.len() {
            assert(entries[f + 1] == rest[f]);
        }
        if has_nickname(entries, nickname) {
            let x = choose|x: int|
                0 <= x < entries.len() && (#[trigger] entries[x]).member.nickname == nickname;
            assert(rest[x - 1] == entries[x]);
        }
    }
}

/// Where no entry carries the nickname, its sum is zero.
pub proof fn lemma_sum_of_absent(entries: Seq<AmountView>, nickname: Seq<char>)
    requires
        !has_nickname(entries, nickname),
    ensures
        sum_where(entries, called(nickname)) == Number::zero(),
    decreases entries.len(),
{
    if entries.len() > 0 {
        let rest = entries.drop_last();
        assert(entries.last() == entries[entries.len() - 1]);
        assert forall|x: int| 0 <= x < rest.len() implies (#[trigger] rest[x]).member.nickname
            != nickname by {
            assert(rest[x] == entries[x]);
        }
        lemma_sum_of_absent(rest, nickname);
    }
}

/// One more entry changes the balance of its own nickname, and no other.
proof fn lemma_balance_grows(
    entry: AmountView,
    entries: Seq<AmountView>,
    added: AmountView,
    grown: AmountView,
)
    requires
        is_balance_of(entry, entries),
        grown.member == entry.member,
        grown.amount == (if added.member.nickname == entry.member.nickname {
            entry.amount.plus(added.amount)
        } else {
            entry.amount
        }),
    ensures
        is_balance_of(grown, entries.push(added)),
{
    let nickname = entry.member.nickname;
    let more = entries.push(added);
    lemma_first_called(entries, nickname);
    lemma_first_called(more, nickname);
    let f = first_called(entries, nickname);
    assert(more[f] == entries[f]);
    assert(more.drop_last() =~= entries);
    assert(more.last() == added);
    let g = first_called(more, nickname);
    if g < f {
        assert(more[g] == entries[g]);
    }
    if f < g {
        assert(more[f].member.nickname == nickname);
    }
}

/// The first entry of a nickname is its own balance.
proof fn lemma_balance_starts(entries: Seq<AmountView>, added: AmountView)
    requires
        !has_nickname(entries, added.member.nickname),
        added.amount.canonical(),
    ensures
        is_balance_of(added, entries.push(added)),
{
    let nickname = added.member.nickname;
    let more = entries.push(added);
    lemma_first_called(entries, nickname);
    lemma_first_called(more, nickname);
    lemma_sum_of_absent(entries, nickname);
    lemma_plus_zero(added.amount);
    assert(more.drop_last() =~= entries);
    assert(more.last() == added);
    assert(more[entries.len() as int] == added);
    let g = first_called(more, nickname);
    if g < entries.len() {
        assert(more[g] == entries[g]);
    }
}

/// The balance of every nickname: the sum of the amounts that come under it.
///
/// The result holds one entry for each nickname that occurs, in the order in
/// which the nicknames first occur. Each entry carries the member of the first
/// amount under its nickname.
pub fn compute_balance(transactions: Vec<Amount>) -> (r: Vec<Amount>)
    ensures
        are_balances_of(amount_views(r@), amount_views(transactions@)),
{
    let ghost all = amount_views(transactions@);
    let mut balances: Vec<Amount> = Vec::new();
    let mut k: usize = 0;
    proof {
        assert(all.take(0) =~= Seq::<AmountView>::empty());
    }
    while k < transactions.len()
        invariant
            k <= transactions.len(),
            all == amount_views(transactions@),
            are_balances_of(amount_views(balances@), all.take(k as int)),
        decreases transactions.len() - k,
    {
        let ghost seen = all.take(k as int);
        let ghost before = amount_views(balances@);
        let ghost added = all[k as int];
        proof {
            assert(all.take(k + 1) =~= seen.push(added));
        }
        let mut x: usize = 0;
        while x < balances.len() && balances[x].member.nickname != transactions[k].member.nickname
            invariant
                x <= balances.len(),
                k < transactions.len(),
                all == amount_views(transactions@),
                added == all[k as int],
                before == amount_views(balances@),
                forall|y: int|
                    0 <= y < x ==> (#[trigger] before[y]).member.nickname != added.member.nickname,
            decreases balances.len() - x,
        {
            x = x + 1;
        }
        if x < balances.len() {
            balances[x].amount.add_assign(transactions[k].amount.clone());
            proof {
                let after = amount_views(balances@);
                assert(before[x as int].member.nickname == added.member.nickname);
                assert(after[x as int].member == before[x as int].member);
                assert(after[x as int].amount == before[x as int].amount.plus(added.amount));
                assert forall|y: int| 0 <= y < after.len() implies is_balance_of(
                    #[trigger] after[y],
                    seen.push(added),
                ) by {
                    assert(is_balance_of(before[y], seen));
                    if y < x {
                        assert(after[y] == before[y]);
                        assert(before[y].member.nickname != before[x as int].member.nickname);
                    } else if y > x {
                        assert(after[y] == before[y]);
                        assert(before[x as int].member.nickname != before[y].member.nickname);
                    }
                    lemma_balance_grows(before[y], seen, added, after[y]);
                }
                assert forall|i: int| 0 <= i < seen.push(added).len() implies exists|y: int|
                    0 <= y < after.len() && (#[trigger] after[y]).member.nickname == (
                    #[trigger] seen.push(added)[i]).member.nickname by {
                    if i < seen.len() {
                        assert(seen.push(added)[i] == seen[i]);
                        let y = choose|y: int|
                            0 <= y < before.len() && (#[trigger] before[y]).member.nickname
                                == seen[i].member.nickname;
                        assert(after[y].member.nickname == seen[i].member.nickname);
                    } else {
                        assert(after[x as int].member.nickname == added.member.nickname);
                    }
                }
                assert forall|a: int, b: int| 0 <= a < b < after.len() implies (
                #[trigger] after[a]).member.nickname != (#[trigger] after[b]).member.nickname by {
                    assert(before[a].member.nickname != before[b].member.nickname);
                }
            }
        } else {
            let entry = Amount {
                member: transactions[k].member.clone(),
                amount: transactions[k].amount.clone(),
            };
            proof {
                transactions[k as int].amount.lemma_view_canonical();
                if has_nickname(seen, added.member.nickname) {
                    let i = choose|i: int|
                        0 <= i < seen.len() && (#[trigger] seen[i]).member.nickname
                            == added.member.nickname;
                    let y = choose|y: int|
                        0 <= y < before.len() && (#[trigger] before[y]).member.nickname
                            == seen[i].member.nickname;
                    assert(false);
                }
                lemma_balance_starts(seen, added);
            }
            balances.push(entry);
            proof {
                let after = amount_views(balances@);
                assert(after =~= before.push(added));
                assert forall|y: int| 0 <= y < after.len() implies is_balance_of(
                    #[trigger] after[y],
                    seen.push(added),
                ) by {
                    if y < before.len() {
                        assert(is_balance_of(before[y], seen));
                        lemma_balance_grows(before[y], seen, added, after[y]);
                    }
                }
                assert forall|i: int| 0 <= i < seen.push(added).len() implies exists|y: int|
                    0 <= y < after.len() && (#[trigger] after[y]).member.nickname == (
                    #[trigger] seen.push(added)[i]).member.nickname by {
                    if i < seen.len() {
                        assert(seen.push(added)[i] == seen[i]);
                        let y = choose|y: int|
                            0 <= y < before.len() && (#[trigger] before[y]).member.nickname
                                == seen[i].member.nickname;
                        assert(after[y].member.nickname == seen[i].member.nickname);
                    } else {
                        assert(after[before.len() as int].member.nickname
                            == added.member.nickname);
                    }
                }
                assert forall|a: int, b: int| 0 <= a < b < after.len() implies (
                #[trigger] after[a]).member.nickname != (#[trigger] after[b]).member.nickname by {
                    if b < before.len() {
                        assert(before[a].member.nickname != before[b].member.nickname);
                    }
                }
            }
        }
        k = k + 1;
    }
    proof {
        assert(all.take(k as int) =~= all);
    }
    balances
}

} // verus!
