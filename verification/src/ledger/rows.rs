//! Finding, reading and rewriting the rows that the ledger holds.

use vstd::prelude::*;
use crate::entrypoint::group_members::GroupMemberNoDate;
use crate::entrypoint::transactions::{
    debtor_views, TransactionDebtQuery, TransactionDebtResponse, TransactionQuery,
    TransactionResponse,
};
use crate::ledger::members::{
    all_without_shares_of, involves, is_clear, not_owed_by, without_shares_of,
};
use crate::ledger::state::{
    debt_member, debt_views, has_uuid, is_called, is_member, member_views, outside_group,
    transaction_has_uuid, transaction_outside_group, transaction_views, DebtView, MemberRow,
    MemberView, StoredDebt, StoredTransaction, TransactionView,
};
use crate::ledger::transactions::{
    shown_member, shown_shares, shown_transaction, stored_form, stored_share, stored_shares,
};
use crate::table::{any_where, distinct_by, index_where, keep_where, lemma_index_where_is};

verus! {

/// The position of the transaction with the given uuid, if it is stored.
pub(crate) fn find_transaction(transactions: &Vec<StoredTransaction>, uuid: &String) -> (r: Option<
    usize,
>)
    ensures
        match r {
            Some(i) => i == index_where(
                transaction_views(transactions@),
                transaction_has_uuid(uuid@),
            ) && i < transactions.len(),
            None => index_where(transaction_views(transactions@), transaction_has_uuid(uuid@))
                == transactions.len(),
        },
{
    let mut i: usize = 0;
    while i < transactions.len() && transactions[i].uuid != *uuid
        invariant
            i <= transactions.len(),
            forall|q: int|
                0 <= q < i ==> !transaction_has_uuid(uuid@)(
                    #[trigger] transaction_views(transactions@)[q],
                ),
        decreases transactions.len() - i,
    {
        i = i + 1;
    }
    proof {
        if i < transactions.len() {
            assert(transaction_has_uuid(uuid@)(transaction_views(transactions@)[i as int]));
        }
        lemma_index_where_is(
            transaction_views(transactions@),
            transaction_has_uuid(uuid@),
            i as int,
        );
    }
    if i < transactions.len() {
        Some(i)
    } else {
        None
    }
}

/// Whether `uuid` is a member of `group`.
pub(crate) fn is_group_member(members: &Vec<MemberRow>, group: &String, uuid: &String) -> (r: bool)
    ensures
        r == any_where(member_views(members@), is_member(group@, uuid@)),
{
    let mut i: usize = 0;
    while i < members.len()
        invariant
            i <= members.len(),
            forall|q: int|
                0 <= q < i ==> !is_member(group@, uuid@)(#[trigger] member_views(members@)[q]),
        decreases members.len() - i,
    {
        if members[i].group == *group && members[i].uuid == *uuid {
            proof {
                assert(is_member(group@, uuid@)(member_views(members@)[i as int]));
            }
            return true;
        }
        i = i + 1;
    }
    false
}

/// Whether everyone who owes a share is a member of `group`.
pub(crate) fn debtors_are_members(
    members: &Vec<MemberRow>,
    group: &String,
    debtors: &Vec<TransactionDebtQuery>,
) -> (r: bool)
    ensures
        r == (forall|k: int|
            0 <= k < debtors@.len() ==> any_where(
                member_views(members@),
                is_member(group@, (#[trigger] debtors@[k]).member.uuid@),
            )),
{
    let mut k: usize = 0;
    while k < debtors.len()
        invariant
            k <= debtors.len(),
            forall|q: int|
                0 <= q < k ==> any_where(
                    member_views(members@),
                    is_member(group@, (#[trigger] debtors@[q]).member.uuid@),
                ),
        decreases debtors.len() - k,
    {
        if !is_group_member(members, group, &debtors[k].member.uuid) {
            return false;
        }
        k = k + 1;
    }
    true
}

/// Whether no member owes two of the shares.
pub(crate) fn debtors_distinct(debtors: &Vec<TransactionDebtQuery>) -> (r: bool)
    ensures
        r == distinct_by(stored_shares(debtors@), debt_member()),
{
    let ghost shares = stored_shares(debtors@);
    let mut b: usize = 0;
    while b < debtors.len()
        invariant
            b <= debtors.len(),
            shares == stored_shares(debtors@),
            forall|i: int, j: int|
                0 <= i < j < b ==> debt_member()(#[trigger] shares[i]) != debt_member()(
                    #[trigger] shares[j],
                ),
        decreases debtors.len() - b,
    {
        let mut a: usize = 0;
        while a < b
            invariant
                a <= b,
                b < debtors.len(),
                shares == stored_shares(debtors@),
                forall|i: int|
                    0 <= i < a ==> debt_member()(#[trigger] shares[i]) != debt_member()(
                        shares[b as int],
                    ),
            decreases b - a,
        {
            if debtors[a].member.uuid == debtors[b].member.uuid {
                proof {
                    assert(debt_member()(shares[a as int]) == debt_member()(shares[b as int]));
                }
                return false;
            }
            a = a + 1;
        }
        b = b + 1;
    }
    true
}

/// The shares as they are stored.
pub(crate) fn store_shares(debtors: Vec<TransactionDebtQuery>) -> (r: Vec<StoredDebt>)
    ensures
        debt_views(r@) == stored_shares(debtors@),
{
    let mut shares: Vec<StoredDebt> = Vec::new();
    let mut k: usize = 0;
    while k < debtors.len()
        invariant
            k <= debtors.len(),
            shares.len() == k,
            debt_views(shares@) == stored_shares(debtors@).take(k as int),
        decreases debtors.len() - k,
    {
        let id: i32 = match debtors[k].id {
            Some(v) => if v > 0 {
                v
            } else {
                0
            },
            None => 0,
        };
        let ghost before = debt_views(shares@);
        shares.push(
            StoredDebt {
                id,
                member: debtors[k].member.uuid.clone(),
                amount: debtors[k].amount.clone(),
            },
        );
        proof {
            let now = debt_views(shares@);
            assert(now[k as int] == stored_share(debtors@[k as int]));
            assert forall|q: int| 0 <= q < k implies now[q] == stored_shares(debtors@)[q] by {
                assert(now[q] == before[q]);
                assert(before[q] == stored_shares(debtors@).take(k as int)[q]);
            }
            assert(now =~= stored_shares(debtors@).take(k + 1));
        }
        k = k + 1;
    }
    proof {
        assert(stored_shares(debtors@).take(k as int) =~= stored_shares(debtors@));
    }
    shares
}

/// The transaction as it is stored in `group`.
pub(crate) fn stored_row(group: String, transaction: TransactionQuery) -> (r: StoredTransaction)
    ensures
        r@ == stored_form(group@, transaction),
{
    StoredTransaction {
        group,
        uuid: transaction.uuid,
        description: transaction.description,
        currency_id: transaction.currency_id,
        paid_by: transaction.paid_by.uuid,
        created_at: transaction.created_at,
        modified_at: transaction.modified_at,
        amount: transaction.amount,
        exchange_rate: transaction.exchange_rate,
        debts: store_shares(transaction.debtors),
    }
}

/// The member `uuid` as a transaction shows it.
pub(crate) fn show_member(members: &Vec<MemberRow>, uuid: &String) -> (r: GroupMemberNoDate)
    ensures
        r@ == shown_member(member_views(members@), uuid@),
{
    match find_member(members, uuid) {
        Some(i) => GroupMemberNoDate { uuid: uuid.clone(), nickname: members[i].nickname.clone() },
        None => GroupMemberNoDate { uuid: uuid.clone(), nickname: String::new() },
    }
}

/// The stored transaction as a caller reads it.
pub(crate) fn show_transaction(transaction: &StoredTransaction, members: &Vec<MemberRow>) -> (r:
    TransactionResponse)
    ensures
        r@ == shown_transaction(transaction@, member_views(members@)),
{
    let ghost shown = shown_shares(transaction@.debts, member_views(members@));
    let mut debtors: Vec<TransactionDebtResponse> = Vec::new();
    let mut k: usize = 0;
    while k < transaction.debts.len()
        invariant
            k <= transaction.debts.len(),
            debtors.len() == k,
            shown == shown_shares(transaction@.debts, member_views(members@)),
            debtor_views(debtors@) == shown.take(k as int),
        decreases transaction.debts.len() - k,
    {
        let ghost before = debtor_views(debtors@);
        debtors.push(
            TransactionDebtResponse {
                id: transaction.debts[k].id,
                amount: transaction.debts[k].amount.clone(),
                member: show_member(members, &transaction.debts[k].member),
            },
        );
        proof {
            let now = debtor_views(debtors@);
            assert(transaction@.debts[k as int] == transaction.debts@[k as int]@);
            assert(now[k as int] == shown[k as int]);
            assert forall|q: int| 0 <= q < k implies now[q] == shown[q] by {
                assert(now[q] == before[q]);
                assert(before[q] == shown.take(k as int)[q]);
            }
            assert(now =~= shown.take(k + 1));
        }
        k = k + 1;
    }
    proof {
        assert(shown.take(k as int) =~= shown);
    }
    TransactionResponse {
        uuid: transaction.uuid.clone(),
        description: transaction.description.clone(),
        currency_id: transaction.currency_id.clone(),
        paid_by: show_member(members, &transaction.paid_by),
        created_at: transaction.created_at,
        modified_at: transaction.modified_at,
        amount: transaction.amount.clone(),
        exchange_rate: transaction.exchange_rate.clone(),
        debtors,
    }
}

/// The position of the member with the given uuid, if it is stored.
pub(crate) fn find_member(members: &Vec<MemberRow>, uuid: &String) -> (r: Option<usize>)
    ensures
        match r {
            Some(i) => i == index_where(member_views(members@), has_uuid(uuid@)) && i
                < members.len(),
            None => index_where(member_views(members@), has_uuid(uuid@)) == members.len(),
        },
{
    let mut i: usize = 0;
    while i < members.len() && members[i].uuid != *uuid
        invariant
            i <= members.len(),
            forall|q: int| 0 <= q < i ==> !has_uuid(uuid@)(#[trigger] member_views(members@)[q]),
        decreases members.len() - i,
    {
        i = i + 1;
    }
    proof {
        if i < members.len() {
            assert(has_uuid(uuid@)(member_views(members@)[i as int]));
        }
        lemma_index_where_is(member_views(members@), has_uuid(uuid@), i as int);
    }
    if i < members.len() {
        Some(i)
    } else {
        None
    }
}

/// Whether a member of `group` is called `nickname`.
pub(crate) fn nickname_taken(members: &Vec<MemberRow>, group: &String, nickname: &String) -> (r:
    bool)
    ensures
        r == any_where(member_views(members@), is_called(group@, nickname@)),
{
    let mut i: usize = 0;
    while i < members.len()
        invariant
            i <= members.len(),
            forall|q: int|
                0 <= q < i ==> !is_called(group@, nickname@)(#[trigger] member_views(members@)[q]),
        decreases members.len() - i,
    {
        if members[i].group == *group && members[i].nickname == *nickname {
            proof {
                assert(is_called(group@, nickname@)(member_views(members@)[i as int]));
            }
            return true;
        }
        i = i + 1;
    }
    false
}

/// Whether the member `uuid` owes a share of the transaction other than of
/// zero, or has paid it and its amount is not zero.
pub(crate) fn transaction_involves(transaction: &StoredTransaction, uuid: &String) -> (r: bool)
    ensures
        r == involves(transaction@, uuid@),
{
    if transaction.paid_by == *uuid && !transaction.amount.is_zero() {
        return true;
    }
    let mut k: usize = 0;
    while k < transaction.debts.len()
        invariant
            k <= transaction.debts.len(),
            forall|q: int|
                0 <= q < k ==> !((#[trigger] transaction@.debts[q]).member == uuid@
                    && !transaction@.debts[q].amount.is_zero()),
        decreases transaction.debts.len() - k,
    {
        if transaction.debts[k].member == *uuid && !transaction.debts[k].amount.is_zero() {
            proof {
                assert(transaction@.debts[k as int].member == uuid@);
            }
            return true;
        }
        k = k + 1;
    }
    false
}

/// Whether no transaction involves the member `uuid`.
pub(crate) fn transactions_clear_of(transactions: &Vec<StoredTransaction>, uuid: &String) -> (r:
    bool)
    ensures
        r == is_clear(transaction_views(transactions@), uuid@),
{
    let mut t: usize = 0;
    while t < transactions.len()
        invariant
            t <= transactions.len(),
            forall|q: int|
                0 <= q < t ==> !involves(#[trigger] transaction_views(transactions@)[q], uuid@),
        decreases transactions.len() - t,
    {
        if transaction_involves(&transactions[t], uuid) {
            proof {
                assert(involves(transaction_views(transactions@)[t as int], uuid@));
            }
            return false;
        }
        t = t + 1;
    }
    true
}

/// The shares that the member `uuid` does not owe, in order.
pub(crate) fn shares_not_owed_by(debts: Vec<StoredDebt>, uuid: &String) -> (r: Vec<StoredDebt>)
    ensures
        debt_views(r@) == keep_where(debt_views(debts@), not_owed_by(uuid@)),
{
    let ghost all = debt_views(debts@);
    let mut debts = debts;
    let mut kept: Vec<StoredDebt> = Vec::new();
    proof {
        assert(all.take(0) =~= Seq::<DebtView>::empty());
        assert(all.skip(0) =~= all);
    }
    while debts.len() > 0
        invariant
            debts.len() <= all.len(),
            debt_views(debts@) == all.skip(all.len() - debts.len()),
            debt_views(kept@) == keep_where(all.take(all.len() - debts.len()), not_owed_by(uuid@)),
        decreases debts.len(),
    {
        let ghost done = all.len() - debts.len();
        let ghost before = debt_views(kept@);
        let ghost rest = debt_views(debts@);
        let row = debts.remove(0);
        proof {
            assert(row@ == rest[0]);
            assert(row@ == all[done]);
            assert(all.take(done + 1).drop_last() =~= all.take(done));
            assert(all.take(done + 1).last() == all[done]);
            assert forall|q: int| 0 <= q < debts.len() implies debt_views(debts@)[q] == all.skip(
                done + 1,
            )[q] by {
                assert(debt_views(debts@)[q] == rest[q + 1]);
                assert(rest[q + 1] == all.skip(done)[q + 1]);
            }
            assert(debt_views(debts@) =~= all.skip(done + 1));
        }
        if row.member != *uuid {
            kept.push(row);
            proof {
                assert(debt_views(kept@) =~= before.push(all[done]));
            }
        }
    }
    proof {
        assert(all.take(all.len() as int) =~= all);
    }
    kept
}

/// Takes the shares of the member `uuid` out of every transaction.
pub(crate) fn strip_shares(transactions: &mut Vec<StoredTransaction>, uuid: &String)
    ensures
        transaction_views(final(transactions)@) == all_without_shares_of(
            transaction_views(old(transactions)@),
            uuid@,
        ),
{
    let ghost all = transaction_views(transactions@);
    let mut t: usize = 0;
    while t < transactions.len()
        invariant
            t <= transactions.len(),
            transactions.len() == all.len(),
            forall|q: int|
                0 <= q < t ==> (#[trigger] transaction_views(transactions@)[q])
                    == without_shares_of(all[q], uuid@),
            forall|q: int|
                t <= q < all.len() ==> (#[trigger] transaction_views(transactions@)[q]) == all[q],
        decreases transactions.len() - t,
    {
        let ghost before = transaction_views(transactions@);
        let mut debts: Vec<StoredDebt> = Vec::new();
        core::mem::swap(&mut debts, &mut transactions[t].debts);
        transactions[t].debts = shares_not_owed_by(debts, uuid);
        proof {
            let now = transaction_views(transactions@);
            assert(now[t as int] == without_shares_of(all[t as int], uuid@)) by {
                assert(before[t as int] == all[t as int]);
            }
            assert forall|q: int| 0 <= q < t implies (#[trigger] now[q]) == without_shares_of(
                all[q],
                uuid@,
            ) by {
                assert(now[q] == before[q]);
            }
            assert forall|q: int| t + 1 <= q < all.len() implies (#[trigger] now[q]) == all[q] by {
                assert(now[q] == before[q]);
            }
        }
        t = t + 1;
    }
    proof {
        assert(transaction_views(transactions@) =~= all_without_shares_of(all, uuid@));
    }
}

/// The members that do not belong to the group `token`, in order.
pub(crate) fn members_outside(members: Vec<MemberRow>, token: &String) -> (r: Vec<MemberRow>)
    ensures
        member_views(r@) == keep_where(member_views(members@), outside_group(token@)),
{
    let ghost all = member_views(members@);
    let mut members = members;
    let mut kept: Vec<MemberRow> = Vec::new();
    proof {
        assert(all.take(0) =~= Seq::<MemberView>::empty());
        assert(all.skip(0) =~= all);
    }
    while members.len() > 0
        invariant
            members.len() <= all.len(),
            member_views(members@) == all.skip(all.len() - members.len()),
            member_views(kept@) == keep_where(
                all.take(all.len() - members.len()),
                outside_group(token@),
            ),
        decreases members.len(),
    {
        let ghost done = all.len() - members.len();
        let ghost before = member_views(kept@);
        let ghost rest = member_views(members@);
        let row = members.remove(0);
        proof {
            assert(row@ == rest[0]);
            assert(row@ == all[done]);
            assert(all.take(done + 1).drop_last() =~= all.take(done));
            assert(all.take(done + 1).last() == all[done]);
            assert forall|q: int| 0 <= q < members.len() implies member_views(members@)[q]
                == all.skip(done + 1)[q] by {
                assert(member_views(members@)[q] == rest[q + 1]);
                assert(rest[q + 1] == all.skip(done)[q + 1]);
            }
            assert(member_views(members@) =~= all.skip(done + 1));
        }
        if row.group != *token {
            kept.push(row);
            proof {
                assert(member_views(kept@) =~= before.push(all[done]));
            }
        }
    }
    proof {
        assert(all.take(all.len() as int) =~= all);
    }
    kept
}

/// The transactions that do not belong to the group `token`, in order.
pub(crate) fn transactions_outside(transactions: Vec<StoredTransaction>, token: &String) -> (r: Vec<
    StoredTransaction,
>)
    ensures
        transaction_views(r@) == keep_where(
            transaction_views(transactions@),
            transaction_outside_group(token@),
        ),
{
    let ghost all = transaction_views(transactions@);
    let mut transactions = transactions;
    let mut kept: Vec<StoredTransaction> = Vec::new();
    proof {
        assert(all.take(0) =~= Seq::<TransactionView>::empty());
        assert(all.skip(0) =~= all);
    }
    while transactions.len() > 0
        invariant
            transactions.len() <= all.len(),
            transaction_views(transactions@) == all.skip(all.len() - transactions.len()),
            transaction_views(kept@) == keep_where(
                all.take(all.len() - transactions.len()),
                transaction_outside_group(token@),
            ),
        decreases transactions.len(),
    {
        let ghost done = all.len() - transactions.len();
        let ghost before = transaction_views(kept@);
        let ghost rest = transaction_views(transactions@);
        let row = transactions.remove(0);
        proof {
            assert(row@ == rest[0]);
            assert(row@ == all[done]);
            assert(all.take(done + 1).drop_last() =~= all.take(done));
            assert(all.take(done + 1).last() == all[done]);
            assert forall|q: int| 0 <= q < transactions.len() implies transaction_views(
                transactions@,
            )[q] == all.skip(done + 1)[q] by {
                assert(transaction_views(transactions@)[q] == rest[q + 1]);
                assert(rest[q + 1] == all.skip(done)[q + 1]);
            }
            assert(transaction_views(transactions@) =~= all.skip(done + 1));
        }
        if row.group != *token {
            kept.push(row);
            proof {
                assert(transaction_views(kept@) =~= before.push(all[done]));
            }
        }
    }
    proof {
        assert(all.take(all.len() as int) =~= all);
    }
    kept
}

} // verus!
