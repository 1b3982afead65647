//! How writes and deletes of transactions change the ledger, and what a
//! caller reads of the transactions that are stored.

use vstd::prelude::*;
use crate::entrypoint::group_members::GroupMemberNoDateView;
use crate::entrypoint::groups::has_token;
use crate::entrypoint::transactions::{
    adds_up, debtors_total, debts_total, is_valid, stored_debt_id, DebtResponseView, ResponseView,
    TransactionDebtQuery, TransactionQuery,
};
use crate::ledger::state::{
    among_members, balanced, debt_member, has_uuid, is_member, shares_total, transaction_has_uuid,
    transaction_uuid, DebtView, LedgerView, MemberView, TransactionView,
};
use crate::table::{
    any_where, distinct_by, index_where, lemma_index_where, lemma_index_where_is,
    lemma_remove_distinct,
};
use crate::timestamp::Timestamp;

verus! {

/// What a caller is told when a member owes two shares of one transaction.
pub open spec fn two_shares_text() -> Seq<char> {
    "A member owes more than one share"@
}

/// The share as it is stored: under the uuid of the member who owes it, and
/// with the identifier that the caller gave it where that is positive, with
/// the identifier 0 otherwise.
pub open spec fn stored_share(debt: TransactionDebtQuery) -> DebtView {
    DebtView {
        id: match stored_debt_id(debt.id) {
            Some(id) => id,
            None => 0,
        },
        member: debt.member.uuid@,
        amount: debt.amount@,
    }
}

/// The shares as they are stored, in order.
pub open spec fn stored_shares(debtors: Seq<TransactionDebtQuery>) -> Seq<DebtView> {
    Seq::new(debtors.len(), |k: int| stored_share(debtors[k]))
}

/// The transaction as it is stored in `group`.
pub open spec fn stored_form(group: Seq<char>, transaction: TransactionQuery) -> TransactionView {
    TransactionView {
        group,
        uuid: transaction.uuid@,
        description: transaction.description@,
        currency_id: transaction.currency_id@,
        paid_by: transaction.paid_by.uuid@,
        created_at: transaction.created_at,
        modified_at: transaction.modified_at,
        amount: transaction.amount@,
        exchange_rate: transaction.exchange_rate@,
        debts: stored_shares(transaction.debtors@),
    }
}

/// Whoever the transaction names is a member of `group`: the one who paid,
/// and everyone who owes a share.
pub open spec fn names_members(
    members: Seq<MemberView>,
    group: Seq<char>,
    transaction: TransactionQuery,
) -> bool {
    &&& any_where(members, is_member(group, transaction.paid_by.uuid@))
    &&& forall|k: int|
        0 <= k < transaction.debtors@.len() ==> any_where(
            members,
            is_member(group, (#[trigger] transaction.debtors@[k]).member.uuid@),
        )
}

/// No member owes two shares of the transaction.
pub open spec fn one_share_each(transaction: TransactionQuery) -> bool {
    distinct_by(stored_shares(transaction.debtors@), debt_member())
}

/// The nickname under which the member `uuid` is stored; empty where no such
/// member is stored.
pub open spec fn nickname_of(members: Seq<MemberView>, uuid: Seq<char>) -> Seq<char> {
    let i = index_where(members, has_uuid(uuid));
    if i < members.len() {
        members[i].nickname
    } else {
        Seq::empty()
    }
}

/// The member `uuid` as a transaction shows it: with the nickname it is
/// stored under now.
pub open spec fn shown_member(members: Seq<MemberView>, uuid: Seq<char>) -> GroupMemberNoDateView {
    GroupMemberNoDateView { uuid, nickname: nickname_of(members, uuid) }
}

/// The stored shares as a caller reads them, in order.
pub open spec fn shown_shares(debts: Seq<DebtView>, members: Seq<MemberView>) -> Seq<
    DebtResponseView,
> {
    Seq::new(
        debts.len(),
        |k: int|
            DebtResponseView {
                id: debts[k].id,
                amount: debts[k].amount,
                member: shown_member(members, debts[k].member),
            },
    )
}

/// The stored transaction as a caller reads it.
pub open spec fn shown_transaction(transaction: TransactionView, members: Seq<MemberView>)
    -> ResponseView {
    ResponseView {
        uuid: transaction.uuid,
        description: transaction.description,
        currency_id: transaction.currency_id,
        paid_by: shown_member(members, transaction.paid_by),
        created_at: transaction.created_at,
        modified_at: transaction.modified_at,
        amount: transaction.amount,
        exchange_rate: transaction.exchange_rate,
        debtors: shown_shares(transaction.debts, members),
    }
}

/// The transactions of `group` as a caller reads them, in the order in which
/// they are stored.
pub open spec fn shown_transactions(
    transactions: Seq<TransactionView>,
    members: Seq<MemberView>,
    group: Seq<char>,
) -> Seq<ResponseView>
    decreases transactions.len(),
{
    if transactions.len() == 0 {
        Seq::empty()
    } else if transactions.last().group == group {
        shown_transactions(transactions.drop_last(), members, group).push(
            shown_transaction(transactions.last(), members),
        )
    } else {
        shown_transactions(transactions.drop_last(), members, group)
    }
}

impl LedgerView {
    /// The stored transaction with the given uuid.
    pub open spec fn stored_transaction(self, uuid: Seq<char>) -> Option<TransactionView> {
        let i = index_where(self.transactions, transaction_has_uuid(uuid));
        if i < self.transactions.len() {
            Some(self.transactions[i])
        } else {
            None
        }
    }

    /// Whether a write of the transaction changes the ledger: it does where
    /// no transaction of that uuid is stored, or the stored one was modified
    /// earlier.
    pub open spec fn transaction_write_applies(self, transaction: TransactionQuery) -> bool {
        match self.stored_transaction(transaction.uuid@) {
            Some(stored) => stored.modified_at.before(transaction.modified_at),
            None => true,
        }
    }

    /// The ledger after the transaction has been written into `group`. Its
    /// shares take the place of the shares that were stored.
    pub open spec fn after_transaction_write(self, group: Seq<char>, transaction: TransactionQuery)
        -> LedgerView {
        let i = index_where(self.transactions, transaction_has_uuid(transaction.uuid@));
        if !self.transaction_write_applies(transaction) {
            self
        } else if i < self.transactions.len() {
            LedgerView {
                transactions: self.transactions.update(i, stored_form(group, transaction)),
                ..self
            }
        } else {
            LedgerView {
                transactions: self.transactions.push(stored_form(group, transaction)),
                ..self
            }
        }
    }

    /// Whether a delete of the transaction `uuid` from `group`, dated
    /// `modified_at`, removes it: the transaction is stored in that group and
    /// was modified earlier.
    pub open spec fn transaction_delete_applies(
        self,
        group: Seq<char>,
        uuid: Seq<char>,
        modified_at: Timestamp,
    ) -> bool {
        match self.stored_transaction(uuid) {
            Some(stored) => stored.group == group && stored.modified_at.before(modified_at),
            None => false,
        }
    }

    /// The ledger after a delete of the transaction `uuid` from `group`, dated
    /// `modified_at`. The shares go with the transaction.
    pub open spec fn after_transaction_delete(
        self,
        group: Seq<char>,
        uuid: Seq<char>,
        modified_at: Timestamp,
    ) -> LedgerView {
        if self.transaction_delete_applies(group, uuid, modified_at) {
            LedgerView {
                transactions: self.transactions.remove(
                    index_where(self.transactions, transaction_has_uuid(uuid)),
                ),
                ..self
            }
        } else {
            self
        }
    }
}

/// The shares as stored add up to what they add up to as sent.
pub proof fn lemma_stored_shares_total(debtors: Seq<TransactionDebtQuery>)
    ensures
        shares_total(stored_shares(debtors)) == debts_total(debtors),
    decreases debtors.len(),
{
    if debtors.len() > 0 {
        lemma_stored_shares_total(debtors.drop_last());
        assert(stored_shares(debtors).drop_last() =~= stored_shares(debtors.drop_last()));
    }
}

/// The shares as read add up to what they add up to as stored.
pub proof fn lemma_shown_shares_total(debts: Seq<DebtView>, members: Seq<MemberView>)
    ensures
        debtors_total(shown_shares(debts, members)) == shares_total(debts),
    decreases debts.len(),
{
    if debts.len() > 0 {
        lemma_shown_shares_total(debts.drop_last(), members);
        assert(shown_shares(debts, members).drop_last() =~= shown_shares(
            debts.drop_last(),
            members,
        ));
    }
}

/// A valid transaction that names members of its group only, each with one
/// share at most, is stored in a form that is balanced and among the members.
pub proof fn lemma_stored_form(
    members: Seq<MemberView>,
    group: Seq<char>,
    transaction: TransactionQuery,
)
    requires
        is_valid(&transaction),
        names_members(members, group, transaction),
        one_share_each(transaction),
    ensures
        balanced(stored_form(group, transaction)),
        among_members(stored_form(group, transaction), members),
{
    let stored = stored_form(group, transaction);
    lemma_stored_shares_total(transaction.debtors@);
    assert forall|k: int| 0 <= k < stored.debts.len() implies !(
    #[trigger] stored.debts[k]).amount.is_negative() && any_where(
        members,
        is_member(stored.group, stored.debts[k].member),
    ) by {
        assert(!transaction.debtors@[k].amount@.is_negative());
        assert(any_where(members, is_member(group, transaction.debtors@[k].member.uuid@)));
    }
}

/// What a write stores: the incoming transaction under its uuid where the
/// write applies, what was stored before where it does not; and every other
/// transaction as it was.
pub proof fn lemma_transaction_write(
    ledger: LedgerView,
    group: Seq<char>,
    transaction: TransactionQuery,
    other: Seq<char>,
)
    requires
        distinct_by(ledger.transactions, transaction_uuid()),
    ensures
        distinct_by(
            ledger.after_transaction_write(group, transaction).transactions,
            transaction_uuid(),
        ),
        ledger.after_transaction_write(group, transaction).stored_transaction(transaction.uuid@)
            == (if ledger.transaction_write_applies(transaction) {
            Some(stored_form(group, transaction))
        } else {
            ledger.stored_transaction(transaction.uuid@)
        }),
        other != transaction.uuid@ ==> ledger.after_transaction_write(
            group,
            transaction,
        ).stored_transaction(other) == ledger.stored_transaction(other),
{
    let after = ledger.after_transaction_write(group, transaction);
    let uuid = transaction.uuid@;
    let i = index_where(ledger.transactions, transaction_has_uuid(uuid));
    lemma_index_where(ledger.transactions, transaction_has_uuid(uuid));
    lemma_index_where(ledger.transactions, transaction_has_uuid(other));
    if ledger.transaction_write_applies(transaction) {
        let stored = stored_form(group, transaction);
        assert forall|a: int, b: int| 0 <= a < b < after.transactions.len() implies
            transaction_uuid()(#[trigger] after.transactions[a]) != transaction_uuid()(
            #[trigger] after.transactions[b],
        ) by {
            if a < ledger.transactions.len() && b < ledger.transactions.len() {
                assert(transaction_uuid()(ledger.transactions[a]) != transaction_uuid()(
                    ledger.transactions[b],
                ));
            }
        }
        assert forall|q: int| 0 <= q < i implies !transaction_has_uuid(uuid)(
            #[trigger] after.transactions[q],
        ) by {
            assert(after.transactions[q] == ledger.transactions[q]);
        }
        assert(after.transactions[i] == stored);
        lemma_index_where_is(after.transactions, transaction_has_uuid(uuid), i);
        if other != uuid {
            let p = index_where(ledger.transactions, transaction_has_uuid(other));
            assert forall|q: int| 0 <= q < p implies !transaction_has_uuid(other)(
                #[trigger] after.transactions[q],
            ) by {
                if q != i {
                    assert(after.transactions[q] == ledger.transactions[q]);
                }
            }
            if p < ledger.transactions.len() {
                assert(after.transactions[p] == ledger.transactions[p]);
                lemma_index_where_is(after.transactions, transaction_has_uuid(other), p);
            } else {
                assert forall|q: int| 0 <= q < after.transactions.len() implies
                    !transaction_has_uuid(other)(#[trigger] after.transactions[q]) by {
                    if q < ledger.transactions.len() && q != i {
                        assert(after.transactions[q] == ledger.transactions[q]);
                    }
                }
                lemma_index_where_is(
                    after.transactions,
                    transaction_has_uuid(other),
                    after.transactions.len() as int,
                );
            }
        }
    }
}

/// What a delete leaves: nothing under the uuid where the delete applies,
/// what was stored before where it does not; and every other transaction as
/// it was.
pub proof fn lemma_transaction_delete(
    ledger: LedgerView,
    group: Seq<char>,
    uuid: Seq<char>,
    modified_at: Timestamp,
    other: Seq<char>,
)
    requires
        distinct_by(ledger.transactions, transaction_uuid()),
    ensures
        distinct_by(
            ledger.after_transaction_delete(group, uuid, modified_at).transactions,
            transaction_uuid(),
        ),
        ledger.after_transaction_delete(group, uuid, modified_at).stored_transaction(uuid) == (
        if ledger.transaction_delete_applies(group, uuid, modified_at) {
            None
        } else {
            ledger.stored_transaction(uuid)
        }),
        other != uuid ==> ledger.after_transaction_delete(
            group,
            uuid,
            modified_at,
        ).stored_transaction(other) == ledger.stored_transaction(other),
{
    let after = ledger.after_transaction_delete(group, uuid, modified_at);
    let i = index_where(ledger.transactions, transaction_has_uuid(uuid));
    lemma_index_where(ledger.transactions, transaction_has_uuid(uuid));
    lemma_index_where(ledger.transactions, transaction_has_uuid(other));
    if ledger.transaction_delete_applies(group, uuid, modified_at) {
        lemma_remove_distinct(ledger.transactions, transaction_uuid(), i);
        assert forall|q: int| 0 <= q < after.transactions.len() implies !transaction_has_uuid(
            uuid,
        )(#[trigger] after.transactions[q]) by {
            if q < i {
                assert(after.transactions[q] == ledger.transactions[q]);
            } else {
                assert(after.transactions[q] == ledger.transactions[q + 1]);
                assert(transaction_uuid()(ledger.transactions[i]) != transaction_uuid()(
                    ledger.transactions[q + 1],
                ));
            }
        }
        lemma_index_where_is(
            after.transactions,
            transaction_has_uuid(uuid),
            after.transactions.len() as int,
        );
        if other != uuid {
            let p = index_where(ledger.transactions, transaction_has_uuid(other));
            let shifted = if p < i {
                p
            } else {
                p - 1
            };
            assert(p != i);
            assert forall|q: int| 0 <= q < shifted implies !transaction_has_uuid(other)(
                #[trigger] after.transactions[q],
            ) by {
                if q < i {
                    assert(after.transactions[q] == ledger.transactions[q]);
                } else {
                    assert(after.transactions[q] == ledger.transactions[q + 1]);
                }
            }
            if p < ledger.transactions.len() {
                assert(after.transactions[shifted] == ledger.transactions[p]);
            }
            lemma_index_where_is(after.transactions, transaction_has_uuid(other), shifted);
        }
    }
}

/// Writing a valid transaction that names members of its stored group only
/// keeps the ledger well formed.
pub proof fn lemma_transaction_write_wf(
    ledger: LedgerView,
    group: Seq<char>,
    transaction: TransactionQuery,
)
    requires
        ledger.wf(),
        any_where(ledger.groups, has_token(group)),
        is_valid(&transaction),
        names_members(ledger.members, group, transaction),
        one_share_each(transaction),
    ensures
        ledger.after_transaction_write(group, transaction).wf(),
{
    let after = ledger.after_transaction_write(group, transaction);
    lemma_transaction_write(ledger, group, transaction, transaction.uuid@);
    lemma_stored_form(ledger.members, group, transaction);
    lemma_index_where(ledger.transactions, transaction_has_uuid(transaction.uuid@));
    if ledger.transaction_write_applies(transaction) {
        assert forall|t: int| 0 <= t < after.transactions.len() implies any_where(
            after.groups,
            has_token((#[trigger] after.transactions[t]).group),
        ) && among_members(after.transactions[t], after.members) && balanced(
            after.transactions[t],
        ) by {
            if after.transactions[t] != stored_form(group, transaction) {
                assert(after.transactions[t] == ledger.transactions[t]);
                assert(any_where(ledger.groups, has_token(ledger.transactions[t].group)));
                assert(among_members(ledger.transactions[t], ledger.members));
                assert(balanced(ledger.transactions[t]));
            }
        }
    }
}

/// Deleting a transaction keeps the ledger well formed.
pub proof fn lemma_transaction_delete_wf(
    ledger: LedgerView,
    group: Seq<char>,
    uuid: Seq<char>,
    modified_at: Timestamp,
)
    requires
        ledger.wf(),
    ensures
        ledger.after_transaction_delete(group, uuid, modified_at).wf(),
{
    let after = ledger.after_transaction_delete(group, uuid, modified_at);
    lemma_transaction_delete(ledger, group, uuid, modified_at, uuid);
    let i = index_where(ledger.transactions, transaction_has_uuid(uuid));
    lemma_index_where(ledger.transactions, transaction_has_uuid(uuid));
    if ledger.transaction_delete_applies(group, uuid, modified_at) {
        assert forall|t: int| 0 <= t < after.transactions.len() implies any_where(
            after.groups,
            has_token((#[trigger] after.transactions[t]).group),
        ) && among_members(after.transactions[t], after.members) && balanced(
            after.transactions[t],
        ) by {
            let x = if t < i {
                t
            } else {
                t + 1
            };
            assert(after.transactions[t] == ledger.transactions[x]);
            assert(any_where(ledger.groups, has_token(ledger.transactions[x].group)));
            assert(among_members(ledger.transactions[x], ledger.members));
            assert(balanced(ledger.transactions[x]));
        }
    }
}

/// Two writes of the same transaction converge: whichever arrives first, the
/// one modified later is stored in the end, unless what was stored before is
/// as recent as that one.
pub proof fn lemma_transaction_writes_converge(
    ledger: LedgerView,
    group: Seq<char>,
    first: TransactionQuery,
    second: TransactionQuery,
)
    requires
        distinct_by(ledger.transactions, transaction_uuid()),
        first.uuid@ == second.uuid@,
        first.modified_at.before(second.modified_at),
        match ledger.stored_transaction(second.uuid@) {
            Some(stored) => stored.modified_at.before(second.modified_at),
            None => true,
        },
    ensures
        ledger.after_transaction_write(group, first).after_transaction_write(
            group,
            second,
        ).stored_transaction(second.uuid@) == Some(stored_form(group, second)),
        ledger.after_transaction_write(group, second).after_transaction_write(
            group,
            first,
        ).stored_transaction(second.uuid@) == Some(stored_form(group, second)),
{
    lemma_transaction_write(ledger, group, first, first.uuid@);
    lemma_transaction_write(
        ledger.after_transaction_write(group, first),
        group,
        second,
        second.uuid@,
    );
    lemma_transaction_write(ledger, group, second, second.uuid@);
    lemma_transaction_write(
        ledger.after_transaction_write(group, second),
        group,
        first,
        first.uuid@,
    );
}

/// A delete dated before the stored transaction was modified, or at that very
/// time, leaves it as it is; a delete dated later removes it from its group.
pub proof fn lemma_transaction_delete_by_date(
    ledger: LedgerView,
    stored: TransactionView,
    modified_at: Timestamp,
)
    requires
        distinct_by(ledger.transactions, transaction_uuid()),
        ledger.stored_transaction(stored.uuid) == Some(stored),
    ensures
        !stored.modified_at.before(modified_at) ==> ledger.after_transaction_delete(
            stored.group,
            stored.uuid,
            modified_at,
        ) == ledger,
        stored.modified_at.before(modified_at) ==> ledger.after_transaction_delete(
            stored.group,
            stored.uuid,
            modified_at,
        ).stored_transaction(stored.uuid) is None,
{
    lemma_transaction_delete(ledger, stored.group, stored.uuid, modified_at, stored.uuid);
}

/// Every stored transaction of a well-formed ledger reads as one whose shares
/// add up to its amount.
pub proof fn lemma_shown_transaction_adds_up(ledger: LedgerView, uuid: Seq<char>)
    requires
        ledger.wf(),
        ledger.stored_transaction(uuid) is Some,
    ensures
        adds_up(
            shown_transaction(ledger.stored_transaction(uuid)->0, ledger.members),
        ),
{
    let i = index_where(ledger.transactions, transaction_has_uuid(uuid));
    lemma_index_where(ledger.transactions, transaction_has_uuid(uuid));
    let stored = ledger.transactions[i];
    assert(balanced(stored));
    lemma_shown_shares_total(stored.debts, ledger.members);
}

/// After a valid transaction has been written, a transaction is stored under
/// its uuid, and it reads as one whose shares add up to its amount: the
/// written one where the write applied, else the one that was stored before.
pub proof fn lemma_written_transaction_adds_up(
    ledger: LedgerView,
    group: Seq<char>,
    transaction: TransactionQuery,
)
    requires
        ledger.wf(),
        any_where(ledger.groups, has_token(group)),
        is_valid(&transaction),
        names_members(ledger.members, group, transaction),
        one_share_each(transaction),
    ensures
        ledger.after_transaction_write(group, transaction).wf(),
        ledger.after_transaction_write(group, transaction).stored_transaction(transaction.uuid@)
            is Some,
        ledger.transaction_write_applies(transaction) ==> ledger.after_transaction_write(
            group,
            transaction,
        ).stored_transaction(transaction.uuid@) == Some(stored_form(group, transaction)),
        adds_up(
            shown_transaction(
                ledger.after_transaction_write(group, transaction).stored_transaction(
                    transaction.uuid@,
                )->0,
                ledger.after_transaction_write(group, transaction).members,
            ),
        ),
{
    lemma_transaction_write_wf(ledger, group, transaction);
    lemma_transaction_write(ledger, group, transaction, transaction.uuid@);
    lemma_shown_transaction_adds_up(
        ledger.after_transaction_write(group, transaction),
        transaction.uuid@,
    );
}

/// Every transaction that a well-formed ledger lists reads as one whose
/// shares add up to its amount.
pub proof fn lemma_shown_transactions_add_up(ledger: LedgerView, group: Seq<char>)
    requires
        ledger.wf(),
    ensures
        forall|i: int|
            0 <= i < shown_transactions(ledger.transactions, ledger.members, group).len()
                ==> adds_up(
                #[trigger] shown_transactions(ledger.transactions, ledger.members, group)[i],
            ),
{
    lemma_shown_prefix_adds_up(ledger, group, ledger.transactions.len() as int);
    assert(ledger.transactions.take(ledger.transactions.len() as int) =~= ledger.transactions);
}

/// The same of the first `n` stored transactions.
proof fn lemma_shown_prefix_adds_up(ledger: LedgerView, group: Seq<char>, n: int)
    requires
        ledger.wf(),
        0 <= n <= ledger.transactions.len(),
    ensures
        forall|i: int|
            0 <= i < shown_transactions(ledger.transactions.take(n), ledger.members, group).len()
                ==> adds_up(
                #[trigger] shown_transactions(
                    ledger.transactions.take(n),
                    ledger.members,
                    group,
                )[i],
            ),
    decreases n,
{
    if n > 0 {
        let rows = ledger.transactions.take(n);
        lemma_shown_prefix_adds_up(ledger, group, n - 1);
        assert(rows.drop_last() =~= ledger.transactions.take(n - 1));
        assert(rows.last() == ledger.transactions[n - 1]);
        assert(balanced(ledger.transactions[n - 1]));
        lemma_shown_shares_total(rows.last().debts, ledger.members);
        let before = shown_transactions(rows.drop_last(), ledger.members, group);
        let shown = shown_transactions(rows, ledger.members, group);
        assert forall|i: int| 0 <= i < shown.len() implies
            adds_up(#[trigger] shown[i]) by {
            if i < before.len() {
                assert(shown[i] == before[i]);
            } else {
                assert(shown[i] == shown_transaction(rows.last(), ledger.members));
            }
        }
    }
}

} // verus!
