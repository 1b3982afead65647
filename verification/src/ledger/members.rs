//! How writes and deletes of members change the ledger.

use vstd::prelude::*;
use crate::entrypoint::group_members::{truncated, GroupMember, GroupMemberView};
use crate::entrypoint::groups::has_token;
use crate::ledger::state::{
    among_members, balanced, debt_member, has_uuid, is_called, is_member, member_name,
    member_uuid, shares_total, transaction_uuid, DebtView, LedgerView, MemberView, TransactionView,
};
use crate::number::{lemma_plus, lemma_plus_nothing, max_places};
use crate::table::{
    any_where, distinct_by, index_where, keep_where, lemma_index_where, lemma_index_where_is,
    lemma_keep_where, lemma_keep_where_distinct, lemma_remove_distinct,
};

verus! {

/// The views of a list of members as callers send them, in order.
pub open spec fn member_list_views(members: Seq<GroupMember>) -> Seq<GroupMemberView> {
    Seq::new(members.len(), |i: int| members[i]@)
}

/// The row that stores a member that is new to the ledger.
pub open spec fn new_member_row(group: Seq<char>, member: GroupMemberView) -> MemberView {
    MemberView {
        group,
        uuid: member.uuid,
        nickname: truncated(member.nickname),
        modified_at: member.modified_at,
        user_id: None,
    }
}

/// The row of a stored member once it has been written over.
pub open spec fn updated_member_row(stored: MemberView, member: GroupMemberView) -> MemberView {
    MemberView {
        nickname: truncated(member.nickname),
        modified_at: member.modified_at,
        ..stored
    }
}

/// Picks the shares that the member `uuid` does not owe.
pub open spec fn not_owed_by(uuid: Seq<char>) -> spec_fn(DebtView) -> bool {
    |d: DebtView| d.member != uuid
}

/// The member `uuid` has paid the transaction, or owes a share of it, and
/// the amount in question is not zero.
pub open spec fn involves(transaction: TransactionView, uuid: Seq<char>) -> bool {
    ||| transaction.paid_by == uuid && !transaction.amount.is_zero()
    ||| exists|k: int|
        0 <= k < transaction.debts.len() && (#[trigger] transaction.debts[k]).member == uuid
            && !transaction.debts[k].amount.is_zero()
}

/// No transaction involves the member `uuid`.
pub open spec fn is_clear(transactions: Seq<TransactionView>, uuid: Seq<char>) -> bool {
    forall|t: int| 0 <= t < transactions.len() ==> !involves(#[trigger] transactions[t], uuid)
}

/// The transaction without the shares of the member `uuid`.
pub open spec fn without_shares_of(transaction: TransactionView, uuid: Seq<char>)
    -> TransactionView {
    TransactionView { debts: keep_where(transaction.debts, not_owed_by(uuid)), ..transaction }
}

/// The transactions without the shares of the member `uuid`.
pub open spec fn all_without_shares_of(transactions: Seq<TransactionView>, uuid: Seq<char>) -> Seq<
    TransactionView,
> {
    Seq::new(transactions.len(), |t: int| without_shares_of(transactions[t], uuid))
}

/// The members of a group as a caller reads them, in the order in which they
/// are stored.
pub open spec fn shown_members(members: Seq<MemberView>, group: Seq<char>) -> Seq<GroupMemberView>
    decreases members.len(),
{
    if members.len() == 0 {
        Seq::empty()
    } else if members.last().group == group {
        shown_members(members.drop_last(), group).push(
            GroupMemberView {
                uuid: members.last().uuid,
                nickname: members.last().nickname,
                modified_at: members.last().modified_at,
            },
        )
    } else {
        shown_members(members.drop_last(), group)
    }
}

impl LedgerView {
    /// A member of `group` is called `nickname`.
    pub open spec fn nickname_taken(self, group: Seq<char>, nickname: Seq<char>) -> bool {
        any_where(self.members, is_called(group, nickname))
    }

    /// The stored member with the given uuid.
    pub open spec fn stored_member(self, uuid: Seq<char>) -> Option<MemberView> {
        let i = index_where(self.members, has_uuid(uuid));
        if i < self.members.len() {
            Some(self.members[i])
        } else {
            None
        }
    }

    /// Whether writing `member` into `group` changes the ledger. It does not
    /// where the nickname, cut to its length, is taken in the group already;
    /// where the uuid belongs to a member of another group; and where the
    /// stored member was not modified earlier.
    pub open spec fn member_write_applies(self, group: Seq<char>, member: GroupMemberView) -> bool {
        &&& !self.nickname_taken(group, truncated(member.nickname))
        &&& match self.stored_member(member.uuid) {
            Some(stored) => stored.group == group && stored.modified_at.before(member.modified_at),
            None => true,
        }
    }

    /// The ledger after `member` has been written into `group`.
    pub open spec fn after_member_write(self, group: Seq<char>, member: GroupMemberView)
        -> LedgerView {
        let i = index_where(self.members, has_uuid(member.uuid));
        if !self.member_write_applies(group, member) {
            self
        } else if i < self.members.len() {
            LedgerView {
                members: self.members.update(i, updated_member_row(self.members[i], member)),
                ..self
            }
        } else {
            LedgerView { members: self.members.push(new_member_row(group, member)), ..self }
        }
    }

    /// The ledger after the members have been written into `group`, one after
    /// the other.
    pub open spec fn after_member_writes(self, group: Seq<char>, members: Seq<GroupMemberView>)
        -> LedgerView
        decreases members.len(),
    {
        if members.len() == 0 {
            self
        } else {
            self.after_member_writes(group, members.drop_last()).after_member_write(
                group,
                members.last(),
            )
        }
    }

    /// Whether a delete of `member` from `group` removes it: the member is
    /// stored in that group, no transaction involves it, and it was modified
    /// before the delete.
    pub open spec fn member_delete_applies(self, group: Seq<char>, member: GroupMemberView)
        -> bool {
        match self.stored_member(member.uuid) {
            Some(stored) => stored.group == group && is_clear(self.transactions, member.uuid)
                && stored.modified_at.before(member.modified_at),
            None => false,
        }
    }

    /// The ledger after a delete of `member` from `group`: where the delete
    /// applies, the member goes, and with it the shares of zero that it had.
    pub open spec fn after_member_delete(self, group: Seq<char>, member: GroupMemberView)
        -> LedgerView {
        if self.member_delete_applies(group, member) {
            LedgerView {
                members: self.members.remove(index_where(self.members, has_uuid(member.uuid))),
                transactions: all_without_shares_of(self.transactions, member.uuid),
                ..self
            }
        } else {
            self
        }
    }

    /// The ledger after deletes of the members from `group`, one after the
    /// other.
    pub open spec fn after_member_deletes(self, group: Seq<char>, members: Seq<GroupMemberView>)
        -> LedgerView
        decreases members.len(),
    {
        if members.len() == 0 {
            self
        } else {
            self.after_member_deletes(group, members.drop_last()).after_member_delete(
                group,
                members.last(),
            )
        }
    }
}

/// Writing a member into a stored group keeps the ledger well formed.
pub proof fn lemma_member_write_wf(ledger: LedgerView, group: Seq<char>, member: GroupMemberView)
    requires
        ledger.wf(),
        any_where(ledger.groups, has_token(group)),
    ensures
        ledger.after_member_write(group, member).wf(),
{
    let after = ledger.after_member_write(group, member);
    let i = index_where(ledger.members, has_uuid(member.uuid));
    lemma_index_where(ledger.members, has_uuid(member.uuid));
    if ledger.member_write_applies(group, member) {
        let nickname = truncated(member.nickname);
        assert forall|q: int| 0 <= q < ledger.members.len() implies !is_called(group, nickname)(
            #[trigger] ledger.members[q],
        ) by {}
        assert forall|a: int, b: int| 0 <= a < b < after.members.len() implies member_uuid()(
            #[trigger] after.members[a],
        ) != member_uuid()(#[trigger] after.members[b]) && member_name()(after.members[a])
            != member_name()(after.members[b]) by {
            if a < ledger.members.len() && b < ledger.members.len() {
                assert(member_uuid()(ledger.members[a]) != member_uuid()(ledger.members[b]));
                assert(member_name()(ledger.members[a]) != member_name()(ledger.members[b]));
                assert(!is_called(group, nickname)(ledger.members[a]));
                assert(!is_called(group, nickname)(ledger.members[b]));
            } else {
                assert(!has_uuid(member.uuid)(ledger.members[a]));
                assert(!is_called(group, nickname)(ledger.members[a]));
            }
        }
        assert forall|q: int| 0 <= q < after.members.len() implies any_where(
            after.groups,
            has_token((#[trigger] after.members[q]).group),
        ) by {
            if q < ledger.members.len() {
                assert(any_where(ledger.groups, has_token(ledger.members[q].group)));
            }
        }
        assert forall|g: Seq<char>, u: Seq<char>|
            any_where(ledger.members, is_member(g, u)) implies any_where(
            after.members,
            is_member(g, u),
        ) by {
            let q = choose|q: int|
                0 <= q < ledger.members.len() && is_member(g, u)(#[trigger] ledger.members[q]);
            assert(is_member(g, u)(after.members[q]));
        }
        assert forall|t: int| 0 <= t < after.transactions.len() implies among_members(
            #[trigger] after.transactions[t],
            after.members,
        ) by {
            let tx = ledger.transactions[t];
            assert(among_members(tx, ledger.members));
            assert forall|k: int| 0 <= k < tx.debts.len() implies any_where(
                after.members,
                is_member(tx.group, (#[trigger] tx.debts[k]).member),
            ) by {
                assert(any_where(ledger.members, is_member(tx.group, tx.debts[k].member)));
            }
        }
    }
}

/// Writing members into a stored group keeps the ledger well formed, and
/// leaves the groups and the transactions as they were.
pub proof fn lemma_member_writes_wf(
    ledger: LedgerView,
    group: Seq<char>,
    members: Seq<GroupMemberView>,
)
    requires
        ledger.wf(),
        any_where(ledger.groups, has_token(group)),
    ensures
        ledger.after_member_writes(group, members).wf(),
        ledger.after_member_writes(group, members).groups == ledger.groups,
        ledger.after_member_writes(group, members).transactions == ledger.transactions,
    decreases members.len(),
{
    if members.len() > 0 {
        lemma_member_writes_wf(ledger, group, members.drop_last());
        lemma_member_write_wf(
            ledger.after_member_writes(group, members.drop_last()),
            group,
            members.last(),
        );
    }
}

/// What a write stores: under the uuid of the incoming member, the written
/// row where the write applies and what was stored before where it does
/// not; and every other member as it was.
pub proof fn lemma_member_write(ledger: LedgerView, group: Seq<char>, member: GroupMemberView)
    requires
        distinct_by(ledger.members, member_uuid()),
    ensures
        distinct_by(ledger.after_member_write(group, member).members, member_uuid()),
        ledger.after_member_write(group, member).stored_member(member.uuid) == (
        if ledger.member_write_applies(group, member) {
            match ledger.stored_member(member.uuid) {
                Some(stored) => Some(updated_member_row(stored, member)),
                None => Some(new_member_row(group, member)),
            }
        } else {
            ledger.stored_member(member.uuid)
        }),
        forall|q: int|
            0 <= q < ledger.after_member_write(group, member).members.len() ==> (
            #[trigger] ledger.after_member_write(group, member).members[q]).uuid == member.uuid
                || (q < ledger.members.len() && ledger.after_member_write(group, member).members[q]
                == ledger.members[q]),
{
    let after = ledger.after_member_write(group, member);
    let i = index_where(ledger.members, has_uuid(member.uuid));
    lemma_index_where(ledger.members, has_uuid(member.uuid));
    if ledger.member_write_applies(group, member) {
        assert forall|a: int, b: int| 0 <= a < b < after.members.len() implies member_uuid()(
            #[trigger] after.members[a],
        ) != member_uuid()(#[trigger] after.members[b]) by {
            if a < ledger.members.len() && b < ledger.members.len() {
                assert(member_uuid()(ledger.members[a]) != member_uuid()(ledger.members[b]));
            } else {
                assert(!has_uuid(member.uuid)(ledger.members[a]));
            }
        }
        assert forall|q: int| 0 <= q < i implies !has_uuid(member.uuid)(
            #[trigger] after.members[q],
        ) by {
            assert(after.members[q] == ledger.members[q]);
        }
        assert(has_uuid(member.uuid)(after.members[i]));
        lemma_index_where_is(after.members, has_uuid(member.uuid), i);
    }
}

/// Two writes of the same member into a group converge: whichever arrives
/// first, the one modified later is stored in the end. This holds where the
/// later write can be stored at all: its nickname, cut to its length, is not
/// taken in the group and differs from that of the earlier write, and the
/// member, if it is stored, belongs to the group and was modified earlier.
pub proof fn lemma_member_writes_converge(
    ledger: LedgerView,
    group: Seq<char>,
    first: GroupMemberView,
    second: GroupMemberView,
)
    requires
        distinct_by(ledger.members, member_uuid()),
        first.uuid == second.uuid,
        first.modified_at.before(second.modified_at),
        truncated(first.nickname) != truncated(second.nickname),
        ledger.member_write_applies(group, second),
    ensures
        ledger.after_member_write(group, first).after_member_write(group, second).stored_member(
            second.uuid,
        ) == ledger.after_member_write(group, second).after_member_write(
            group,
            first,
        ).stored_member(second.uuid),
        ledger.after_member_write(group, second).after_member_write(group, first).stored_member(
            second.uuid,
        ) == (match ledger.stored_member(second.uuid) {
            Some(stored) => Some(updated_member_row(stored, second)),
            None => Some(new_member_row(group, second)),
        }),
{
    let uuid = second.uuid;
    let name = truncated(second.nickname);
    let one = ledger.after_member_write(group, first);
    lemma_member_write(ledger, group, first);
    lemma_member_write(ledger, group, second);
    lemma_member_write(ledger.after_member_write(group, second), group, first);
    lemma_index_where(ledger.members, has_uuid(uuid));
    lemma_index_where(one.members, has_uuid(uuid));
    // After the earlier write the later one can still be stored.
    assert forall|q: int| 0 <= q < one.members.len() implies !is_called(group, name)(
        #[trigger] one.members[q],
    ) by {
        if one.members[q].uuid == uuid {
            let i = index_where(one.members, has_uuid(uuid));
            if q < i {
                assert(!has_uuid(uuid)(one.members[q]));
            }
            if i < q {
                assert(member_uuid()(one.members[i]) != member_uuid()(one.members[q]));
            }
            assert(q == i);
            if ledger.stored_member(uuid) is Some {
                let j = index_where(ledger.members, has_uuid(uuid));
                assert(!is_called(group, name)(ledger.members[j]));
            }
        } else {
            assert(!is_called(group, name)(ledger.members[q]));
        }
    }
    assert(one.member_write_applies(group, second));
    lemma_member_write(one, group, second);
}

/// The sum of shares is written in canonical form.
pub proof fn lemma_shares_total_canonical(debts: Seq<DebtView>)
    ensures
        shares_total(debts).canonical(),
{
    if debts.len() > 0 {
        let rest = shares_total(debts.drop_last());
        let k = max_places(rest.places, debts.last().amount.places);
        lemma_plus(rest, debts.last().amount, k);
    }
}

/// Shares of zero add nothing: without them the sum is the same.
pub proof fn lemma_total_without_zero_shares(debts: Seq<DebtView>, uuid: Seq<char>)
    requires
        forall|k: int|
            0 <= k < debts.len() && (#[trigger] debts[k]).member == uuid
                ==> debts[k].amount.is_zero(),
    ensures
        shares_total(keep_where(debts, not_owed_by(uuid))) == shares_total(debts),
    decreases debts.len(),
{
    if debts.len() > 0 {
        let rest = debts.drop_last();
        assert forall|k: int| 0 <= k < rest.len() && (#[trigger] rest[k]).member == uuid implies
            rest[k].amount.is_zero() by {
            assert(rest[k] == debts[k]);
        }
        lemma_total_without_zero_shares(rest, uuid);
        assert(debts.last() == debts[debts.len() - 1]);
        if debts.last().member == uuid {
            lemma_shares_total_canonical(rest);
            lemma_plus_nothing(shares_total(rest), debts.last().amount);
        } else {
            assert(keep_where(rest, not_owed_by(uuid)).push(debts.last()).drop_last()
                =~= keep_where(rest, not_owed_by(uuid)));
        }
    }
}

/// Deleting a member keeps the ledger well formed.
pub proof fn lemma_member_delete_wf(ledger: LedgerView, group: Seq<char>, member: GroupMemberView)
    requires
        ledger.wf(),
    ensures
        ledger.after_member_delete(group, member).wf(),
        ledger.after_member_delete(group, member).groups == ledger.groups,
{
    let after = ledger.after_member_delete(group, member);
    let uuid = member.uuid;
    let i = index_where(ledger.members, has_uuid(uuid));
    lemma_index_where(ledger.members, has_uuid(uuid));
    if ledger.member_delete_applies(group, member) {
        lemma_remove_distinct(ledger.members, member_uuid(), i);
        lemma_remove_distinct(ledger.members, member_name(), i);
        assert forall|q: int| 0 <= q < after.members.len() implies any_where(
            after.groups,
            has_token((#[trigger] after.members[q]).group),
        ) by {
            let x = if q < i {
                q
            } else {
                q + 1
            };
            assert(after.members[q] == ledger.members[x]);
            assert(any_where(ledger.groups, has_token(ledger.members[x].group)));
        }
        assert forall|g: Seq<char>, u: Seq<char>|
            u != uuid && any_where(ledger.members, is_member(g, u)) implies any_where(
            after.members,
            is_member(g, u),
        ) by {
            let q = choose|q: int|
                0 <= q < ledger.members.len() && is_member(g, u)(#[trigger] ledger.members[q]);
            assert(q != i);
            let x = if q < i {
                q
            } else {
                q - 1
            };
            assert(after.members[x] == ledger.members[q]);
            assert(is_member(g, u)(after.members[x]));
        }
        assert forall|a: int, b: int| 0 <= a < b < after.transactions.len() implies
            transaction_uuid()(#[trigger] after.transactions[a]) != transaction_uuid()(
            #[trigger] after.transactions[b],
        ) by {
            assert(transaction_uuid()(ledger.transactions[a]) != transaction_uuid()(
                ledger.transactions[b],
            ));
        }
        assert forall|t: int| 0 <= t < after.transactions.len() implies any_where(
            after.groups,
            has_token((#[trigger] after.transactions[t]).group),
        ) && among_members(after.transactions[t], after.members) && balanced(
            after.transactions[t],
        ) by {
            let tx = ledger.transactions[t];
            let kept = after.transactions[t];
            assert(any_where(ledger.groups, has_token(tx.group)));
            assert(among_members(tx, ledger.members));
            assert(balanced(tx));
            assert(!involves(tx, uuid));
            lemma_keep_where(tx.debts, not_owed_by(uuid));
            lemma_keep_where_distinct(tx.debts, not_owed_by(uuid), debt_member());
            assert(tx.paid_by != uuid);
            assert forall|k: int| 0 <= k < kept.debts.len() implies any_where(
                after.members,
                is_member(kept.group, (#[trigger] kept.debts[k]).member),
            ) && !kept.debts[k].amount.is_negative() by {
                let q = choose|q: int| 0 <= q < tx.debts.len() && tx.debts[q] == kept.debts[k];
                assert(any_where(ledger.members, is_member(tx.group, tx.debts[q].member)));
                assert(!tx.debts[q].amount.is_negative());
            }
            assert forall|k: int| 0 <= k < tx.debts.len() && (#[trigger] tx.debts[k]).member
                == uuid implies tx.debts[k].amount.is_zero() by {}
            lemma_total_without_zero_shares(tx.debts, uuid);
        }
    }
}

/// Deleting members keeps the ledger well formed.
pub proof fn lemma_member_deletes_wf(
    ledger: LedgerView,
    group: Seq<char>,
    members: Seq<GroupMemberView>,
)
    requires
        ledger.wf(),
    ensures
        ledger.after_member_deletes(group, members).wf(),
        ledger.after_member_deletes(group, members).groups == ledger.groups,
    decreases members.len(),
{
    if members.len() > 0 {
        lemma_member_deletes_wf(ledger, group, members.drop_last());
        lemma_member_delete_wf(
            ledger.after_member_deletes(group, members.drop_last()),
            group,
            members.last(),
        );
    }
}

} // verus!
