//! How writes and deletes of groups change the ledger.

use vstd::prelude::*;
use crate::entrypoint::groups::{
    group_delete_applies, groups_after_delete, groups_after_write, has_token, lemma_group_delete,
    lemma_group_write, stored_group, GroupNoID,
};
use crate::ledger::state::{
    among_members, balanced, is_member, member_name, member_uuid, outside_group,
    transaction_outside_group, transaction_uuid, LedgerView, MemberView,
};
use crate::table::{
    any_where, keep_where, lemma_index_where, lemma_keep_where, lemma_keep_where_distinct,
};
use crate::timestamp::Timestamp;

verus! {

/// The groups of the members that belong to the user `user_id`: one for each
/// such member, in the order of the members.
pub open spec fn groups_of_user(groups: Seq<GroupNoID>, members: Seq<MemberView>, user_id: i32)
    -> Seq<GroupNoID>
    decreases members.len(),
{
    if members.len() == 0 {
        Seq::empty()
    } else {
        let before = groups_of_user(groups, members.drop_last(), user_id);
        match stored_group(groups, members.last().group) {
            Some(group) => if members.last().user_id == Some(user_id) {
                before.push(group)
            } else {
                before
            },
            None => before,
        }
    }
}

impl LedgerView {
    /// The ledger after a group has been written.
    pub open spec fn after_group_write(self, incoming: GroupNoID) -> LedgerView {
        LedgerView { groups: groups_after_write(self.groups, incoming), ..self }
    }

    /// The ledger after a delete of the group `token` dated `modified_at`:
    /// where the delete applies, the group goes, and with it its members and
    /// its transactions.
    pub open spec fn after_group_delete(self, token: Seq<char>, modified_at: Timestamp)
        -> LedgerView {
        if group_delete_applies(self.groups, token, modified_at) {
            LedgerView {
                groups: groups_after_delete(self.groups, token, modified_at),
                members: keep_where(self.members, outside_group(token)),
                transactions: keep_where(self.transactions, transaction_outside_group(token)),
            }
        } else {
            self
        }
    }
}

/// Writing a group keeps the ledger well formed.
pub proof fn lemma_group_write_wf(ledger: LedgerView, incoming: GroupNoID)
    requires
        ledger.wf(),
    ensures
        ledger.after_group_write(incoming).wf(),
{
    let after = ledger.after_group_write(incoming);
    lemma_group_write(ledger.groups, incoming, incoming.token@);
    assert forall|token: Seq<char>| any_where(ledger.groups, has_token(token)) implies any_where(
        after.groups,
        has_token(token),
    ) by {
        lemma_group_write(ledger.groups, incoming, token);
        lemma_index_where(ledger.groups, has_token(token));
        lemma_index_where(after.groups, has_token(token));
    }
    assert forall|i: int| 0 <= i < after.members.len() implies any_where(
        after.groups,
        has_token((#[trigger] after.members[i]).group),
    ) by {
        assert(any_where(ledger.groups, has_token(ledger.members[i].group)));
    }
    assert forall|i: int| 0 <= i < after.transactions.len() implies any_where(
        after.groups,
        has_token((#[trigger] after.transactions[i]).group),
    ) by {
        assert(any_where(ledger.groups, has_token(ledger.transactions[i].group)));
    }
}

/// A member of a group other than `token` is still a member once the members
/// of `token` are gone.
proof fn lemma_member_kept(members: Seq<MemberView>, token: Seq<char>, group: Seq<char>, uuid: Seq<
    char,
>)
    requires
        group != token,
        any_where(members, is_member(group, uuid)),
    ensures
        any_where(keep_where(members, outside_group(token)), is_member(group, uuid)),
{
    let i = choose|i: int| 0 <= i < members.len() && is_member(group, uuid)(#[trigger] members[i]);
    lemma_keep_where(members, outside_group(token));
    let kept = keep_where(members, outside_group(token));
    assert(outside_group(token)(members[i]));
    assert(kept.contains(members[i]));
    let q = choose|q: int| 0 <= q < kept.len() && kept[q] == members[i];
    assert(is_member(group, uuid)(kept[q]));
}

/// Deleting a group keeps the ledger well formed.
pub proof fn lemma_group_delete_wf(ledger: LedgerView, token: Seq<char>, modified_at: Timestamp)
    requires
        ledger.wf(),
    ensures
        ledger.after_group_delete(token, modified_at).wf(),
{
    let after = ledger.after_group_delete(token, modified_at);
    if group_delete_applies(ledger.groups, token, modified_at) {
        lemma_group_delete(ledger.groups, token, modified_at, token);
        lemma_keep_where(ledger.members, outside_group(token));
        lemma_keep_where(ledger.transactions, transaction_outside_group(token));
        lemma_keep_where_distinct(ledger.members, outside_group(token), member_uuid());
        lemma_keep_where_distinct(ledger.members, outside_group(token), member_name());
        lemma_keep_where_distinct(
            ledger.transactions,
            transaction_outside_group(token),
            transaction_uuid(),
        );
        assert forall|other: Seq<char>|
            other != token && any_where(ledger.groups, has_token(other)) implies any_where(
            after.groups,
            has_token(other),
        ) by {
            lemma_group_delete(ledger.groups, token, modified_at, other);
            lemma_index_where(ledger.groups, has_token(other));
            lemma_index_where(after.groups, has_token(other));
        }
        assert forall|i: int| 0 <= i < after.members.len() implies any_where(
            after.groups,
            has_token((#[trigger] after.members[i]).group),
        ) by {
            let q = choose|q: int|
                0 <= q < ledger.members.len() && ledger.members[q] == after.members[i];
            assert(any_where(ledger.groups, has_token(ledger.members[q].group)));
        }
        assert forall|i: int| 0 <= i < after.transactions.len() implies any_where(
            after.groups,
            has_token((#[trigger] after.transactions[i]).group),
        ) && among_members(after.transactions[i], after.members) && balanced(
            after.transactions[i],
        ) by {
            let t = after.transactions[i];
            let q = choose|q: int|
                0 <= q < ledger.transactions.len() && ledger.transactions[q] == t;
            assert(any_where(ledger.groups, has_token(ledger.transactions[q].group)));
            assert(among_members(ledger.transactions[q], ledger.members));
            assert(balanced(ledger.transactions[q]));
            lemma_member_kept(ledger.members, token, t.group, t.paid_by);
            assert forall|k: int| 0 <= k < t.debts.len() implies any_where(
                after.members,
                is_member(t.group, (#[trigger] t.debts[k]).member),
            ) by {
                lemma_member_kept(ledger.members, token, t.group, t.debts[k].member);
            }
        }
    }
}

} // verus!
