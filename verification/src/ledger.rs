//! The ledger: what is stored of groups, members and transactions, and how
//! each request changes it.
//!
//! Rows are addressed by their public keys: a group by its token, a member and
//! a transaction by their uuid. Every write is guarded by `modified_at`, so
//! that the later write wins in whatever order the writes arrive. A store that
//! serves the same requests has to answer them as this one does.

pub mod groups;
pub mod members;
mod rows;
pub mod state;
pub mod transactions;

use vstd::prelude::*;
use crate::entrypoint::group_members::{
    is_prefix, truncate_nickname, truncated, GroupMember, GroupMemberView,
};
use crate::entrypoint::groups::{
    delete_group, find_group, has_token, lemma_group_write, stored_group, winner, write_group,
    GroupNoID,
};
use crate::entrypoint::transactions::{
    adds_up, check_transaction_validity, is_refusal_of, is_sorted_by_created_at, is_valid,
    lemma_sort_through, response_views, sort_by_created_at, sort_rows_by_created_at,
    TransactionDelete, TransactionQuery, TransactionResponse,
};
use crate::entrypoint::{AppError, ErrorKind};
use crate::ledger::groups::{groups_of_user, lemma_group_delete_wf, lemma_group_write_wf};
use crate::ledger::members::{
    lemma_member_deletes_wf, lemma_member_writes_wf, member_list_views, new_member_row,
    shown_members, updated_member_row,
};
use crate::ledger::rows::{
    debtors_are_members, debtors_distinct, find_member, find_transaction, is_group_member,
    members_outside, nickname_taken, show_transaction, stored_row, strip_shares,
    transactions_clear_of, transactions_outside,
};
use crate::ledger::state::{
    balanced, member_views, transaction_views, LedgerView, MemberRow, MemberView,
    StoredTransaction, TransactionView,
};
use crate::ledger::transactions::{
    lemma_shown_shares_total, lemma_shown_transactions_add_up, lemma_transaction_delete_wf,
    lemma_transaction_write_wf, names_members, one_share_each, shown_transaction,
    shown_transactions, stored_form, two_shares_text,
};
use crate::table::{any_where, lemma_index_where};
use crate::timestamp::Timestamp;

verus! {

/// The ledger of the shared expenses of any number of groups.
#[derive(Debug)]
pub struct Ledger {
    groups: Vec<GroupNoID>,
    members: Vec<MemberRow>,
    transactions: Vec<StoredTransaction>,
}

impl View for Ledger {
    type V = LedgerView;

    closed spec fn view(&self) -> LedgerView {
        LedgerView {
            groups: self.groups@,
            members: member_views(self.members@),
            transactions: transaction_views(self.transactions@),
        }
    }
}

impl Ledger {
    /// An empty ledger.
    pub fn new() -> (r: Ledger)
        ensures
            r@.wf(),
            r@.groups.len() == 0,
            r@.members.len() == 0,
            r@.transactions.len() == 0,
    {
        Ledger { groups: Vec::new(), members: Vec::new(), transactions: Vec::new() }
    }

    /// Creates the group, or updates it where it is stored and was modified
    /// earlier. Returns the group as it is stored then: the caller's where it
    /// was accepted, the stored one where it was not.
    pub fn create_or_update_group(&mut self, incoming: GroupNoID) -> (r: GroupNoID)
        requires
            old(self)@.wf(),
        ensures
            final(self)@.wf(),
            final(self)@ == old(self)@.after_group_write(incoming),
            r == winner(stored_group(old(self)@.groups, incoming.token@), incoming),
            stored_group(final(self)@.groups, incoming.token@) == Some(r),
    {
        proof {
            lemma_group_write_wf(self@, incoming);
            lemma_group_write(self@.groups, incoming, incoming.token@);
        }
        write_group(&mut self.groups, incoming)
    }

    /// The group with the given token.
    pub fn get_group(&self, token: &str) -> (r: Result<GroupNoID, AppError>)
        ensures
            match r {
                Ok(group) => stored_group(self@.groups, token@) == Some(group),
                Err(e) => stored_group(self@.groups, token@) is None && e.is_not_found(),
            },
    {
        let key = token.to_owned();
        match find_group(&self.groups, &key) {
            Some(i) => Ok(self.groups[i].clone()),
            None => Err(AppError::not_found()),
        }
    }

    /// The groups that the user `user_id` is a member of: one entry for each
    /// membership, in the order in which the members are stored.
    pub fn list_groups_by_user(&self, user_id: i32) -> (r: Vec<GroupNoID>)
        ensures
            r@ == groups_of_user(self@.groups, self@.members, user_id),
    {
        let ghost all = member_views(self.members@);
        let mut listed: Vec<GroupNoID> = Vec::new();
        let mut k: usize = 0;
        proof {
            assert(all.take(0) =~= Seq::<MemberView>::empty());
        }
        while k < self.members.len()
            invariant
                k <= self.members.len(),
                all == member_views(self.members@),
                listed@ == groups_of_user(self.groups@, all.take(k as int), user_id),
            decreases self.members.len() - k,
        {
            proof {
                assert(all.take(k + 1).drop_last() =~= all.take(k as int));
                assert(all.take(k + 1).last() == all[k as int]);
            }
            let wanted = match self.members[k].user_id {
                Some(id) => id == user_id,
                None => false,
            };
            if wanted {
                match find_group(&self.groups, &self.members[k].group) {
                    Some(i) => {
                        listed.push(self.groups[i].clone());
                    },
                    None => {},
                }
            }
            k = k + 1;
        }
        proof {
            assert(all.take(k as int) =~= all);
        }
        listed
    }

    /// Deletes the group if it is stored and was modified before
    /// `modified_at`, and with it its members and its transactions. Does
    /// nothing otherwise.
    pub fn delete_group(&mut self, token: &str, modified_at: Timestamp)
        requires
            old(self)@.wf(),
        ensures
            final(self)@.wf(),
            final(self)@ == old(self)@.after_group_delete(token@, modified_at),
    {
        let key = token.to_owned();
        proof {
            lemma_group_delete_wf(self@, token@, modified_at);
        }
        if delete_group(&mut self.groups, &key, modified_at) {
            let mut members: Vec<MemberRow> = Vec::new();
            let mut transactions: Vec<StoredTransaction> = Vec::new();
            core::mem::swap(&mut members, &mut self.members);
            core::mem::swap(&mut transactions, &mut self.transactions);
            self.members = members_outside(members, &key);
            self.transactions = transactions_outside(transactions, &key);
        }
    }
}

impl Ledger {
    /// The members of the group as callers read them, in the order in which
    /// they are stored. A group that is not stored has none.
    pub fn list_members(&self, token: &str) -> (r: Vec<GroupMember>)
        ensures
            member_list_views(r@) == shown_members(self@.members, token@),
    {
        let key = token.to_owned();
        let ghost all = member_views(self.members@);
        let mut listed: Vec<GroupMember> = Vec::new();
        let mut k: usize = 0;
        proof {
            assert(all.take(0) =~= Seq::<MemberView>::empty());
        }
        while k < self.members.len()
            invariant
                k <= self.members.len(),
                key@ == token@,
                all == member_views(self.members@),
                member_list_views(listed@) == shown_members(all.take(k as int), token@),
            decreases self.members.len() - k,
        {
            let ghost before = member_list_views(listed@);
            proof {
                assert(all.take(k + 1).drop_last() =~= all.take(k as int));
                assert(all.take(k + 1).last() == all[k as int]);
            }
            if self.members[k].group == key {
                listed.push(
                    GroupMember {
                        uuid: self.members[k].uuid.clone(),
                        nickname: self.members[k].nickname.clone(),
                        modified_at: self.members[k].modified_at,
                    },
                );
                proof {
                    assert(member_list_views(listed@) =~= before.push(
                        GroupMemberView {
                            uuid: all[k as int].uuid,
                            nickname: all[k as int].nickname,
                            modified_at: all[k as int].modified_at,
                        },
                    ));
                }
            }
            k = k + 1;
        }
        proof {
            assert(all.take(k as int) =~= all);
        }
        listed
    }

    /// Writes one member into the group `group`.
    fn write_member(&mut self, group: &String, member: GroupMember)
        ensures
            final(self)@ == old(self)@.after_member_write(group@, member@),
            is_prefix(truncated(member@.nickname), member@.nickname),
    {
        let ghost before = self@;
        let nickname = truncate_nickname(member.nickname.as_str());
        let found = find_member(&self.members, &member.uuid);
        if nickname_taken(&self.members, group, &nickname) {
            return ;
        }
        match found {
            Some(i) => {
                if self.members[i].group == *group && self.members[i].modified_at.is_before(
                    member.modified_at,
                ) {
                    self.members[i].nickname = nickname;
                    self.members[i].modified_at = member.modified_at;
                    proof {
                        assert(member_views(self.members@) =~= before.members.update(
                            i as int,
                            updated_member_row(
                                before.members[i as int],
                                member@,
                            ),
                        ));
                    }
                }
            },
            None => {
                self.members.push(
                    MemberRow {
                        group: group.clone(),
                        uuid: member.uuid,
                        nickname,
                        modified_at: member.modified_at,
                        user_id: None,
                    },
                );
                proof {
                    assert(member_views(self.members@) =~= before.members.push(
                        new_member_row(group@, member@),
                    ));
                }
            },
        }
    }

    /// Adds the members to the group, or updates those that are stored and
    /// were modified earlier, one after the other. A nickname is cut to its
    /// first 250 grapheme clusters. A member whose nickname is taken in the
    /// group already is passed over, and so is one whose uuid belongs to a
    /// member of another group. Returns the members of the group as they are
    /// stored then; fails where the group is not stored.
    pub fn add_or_update_members(&mut self, token: &str, members: Vec<GroupMember>) -> (r: Result<
        Vec<GroupMember>,
        AppError,
    >)
        requires
            old(self)@.wf(),
        ensures
            final(self)@.wf(),
            match r {
                Ok(listed) => {
                    &&& any_where(old(self)@.groups, has_token(token@))
                    &&& final(self)@ == old(self)@.after_member_writes(
                        token@,
                        member_list_views(members@),
                    )
                    &&& member_list_views(listed@) == shown_members(final(self)@.members, token@)
                    &&& final(self)@.groups == old(self)@.groups
                    &&& final(self)@.transactions == old(self)@.transactions
                    &&& forall|k: int|
                        0 <= k < members@.len() ==> is_prefix(
                            truncated((#[trigger] members@[k]).nickname@),
                            members@[k].nickname@,
                        )
                },
                Err(e) => !any_where(old(self)@.groups, has_token(token@)) && e.is_not_found()
                    && final(self)@ == old(self)@,
            },
    {
        let key = token.to_owned();
        proof {
            lemma_index_where(self@.groups, has_token(token@));
        }
        if find_group(&self.groups, &key).is_none() {
            return Err(AppError::not_found());
        }
        let ghost start = self@;
        let ghost all = member_list_views(members@);
        let mut k: usize = 0;
        proof {
            assert(all.take(0) =~= Seq::<GroupMemberView>::empty());
        }
        while k < members.len()
            invariant
                k <= members.len(),
                key@ == token@,
                all == member_list_views(members@),
                start.wf(),
                any_where(start.groups, has_token(token@)),
                self@ == start.after_member_writes(token@, all.take(k as int)),
                forall|q: int|
                    0 <= q < k ==> is_prefix(
                        truncated((#[trigger] members@[q]).nickname@),
                        members@[q].nickname@,
                    ),
            decreases members.len() - k,
        {
            proof {
                assert(all.take(k + 1).drop_last() =~= all.take(k as int));
                assert(all.take(k + 1).last() == all[k as int]);
            }
            self.write_member(&key, members[k].clone());
            k = k + 1;
        }
        proof {
            assert(all.take(k as int) =~= all);
            lemma_member_writes_wf(start, token@, all);
        }
        Ok(self.list_members(token))
    }

    /// Deletes one member from the group `group`, if the delete applies.
    fn delete_member(&mut self, group: &String, member: &GroupMember)
        ensures
            final(self)@ == old(self)@.after_member_delete(group@, member@),
    {
        let ghost before = self@;
        match find_member(&self.members, &member.uuid) {
            Some(i) => {
                if self.members[i].group == *group && transactions_clear_of(
                    &self.transactions,
                    &member.uuid,
                ) && self.members[i].modified_at.is_before(member.modified_at) {
                    let _ = self.members.remove(i);
                    strip_shares(&mut self.transactions, &member.uuid);
                    proof {
                        assert(member_views(self.members@) =~= before.members.remove(i as int));
                    }
                }
            },
            None => {},
        }
    }

    /// Deletes the members from the group, one after the other. A member goes
    /// only if it is stored in the group, was modified before the delete, and
    /// no transaction involves it: it has paid none, and owes no share other
    /// than of zero. Any other member is passed over. Fails where the group is
    /// not stored.
    pub fn delete_members(&mut self, token: &str, members: Vec<GroupMember>) -> (r: Result<
        (),
        AppError,
    >)
        requires
            old(self)@.wf(),
        ensures
            final(self)@.wf(),
            match r {
                Ok(_) => {
                    &&& any_where(old(self)@.groups, has_token(token@))
                    &&& final(self)@ == old(self)@.after_member_deletes(
                        token@,
                        member_list_views(members@),
                    )
                    &&& final(self)@.groups == old(self)@.groups
                },
                Err(e) => !any_where(old(self)@.groups, has_token(token@)) && e.is_not_found()
                    && final(self)@ == old(self)@,
            },
    {
        let key = token.to_owned();
        proof {
            lemma_index_where(self@.groups, has_token(token@));
        }
        if find_group(&self.groups, &key).is_none() {
            return Err(AppError::not_found());
        }
        let ghost start = self@;
        let ghost all = member_list_views(members@);
        let mut k: usize = 0;
        proof {
            assert(all.take(0) =~= Seq::<GroupMemberView>::empty());
        }
        while k < members.len()
            invariant
                k <= members.len(),
                key@ == token@,
                all == member_list_views(members@),
                self@ == start.after_member_deletes(token@, all.take(k as int)),
            decreases members.len() - k,
        {
            proof {
                assert(all.take(k + 1).drop_last() =~= all.take(k as int));
                assert(all.take(k + 1).last() == all[k as int]);
            }
            self.delete_member(&key, &members[k]);
            k = k + 1;
        }
        proof {
            assert(all.take(k as int) =~= all);
            lemma_member_deletes_wf(start, token@, all);
        }
        Ok(())
    }
}

impl Ledger {
    /// Creates the transaction in the group, or lets it take the place of the
    /// stored transaction of the same uuid where that one was modified
    /// earlier; its shares then take the place of the stored shares. A write
    /// that is not newer than what is stored changes nothing, and succeeds.
    ///
    /// The transaction is refused where it breaks a validity rule. The write
    /// fails as not found where the group is not stored, or where the one who
    /// paid or one who owes a share is no member of the group; and as a
    /// failure of the store where a member owes two shares.
    pub fn create_or_update_transaction(
        &mut self,
        token: &str,
        transaction: TransactionQuery,
    ) -> (r: Result<(), AppError>)
        requires
            old(self)@.wf(),
        ensures
            final(self)@.wf(),
            match r {
                Ok(_) => {
                    &&& is_valid(&transaction)
                    &&& any_where(old(self)@.groups, has_token(token@))
                    &&& names_members(old(self)@.members, token@, transaction)
                    &&& one_share_each(transaction)
                    &&& final(self)@ == old(self)@.after_transaction_write(token@, transaction)
                },
                Err(e) => {
                    &&& final(self)@ == old(self)@
                    &&& if !is_valid(&transaction) {
                        e.kind == ErrorKind::Validation && (match e.content {
                            Some(reason) => is_refusal_of(&transaction, reason@),
                            None => false,
                        })
                    } else if !any_where(old(self)@.groups, has_token(token@)) || !names_members(
                        old(self)@.members,
                        token@,
                        transaction,
                    ) {
                        e.is_not_found()
                    } else {
                        !one_share_each(transaction) && e.kind == ErrorKind::Storage && e.error@
                            == two_shares_text() && e.content is None
                    }
                },
            },
    {
        match check_transaction_validity(&transaction) {
            Err(reason) => {
                return Err(AppError::validation(reason));
            },
            Ok(_) => {},
        }
        let key = token.to_owned();
        proof {
            lemma_index_where(self@.groups, has_token(token@));
        }
        if find_group(&self.groups, &key).is_none() {
            return Err(AppError::not_found());
        }
        if !is_group_member(&self.members, &key, &transaction.paid_by.uuid) {
            return Err(AppError::not_found());
        }
        if !debtors_are_members(&self.members, &key, &transaction.debtors) {
            return Err(AppError::not_found());
        }
        if !debtors_distinct(&transaction.debtors) {
            return Err(AppError::storage("A member owes more than one share".to_owned()));
        }
        let ghost before = self@;
        proof {
            lemma_transaction_write_wf(before, token@, transaction);
        }
        match find_transaction(&self.transactions, &transaction.uuid) {
            Some(i) => {
                if self.transactions[i].modified_at.is_before(transaction.modified_at) {
                    let row = stored_row(key, transaction);
                    self.transactions.set(i, row);
                    proof {
                        assert(transaction_views(self.transactions@) =~= before.transactions.update(
                            i as int,
                            stored_form(token@, transaction),
                        ));
                    }
                }
            },
            None => {
                let row = stored_row(key, transaction);
                self.transactions.push(row);
                proof {
                    assert(transaction_views(self.transactions@) =~= before.transactions.push(
                        stored_form(token@, transaction),
                    ));
                }
            },
        }
        Ok(())
    }

    /// Deletes the transaction from the group if it is stored there and was
    /// modified before the request, and its shares with it. Does nothing
    /// otherwise, and succeeds. Fails where the group is not stored.
    pub fn delete_transaction(&mut self, token: &str, request: TransactionDelete) -> (r: Result<
        (),
        AppError,
    >)
        requires
            old(self)@.wf(),
        ensures
            final(self)@.wf(),
            match r {
                Ok(_) => any_where(old(self)@.groups, has_token(token@)) && final(self)@ == old(
                    self,
                )@.after_transaction_delete(token@, request.uuid@, request.modified_at),
                Err(e) => !any_where(old(self)@.groups, has_token(token@)) && e.is_not_found()
                    && final(self)@ == old(self)@,
            },
    {
        let key = token.to_owned();
        proof {
            lemma_index_where(self@.groups, has_token(token@));
            lemma_transaction_delete_wf(self@, token@, request.uuid@, request.modified_at);
        }
        if find_group(&self.groups, &key).is_none() {
            return Err(AppError::not_found());
        }
        let ghost before = self@;
        match find_transaction(&self.transactions, &request.uuid) {
            Some(i) => {
                if self.transactions[i].group == key && self.transactions[i].modified_at.is_before(
                    request.modified_at,
                ) {
                    let _ = self.transactions.remove(i);
                    proof {
                        assert(transaction_views(self.transactions@) =~= before.transactions.remove(
                            i as int,
                        ));
                    }
                }
            },
            None => {},
        }
        Ok(())
    }

    /// The transaction of the group with the given uuid, with its shares, as
    /// a caller reads it. Its shares add up to its amount.
    pub fn get_transaction(&self, token: &str, uuid: &str) -> (r: Result<
        TransactionResponse,
        AppError,
    >)
        requires
            self@.wf(),
        ensures
            match r {
                Ok(response) => match self@.stored_transaction(uuid@) {
                    Some(stored) => stored.group == token@ && response@ == shown_transaction(
                        stored,
                        self@.members,
                    ) && adds_up(response@),
                    None => false,
                },
                Err(e) => e.is_not_found() && (match self@.stored_transaction(uuid@) {
                    Some(stored) => stored.group != token@,
                    None => true,
                }),
            },
    {
        let key = token.to_owned();
        let wanted = uuid.to_owned();
        match find_transaction(&self.transactions, &wanted) {
            Some(i) => {
                if self.transactions[i].group == key {
                    proof {
                        let stored = transaction_views(self.transactions@)[i as int];
                        assert(balanced(stored));
                        lemma_shown_shares_total(stored.debts, self@.members);
                    }
                    Ok(show_transaction(&self.transactions[i], &self.members))
                } else {
                    Err(AppError::not_found())
                }
            },
            None => Err(AppError::not_found()),
        }
    }

    /// All the transactions of the group as a caller reads them, each with
    /// its shares, sorted by date with the earliest first. Transactions of
    /// the same date come in the order in which they are stored. A group that
    /// is not stored has none.
    pub fn list_transactions(&self, token: &str) -> (r: Vec<TransactionResponse>)
        requires
            self@.wf(),
        ensures
            response_views(r@) == sort_by_created_at(
                shown_transactions(self@.transactions, self@.members, token@),
            ),
            is_sorted_by_created_at(r@),
            forall|i: int| 0 <= i < r.len() ==> adds_up((#[trigger] r[i])@),
    {
        let key = token.to_owned();
        let ghost all = transaction_views(self.transactions@);
        let ghost members = member_views(self.members@);
        let mut listed: Vec<TransactionResponse> = Vec::new();
        let mut k: usize = 0;
        proof {
            assert(all.take(0) =~= Seq::<TransactionView>::empty());
        }
        while k < self.transactions.len()
            invariant
                k <= self.transactions.len(),
                key@ == token@,
                all == transaction_views(self.transactions@),
                members == member_views(self.members@),
                response_views(listed@) == shown_transactions(all.take(k as int), members, token@),
            decreases self.transactions.len() - k,
        {
            let ghost before = response_views(listed@);
            proof {
                assert(all.take(k + 1).drop_last() =~= all.take(k as int));
                assert(all.take(k + 1).last() == all[k as int]);
            }
            if self.transactions[k].group == key {
                listed.push(show_transaction(&self.transactions[k], &self.members));
                proof {
                    assert(response_views(listed@) =~= before.push(
                        shown_transaction(all[k as int], members),
                    ));
                }
            }
            k = k + 1;
        }
        proof {
            assert(all.take(k as int) =~= all);
            let f = |response: TransactionResponse| response@;
            lemma_sort_through(listed@, f);
            assert(listed@.map_values(f) =~= response_views(listed@));
            assert(sort_by_created_at(listed@).map_values(f) =~= response_views(
                sort_by_created_at(listed@),
            ));
            lemma_shown_transactions_add_up(self@, token@);
        }
        let ghost unsorted = listed@;
        let sorted = sort_rows_by_created_at(listed);
        proof {
            broadcast use vstd::seq_lib::group_to_multiset_ensures;

            assert forall|i: int| 0 <= i < sorted.len() implies adds_up(
                (#[trigger] sorted[i])@,
            ) by {
                assert(sorted@.contains(sorted[i]));
                assert(unsorted.to_multiset().count(sorted[i]) > 0);
                assert(unsorted.contains(sorted[i]));
                let q = choose|q: int| 0 <= q < unsorted.len() && unsorted[q] == sorted[i];
                assert(response_views(unsorted)[q] == unsorted[q]@);
            }
        }
        sorted
    }
}

} // verus!
