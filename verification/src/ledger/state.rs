//! What the ledger holds: the rows, their values, and what holds of them
//! after every request.

use vstd::prelude::*;
use crate::decimal::Decimal;
use crate::entrypoint::groups::{has_token, tokens_distinct, GroupNoID};
use crate::number::Number;
use crate::table::{any_where, distinct_by};
use crate::timestamp::Timestamp;

verus! {

/// A stored member. It belongs to the group whose token it carries.
#[derive(Debug)]
pub struct MemberRow {
    pub group: String,
    pub uuid: String,
    pub nickname: String,
    pub modified_at: Timestamp,
    pub user_id: Option<i32>,
}

/// A stored member, by its values.
pub struct MemberView {
    pub group: Seq<char>,
    pub uuid: Seq<char>,
    pub nickname: Seq<char>,
    pub modified_at: Timestamp,
    pub user_id: Option<i32>,
}

impl View for MemberRow {
    type V = MemberView;

    open spec fn view(&self) -> MemberView {
        MemberView {
            group: self.group@,
            uuid: self.uuid@,
            nickname: self.nickname@,
            modified_at: self.modified_at,
            user_id: self.user_id,
        }
    }
}

/// A stored share of a transaction: what the member `member` owes of it.
#[derive(Debug)]
pub struct StoredDebt {
    pub id: i32,
    pub member: String,
    pub amount: Decimal,
}

/// A stored share, by its values.
pub struct DebtView {
    pub id: i32,
    pub member: Seq<char>,
    pub amount: Number,
}

impl View for StoredDebt {
    type V = DebtView;

    open spec fn view(&self) -> DebtView {
        DebtView { id: self.id, member: self.member@, amount: self.amount@ }
    }
}

/// A stored transaction with its shares. It belongs to the group whose token
/// it carries, and names the member who paid by that member's uuid.
#[derive(Debug)]
pub struct StoredTransaction {
    pub group: String,
    pub uuid: String,
    pub description: String,
    pub currency_id: String,
    pub paid_by: String,
    pub created_at: Timestamp,
    pub modified_at: Timestamp,
    pub amount: Decimal,
    pub exchange_rate: Decimal,
    pub debts: Vec<StoredDebt>,
}

/// A stored transaction with its shares, by its values.
pub struct TransactionView {
    pub group: Seq<char>,
    pub uuid: Seq<char>,
    pub description: Seq<char>,
    pub currency_id: Seq<char>,
    pub paid_by: Seq<char>,
    pub created_at: Timestamp,
    pub modified_at: Timestamp,
    pub amount: Number,
    pub exchange_rate: Number,
    pub debts: Seq<DebtView>,
}

/// The views of a list of shares, in order.
pub open spec fn debt_views(debts: Seq<StoredDebt>) -> Seq<DebtView> {
    Seq::new(debts.len(), |i: int| debts[i]@)
}

impl View for StoredTransaction {
    type V = TransactionView;

    open spec fn view(&self) -> TransactionView {
        TransactionView {
            group: self.group@,
            uuid: self.uuid@,
            description: self.description@,
            currency_id: self.currency_id@,
            paid_by: self.paid_by@,
            created_at: self.created_at,
            modified_at: self.modified_at,
            amount: self.amount@,
            exchange_rate: self.exchange_rate@,
            debts: debt_views(self.debts@),
        }
    }
}

/// The views of a list of members, in order.
pub open spec fn member_views(members: Seq<MemberRow>) -> Seq<MemberView> {
    Seq::new(members.len(), |i: int| members[i]@)
}

/// The views of a list of transactions, in order.
pub open spec fn transaction_views(transactions: Seq<StoredTransaction>) -> Seq<TransactionView> {
    Seq::new(transactions.len(), |i: int| transactions[i]@)
}

/// All that is stored.
pub struct LedgerView {
    pub groups: Seq<GroupNoID>,
    pub members: Seq<MemberView>,
    pub transactions: Seq<TransactionView>,
}

/// The uuid of a member, as the key of its row.
pub open spec fn member_uuid() -> spec_fn(MemberView) -> Seq<char> {
    |m: MemberView| m.uuid
}

/// The group and the nickname of a member: within a group, a nickname names
/// one member.
pub open spec fn member_name() -> spec_fn(MemberView) -> (Seq<char>, Seq<char>) {
    |m: MemberView| (m.group, m.nickname)
}

/// The uuid of a transaction, as the key of its row.
pub open spec fn transaction_uuid() -> spec_fn(TransactionView) -> Seq<char> {
    |t: TransactionView| t.uuid
}

/// The member that a share is owed by, as the key of the share within its
/// transaction.
pub open spec fn debt_member() -> spec_fn(DebtView) -> Seq<char> {
    |d: DebtView| d.member
}

/// Picks the member with the given uuid.
pub open spec fn has_uuid(uuid: Seq<char>) -> spec_fn(MemberView) -> bool {
    |m: MemberView| m.uuid == uuid
}

/// Picks the members outside of the given group.
pub open spec fn outside_group(group: Seq<char>) -> spec_fn(MemberView) -> bool {
    |m: MemberView| m.group != group
}

/// Picks the member of the given group with the given uuid.
pub open spec fn is_member(group: Seq<char>, uuid: Seq<char>) -> spec_fn(MemberView) -> bool {
    |m: MemberView| m.group == group && m.uuid == uuid
}

/// Picks the member of the given group with the given nickname.
pub open spec fn is_called(group: Seq<char>, nickname: Seq<char>) -> spec_fn(MemberView) -> bool {
    |m: MemberView| m.group == group && m.nickname == nickname
}

/// Picks the transaction with the given uuid.
pub open spec fn transaction_has_uuid(uuid: Seq<char>) -> spec_fn(TransactionView) -> bool {
    |t: TransactionView| t.uuid == uuid
}

/// Picks the transactions outside of the given group.
pub open spec fn transaction_outside_group(group: Seq<char>) -> spec_fn(TransactionView) -> bool {
    |t: TransactionView| t.group != group
}

/// The sum of the shares, added up in order from zero.
pub open spec fn shares_total(debts: Seq<DebtView>) -> Number
    decreases debts.len(),
{
    if debts.len() == 0 {
        Number::zero()
    } else {
        shares_total(debts.drop_last()).plus(debts.last().amount)
    }
}

/// The accounting rule of a stored transaction: its amount is strictly
/// positive, no share is negative, and the shares add up to the amount.
pub open spec fn balanced(transaction: TransactionView) -> bool {
    &&& transaction.amount.is_positive()
    &&& forall|k: int|
        0 <= k < transaction.debts.len() ==> !(#[trigger] transaction.debts[k]).amount.is_negative()
    &&& shares_total(transaction.debts) == transaction.amount
}

/// Whoever a transaction names is a member of its group: the one who paid and
/// everyone who owes a share; and no member owes two shares of it.
pub open spec fn among_members(transaction: TransactionView, members: Seq<MemberView>) -> bool {
    &&& any_where(members, is_member(transaction.group, transaction.paid_by))
    &&& forall|k: int|
        0 <= k < transaction.debts.len() ==> any_where(
            members,
            is_member(transaction.group, (#[trigger] transaction.debts[k]).member),
        )
    &&& distinct_by(transaction.debts, debt_member())
}

impl LedgerView {
    /// What holds of the ledger after every request:
    /// no two groups share a token, no two members a uuid, no two members of
    /// a group a nickname, no two transactions a uuid; every member and every
    /// transaction belongs to a stored group; every transaction names members
    /// of its own group only, and is balanced.
    pub open spec fn wf(self) -> bool {
        &&& tokens_distinct(self.groups)
        &&& distinct_by(self.members, member_uuid())
        &&& distinct_by(self.members, member_name())
        &&& distinct_by(self.transactions, transaction_uuid())
        &&& forall|i: int|
            0 <= i < self.members.len() ==> any_where(
                self.groups,
                has_token((#[trigger] self.members[i]).group),
            )
        &&& forall|i: int|
            0 <= i < self.transactions.len() ==> any_where(
                self.groups,
                has_token((#[trigger] self.transactions[i]).group),
            )
        &&& forall|i: int|
            0 <= i < self.transactions.len() ==> among_members(
                #[trigger] self.transactions[i],
                self.members,
            )
        &&& forall|i: int|
            0 <= i < self.transactions.len() ==> balanced(#[trigger] self.transactions[i])
    }
}

} // verus!
