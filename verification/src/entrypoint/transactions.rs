//! Transactions as callers send and receive them: the validity rules, and how
//! stored rows are put together into what a caller reads.

use vstd::prelude::*;
use vstd::string::StringExecFns;
use crate::decimal::{parsed_decimal, scale_within_limits, Decimal};
use crate::entrypoint::group_members::{GroupMemberNoDate, GroupMemberNoDateView};
use crate::number::{lemma_sign, Number};
use crate::timestamp::{civil_micros, Timestamp};

verus! {

/// One share of a transaction, as a caller sends it.
#[derive(Debug)]
pub struct TransactionDebtQuery {
    pub id: Option<i32>,
    pub amount: Decimal,
    pub member: GroupMemberNoDate,
}

/// One share of a transaction, as a caller reads it.
#[derive(Debug)]
pub struct TransactionDebtResponse {
    pub id: i32,
    pub amount: Decimal,
    pub member: GroupMemberNoDate,
}

/// A transaction with its shares, as a caller reads it.
#[derive(Debug)]
pub struct TransactionResponse {
    pub uuid: String,
    pub description: String,
    pub currency_id: String,
    pub paid_by: GroupMemberNoDate,
    pub created_at: Timestamp,
    pub modified_at: Timestamp,
    pub amount: Decimal,
    pub exchange_rate: Decimal,
    pub debtors: Vec<TransactionDebtResponse>,
}

/// The row of a transaction as it is written to the store.
#[derive(Debug)]
pub struct TransactionChangeset {
    pub uuid: String,
    pub description: String,
    pub amount: Decimal,
    pub paid_by: i32,
    pub currency_id: String,
    pub exchange_rate: Decimal,
    pub created_at: Timestamp,
    pub modified_at: Timestamp,
    pub group_id: i32,
}

/// The request to delete a transaction.
#[derive(Debug)]
pub struct TransactionDelete {
    pub uuid: String,
    pub modified_at: Timestamp,
}

/// The row of a share as it is written to the store.
#[derive(Debug)]
pub struct TransactionDebtUpsert {
    pub id: Option<i32>,
    pub transaction_id: i32,
    pub group_member_id: i32,
    pub amount: Decimal,
}

/// A transaction with its shares, as a caller sends it.
#[derive(Debug)]
pub struct TransactionQuery {
    pub uuid: String,
    pub description: String,
    pub currency_id: String,
    pub paid_by: GroupMemberNoDate,
    pub created_at: Timestamp,
    pub exchange_rate: Decimal,
    pub amount: Decimal,
    pub modified_at: Timestamp,
    pub debtors: Vec<TransactionDebtQuery>,
}

/// A stored transaction read together with the member who paid it.
#[derive(Debug)]
pub struct JoinedTransaction {
    pub id: i32,
    pub uuid: String,
    pub description: String,
    pub created_at: Timestamp,
    pub amount: Decimal,
    pub exchange_rate: Decimal,
    pub modified_at: Timestamp,
    pub currency_id: String,
    pub paid_by: GroupMemberNoDate,
}

/// A stored share read together with the member who owes it.
#[derive(Debug)]
pub struct JoinedDebt {
    pub id: i32,
    pub transaction_id: i32,
    pub amount: Decimal,
    pub member: GroupMemberNoDate,
}

impl Clone for TransactionDebtQuery {
    fn clone(&self) -> (r: TransactionDebtQuery)
        ensures
            r == *self,
    {
        TransactionDebtQuery {
            id: self.id,
            amount: self.amount.clone(),
            member: self.member.clone(),
        }
    }
}

/// The time a new transaction is dated at until the caller says otherwise:
/// 2016-07-08T09:10:11, or the epoch should the calendar not know that day.
pub open spec fn default_created_at() -> Timestamp {
    match civil_micros(2016, 7, 8, 9, 10, 11) {
        Some(m) => Timestamp { micros: m as i64 },
        None => Timestamp { micros: 0 },
    }
}

/// The digits and the scale of the amount that a text stands for in a
/// request: those of the decimal number it spells, or of zero where it spells
/// none that an amount can hold.
pub open spec fn parts_or_zero(text: Seq<char>) -> (int, int) {
    match parsed_decimal(text) {
        Some(parts) => if scale_within_limits(parts.1) {
            parts
        } else {
            (0, 0)
        },
        None => (0, 0),
    }
}

/// The amount that a text stands for in a request: the number it spells, or
/// zero where it spells none that an amount can hold.
pub fn amount_or_zero(text: &str) -> (r: Decimal)
    ensures
        r.digits() == parts_or_zero(text@).0,
        r.scale() == parts_or_zero(text@).1,
{
    match Decimal::parse(text) {
        Some(amount) => amount,
        None => Decimal::zero(),
    }
}

impl TransactionQuery {
    /// A new transaction in US dollars at an exchange rate of one, paid by
    /// `paid_by` and without any share yet. An `amount` that is no number
    /// counts as zero.
    pub fn new(uuid: &str, description: &str, paid_by: &GroupMemberNoDate, amount: &str) -> (r:
        TransactionQuery)
        ensures
            r.uuid@ == uuid@,
            r.description@ == description@,
            r.paid_by == *paid_by,
            r.amount.digits() == parts_or_zero(amount@).0,
            r.amount.scale() == parts_or_zero(amount@).1,
            r.debtors@.len() == 0,
            r.created_at == default_created_at(),
            r.currency_id@ == "USD"@,
            r.exchange_rate@ == Number::from_int(1),
    {
        let created_at = match Timestamp::from_civil(2016, 7, 8, 9, 10, 11) {
            Some(t) => t,
            None => Timestamp::epoch(),
        };
        let exchange_rate = match Decimal::from_i32(1) {
            Some(rate) => rate,
            None => Decimal::one(),
        };
        TransactionQuery {
            uuid: String::from_str(uuid),
            description: String::from_str(description),
            paid_by: paid_by.clone(),
            amount: amount_or_zero(amount),
            debtors: Vec::new(),
            created_at,
            currency_id: String::from_str("USD"),
            modified_at: Timestamp::now(),
            exchange_rate,
        }
    }

    /// Adds a share of `amount` for `member`, and marks the transaction as
    /// changed now. An `amount` that is no number counts as zero.
    pub fn add_debtor(&mut self, member: &GroupMemberNoDate, amount: &str)
        ensures
            final(self).debtors@.len() == old(self).debtors@.len() + 1,
            final(self).debtors@.drop_last() == old(self).debtors@,
            final(self).debtors@.last().id is None,
            final(self).debtors@.last().member == *member,
            final(self).debtors@.last().amount.digits() == parts_or_zero(amount@).0,
            final(self).debtors@.last().amount.scale() == parts_or_zero(amount@).1,
            final(self).uuid == old(self).uuid,
            final(self).description == old(self).description,
            final(self).currency_id == old(self).currency_id,
            final(self).paid_by == old(self).paid_by,
            final(self).created_at == old(self).created_at,
            final(self).exchange_rate == old(self).exchange_rate,
            final(self).amount == old(self).amount,
    {
        self.modified_at = Timestamp::now();
        let debtor = TransactionDebtQuery {
            id: None,
            amount: amount_or_zero(amount),
            member: member.clone(),
        };
        self.debtors.push(debtor);
        proof {
            assert(self.debtors@.drop_last() =~= old(self).debtors@);
        }
    }

    /// Changes the description, and marks the transaction as changed now.
    pub fn set_description(&mut self, description: &str)
        ensures
            final(self).description@ == description@,
            final(self).uuid == old(self).uuid,
            final(self).currency_id == old(self).currency_id,
            final(self).paid_by == old(self).paid_by,
            final(self).created_at == old(self).created_at,
            final(self).exchange_rate == old(self).exchange_rate,
            final(self).amount == old(self).amount,
            final(self).debtors == old(self).debtors,
    {
        self.modified_at = Timestamp::now();
        self.description = String::from_str(description);
    }

    /// Changes the amount, and marks the transaction as changed now. An
    /// `amount` that is no number counts as zero.
    pub fn set_amount(&mut self, amount: &str)
        ensures
            final(self).amount.digits() == parts_or_zero(amount@).0,
            final(self).amount.scale() == parts_or_zero(amount@).1,
            final(self).uuid == old(self).uuid,
            final(self).description == old(self).description,
            final(self).currency_id == old(self).currency_id,
            final(self).paid_by == old(self).paid_by,
            final(self).created_at == old(self).created_at,
            final(self).exchange_rate == old(self).exchange_rate,
            final(self).debtors == old(self).debtors,
    {
        self.modified_at = Timestamp::now();
        self.amount = amount_or_zero(amount);
    }

    /// Sets the time of the last change.
    pub fn set_time(&mut self, time: &Timestamp)
        ensures
            final(self).modified_at == *time,
            final(self).uuid == old(self).uuid,
            final(self).description == old(self).description,
            final(self).currency_id == old(self).currency_id,
            final(self).paid_by == old(self).paid_by,
            final(self).created_at == old(self).created_at,
            final(self).exchange_rate == old(self).exchange_rate,
            final(self).amount == old(self).amount,
            final(self).debtors == old(self).debtors,
    {
        self.modified_at = *time;
    }

    /// The uuid of the transaction.
    pub fn get_uuid(&self) -> (r: String)
        ensures
            r == self.uuid,
    {
        self.uuid.clone()
    }

    /// The description of the transaction.
    pub fn get_description(&self) -> (r: String)
        ensures
            r == self.description,
    {
        self.description.clone()
    }
}

/// The sum of the shares, added up in order from zero.
pub open spec fn debts_total(debtors: Seq<TransactionDebtQuery>) -> Number
    decreases debtors.len(),
{
    if debtors.len() == 0 {
        Number::zero()
    } else {
        debts_total(debtors.drop_last()).plus(debtors.last().amount@)
    }
}

/// Some share is negative.
pub open spec fn has_negative_debt(debtors: Seq<TransactionDebtQuery>) -> bool {
    exists|i: int| 0 <= i < debtors.len() && (#[trigger] debtors[i]).amount@.is_negative()
}

/// The validity rules of a transaction: its amount is strictly positive, no
/// share is negative, and the shares add up to exactly the amount.
pub open spec fn is_valid(transaction: &TransactionQuery) -> bool {
    &&& transaction.amount@.is_positive()
    &&& !has_negative_debt(transaction.debtors@)
    &&& debts_total(transaction.debtors@) == transaction.amount@
}

/// What a caller is told when the amount is not strictly positive.
pub open spec fn not_positive_text() -> Seq<char> {
    "An amount should be strictly positive"@
}

/// What a caller is told when a share is negative.
pub open spec fn negative_debt_text() -> Seq<char> {
    "An amount cannot be negative"@
}

/// What a caller is told when the shares do not add up: both totals, as
/// they are printed.
pub open spec fn mismatch_text(debts: Seq<char>, amount: Seq<char>) -> Seq<char> {
    "The amount of debtors "@ + debts + " are not equivalent to the transaction "@ + amount
}

/// `message` says which validity rule the transaction breaks: first the
/// amount, then the sign of the shares, then their sum.
pub open spec fn is_refusal_of(transaction: &TransactionQuery, message: Seq<char>) -> bool {
    if !transaction.amount@.is_positive() {
        message == not_positive_text()
    } else if has_negative_debt(transaction.debtors@) {
        message == negative_debt_text()
    } else {
        exists|sum: Decimal|
            sum@ == debts_total(transaction.debtors@) && message == mismatch_text(
                sum.text(),
                transaction.amount.text(),
            )
    }
}

/// Checks a transaction against the validity rules, and says which rule it
/// breaks: first the amount, then the sign of the shares, then their sum.
pub fn check_transaction_validity(transaction: &TransactionQuery) -> (r: Result<(), String>)
    ensures
        r is Ok <==> is_valid(transaction),
        match r {
            Ok(_) => true,
            Err(message) => is_refusal_of(transaction, message@),
        },
{
    let zero = Decimal::zero();
    proof {
        lemma_sign(transaction.amount@, transaction.amount@.places);
    }
    if transaction.amount.le(&zero) {
        return Err(String::from_str("An amount should be strictly positive"));
    }
    let mut i: usize = 0;
    while i < transaction.debtors.len()
        invariant
            i <= transaction.debtors.len(),
            zero@ == Number::zero(),
            transaction.amount@.is_positive(),
            forall|q: int|
                0 <= q < i ==> !(#[trigger] transaction.debtors@[q]).amount@.is_negative(),
        decreases transaction.debtors.len() - i,
    {
        proof {
            let amount = transaction.debtors@[i as int].amount@;
            lemma_sign(amount, amount.places);
        }
        if transaction.debtors[i].amount.lt(&zero) {
            proof {
                assert(transaction.debtors@[i as int].amount@.is_negative());
            }
            return Err(String::from_str("An amount cannot be negative"));
        }
        i = i + 1;
    }
    assert(!has_negative_debt(transaction.debtors@));
    let mut debt_amount = Decimal::zero();
    let mut k: usize = 0;
    proof {
        assert(transaction.debtors@.take(0) =~= Seq::<TransactionDebtQuery>::empty());
    }
    while k < transaction.debtors.len()
        invariant
            k <= transaction.debtors.len(),
            debt_amount@ == debts_total(transaction.debtors@.take(k as int)),
        decreases transaction.debtors.len() - k,
    {
        proof {
            let next = transaction.debtors@.take(k + 1);
            assert(next.drop_last() =~= transaction.debtors@.take(k as int));
            assert(next.last() == transaction.debtors@[k as int]);
        }
        debt_amount = debt_amount.plus(&transaction.debtors[k].amount);
        k = k + 1;
    }
    proof {
        assert(transaction.debtors@.take(k as int) =~= transaction.debtors@);
    }
    if debt_amount.same(&transaction.amount) {
        Ok(())
    } else {
        let mut message = String::from_str("The amount of debtors ");
        let debts_text = debt_amount.to_text();
        let amount_text = transaction.amount.to_text();
        message.append(debts_text.as_str());
        message.append(" are not equivalent to the transaction ");
        message.append(amount_text.as_str());
        proof {
            assert(debt_amount@ == debts_total(transaction.debtors@) && message@ == mismatch_text(
                debt_amount.text(),
                transaction.amount.text(),
            ));
        }
        Err(message)
    }
}

/// The identifier of a share as it is written to the store: the one the
/// caller sent where it is positive, none otherwise.
pub open spec fn stored_debt_id(id: Option<i32>) -> Option<i32> {
    match id {
        Some(v) => if v > 0 {
            Some(v)
        } else {
            None
        },
        None => None,
    }
}

/// The row that stores `debt` as a share of the transaction `transaction_id`
/// owed by the member `group_member_id`.
pub fn debt_upsert(transaction_id: i32, group_member_id: i32, debt: TransactionDebtQuery) -> (r:
    TransactionDebtUpsert)
    ensures
        r.id == stored_debt_id(debt.id),
        r.transaction_id == transaction_id,
        r.group_member_id == group_member_id,
        r.amount == debt.amount,
{
    let id: Option<i32> = match debt.id {
        Some(v) => if v > 0 {
            Some(v)
        } else {
            None
        },
        None => None,
    };
    TransactionDebtUpsert { transaction_id, group_member_id, amount: debt.amount, id }
}

/// The row that stores the transaction in the group `group_id`, paid by the
/// member `paid_by`; and with it the shares that are still to be stored.
pub fn transaction_changeset(transaction: TransactionQuery, group_id: i32, paid_by: i32) -> (r: (
    TransactionChangeset,
    Vec<TransactionDebtQuery>,
))
    ensures
        r.0.uuid == transaction.uuid,
        r.0.description == transaction.description,
        r.0.amount == transaction.amount,
        r.0.paid_by == paid_by,
        r.0.currency_id == transaction.currency_id,
        r.0.exchange_rate == transaction.exchange_rate,
        r.0.created_at == transaction.created_at,
        r.0.modified_at == transaction.modified_at,
        r.0.group_id == group_id,
        r.1 == transaction.debtors,
{
    (
        TransactionChangeset {
            uuid: transaction.uuid,
            description: transaction.description,
            amount: transaction.amount,
            paid_by,
            currency_id: transaction.currency_id,
            exchange_rate: transaction.exchange_rate,
            created_at: transaction.created_at,
            modified_at: transaction.modified_at,
            group_id,
        },
        transaction.debtors,
    )
}

/// A stored share as a caller reads it.
pub open spec fn debt_response(debt: JoinedDebt) -> TransactionDebtResponse {
    TransactionDebtResponse { id: debt.id, amount: debt.amount, member: debt.member }
}

/// All the shares as a caller reads them, in order.
pub open spec fn debt_responses(debts: Seq<JoinedDebt>) -> Seq<TransactionDebtResponse> {
    Seq::new(debts.len(), |i: int| debt_response(debts[i]))
}

/// The shares of the transaction `id` as a caller reads them, in the order in
/// which they are stored.
pub open spec fn debtors_for(id: i32, debts: Seq<JoinedDebt>) -> Seq<TransactionDebtResponse>
    decreases debts.len(),
{
    if debts.len() == 0 {
        Seq::empty()
    } else if debts.last().transaction_id == id {
        debtors_for(id, debts.drop_last()).push(debt_response(debts.last()))
    } else {
        debtors_for(id, debts.drop_last())
    }
}

/// `response` shows the stored transaction `row`, whatever its shares.
pub open spec fn shows(response: TransactionResponse, row: JoinedTransaction) -> bool {
    &&& response.uuid == row.uuid
    &&& response.description == row.description
    &&& response.currency_id == row.currency_id
    &&& response.paid_by == row.paid_by
    &&& response.created_at == row.created_at
    &&& response.modified_at == row.modified_at
    &&& response.amount == row.amount
    &&& response.exchange_rate == row.exchange_rate
}

/// The position of the first row with the identifier `id`; the length of the
/// list where there is none.
pub open spec fn position_of_id(rows: Seq<JoinedTransaction>, id: i32) -> int
    decreases rows.len(),
{
    if rows.len() == 0 || rows[0].id == id {
        0
    } else {
        1 + position_of_id(rows.drop_first(), id)
    }
}

/// The rows with one row for each identifier: where an identifier comes
/// again, the later row takes the place of the earlier.
pub open spec fn distinct_rows(rows: Seq<JoinedTransaction>) -> Seq<JoinedTransaction>
    decreases rows.len(),
{
    if rows.len() == 0 {
        Seq::empty()
    } else {
        let kept = distinct_rows(rows.drop_last());
        let p = position_of_id(kept, rows.last().id);
        if p < kept.len() {
            kept.update(p, rows.last())
        } else {
            kept.push(rows.last())
        }
    }
}

/// What has the date of a transaction.
pub trait HasDate {
    /// The date of the transaction.
    spec fn date(&self) -> Timestamp;
}

/// What carries the date of a transaction, to be sorted by it.
pub trait Dated: HasDate {
    fn created_at(&self) -> (r: Timestamp)
        ensures
            r == self.date(),
    ;
}

impl HasDate for JoinedTransaction {
    open spec fn date(&self) -> Timestamp {
        self.created_at
    }
}

impl Dated for JoinedTransaction {
    fn created_at(&self) -> (r: Timestamp) {
        self.created_at
    }
}

impl HasDate for TransactionResponse {
    open spec fn date(&self) -> Timestamp {
        self.created_at
    }
}

impl Dated for TransactionResponse {
    fn created_at(&self) -> (r: Timestamp) {
        self.created_at
    }
}

/// One share of a transaction as a caller reads it, by its values.
pub struct DebtResponseView {
    pub id: i32,
    pub amount: Number,
    pub member: GroupMemberNoDateView,
}

/// A transaction as a caller reads it, by its values.
pub struct ResponseView {
    pub uuid: Seq<char>,
    pub description: Seq<char>,
    pub currency_id: Seq<char>,
    pub paid_by: GroupMemberNoDateView,
    pub created_at: Timestamp,
    pub modified_at: Timestamp,
    pub amount: Number,
    pub exchange_rate: Number,
    pub debtors: Seq<DebtResponseView>,
}

impl View for TransactionDebtResponse {
    type V = DebtResponseView;

    open spec fn view(&self) -> DebtResponseView {
        DebtResponseView { id: self.id, amount: self.amount@, member: self.member@ }
    }
}

/// The views of the shares that a caller reads, in order.
pub open spec fn debtor_views(debtors: Seq<TransactionDebtResponse>) -> Seq<DebtResponseView> {
    Seq::new(debtors.len(), |i: int| debtors[i]@)
}

impl View for TransactionResponse {
    type V = ResponseView;

    open spec fn view(&self) -> ResponseView {
        ResponseView {
            uuid: self.uuid@,
            description: self.description@,
            currency_id: self.currency_id@,
            paid_by: self.paid_by@,
            created_at: self.created_at,
            modified_at: self.modified_at,
            amount: self.amount@,
            exchange_rate: self.exchange_rate@,
            debtors: debtor_views(self.debtors@),
        }
    }
}

/// The views of the transactions that a caller reads, in order.
pub open spec fn response_views(responses: Seq<TransactionResponse>) -> Seq<ResponseView> {
    Seq::new(responses.len(), |i: int| responses[i]@)
}

impl HasDate for ResponseView {
    open spec fn date(&self) -> Timestamp {
        self.created_at
    }
}

/// The sum of the shares that a caller reads, added up in order from zero.
pub open spec fn debtors_total(debtors: Seq<DebtResponseView>) -> Number
    decreases debtors.len(),
{
    if debtors.len() == 0 {
        Number::zero()
    } else {
        debtors_total(debtors.drop_last()).plus(debtors.last().amount)
    }
}

/// The accounting rule as a caller sees it: the amount is strictly positive,
/// and the shares add up to it.
pub open spec fn adds_up(response: ResponseView) -> bool {
    &&& response.amount.is_positive()
    &&& debtors_total(response.debtors) == response.amount
}

/// Where a row dated `time` goes in a list sorted from earliest to latest:
/// before the first row that is strictly later.
pub open spec fn time_position<T: HasDate>(sorted: Seq<T>, time: Timestamp) -> int
    decreases sorted.len(),
{
    if sorted.len() == 0 || time.before(sorted[0].date()) {
        0
    } else {
        1 + time_position(sorted.drop_first(), time)
    }
}

/// The rows sorted by their date, earliest first. Rows of the same date keep
/// the order in which they came.
pub open spec fn sort_by_created_at<T: HasDate>(rows: Seq<T>) -> Seq<T>
    decreases rows.len(),
{
    if rows.len() == 0 {
        Seq::empty()
    } else {
        let sorted = sort_by_created_at(rows.drop_last());
        sorted.insert(time_position(sorted, rows.last().date()), rows.last())
    }
}

/// No row is dated before a row that precedes it.
pub open spec fn is_sorted_by_created_at<T: HasDate>(rows: Seq<T>) -> bool {
    forall|a: int, b: int|
        0 <= a < b < rows.len() ==> !(#[trigger] rows[b]).date().before((#[trigger] rows[a]).date())
}

/// The rows in the order in which a caller reads them.
pub open spec fn listed(rows: Seq<JoinedTransaction>) -> Seq<JoinedTransaction> {
    sort_by_created_at(distinct_rows(rows))
}

/// A position with no row of the identifier before it, and such a row at it
/// unless it is the end, is the one that [`position_of_id`] names.
proof fn lemma_position_of_id(rows: Seq<JoinedTransaction>, id: i32, p: int)
    requires
        0 <= p <= rows.len(),
        forall|q: int| 0 <= q < p ==> (#[trigger] rows[q]).id != id,
        p < rows.len() ==> rows[p].id == id,
    ensures
        position_of_id(rows, id) == p,
    decreases rows.len(),
{
    if rows.len() == 0 || rows[0].id == id {
        if p > 0 {
            assert(rows[0].id != id);
        }
    } else {
        let rest = rows.drop_first();
        assert forall|q: int| 0 <= q < p - 1 implies (#[trigger] rest[q]).id != id by {
            assert(rest[q] == rows[q + 1]);
        }
        lemma_position_of_id(rest, id, p - 1);
    }
}

/// What [`time_position`] names: every row before it is not later than
/// `time`, and the row at it is.
pub proof fn lemma_time_position<T: HasDate>(sorted: Seq<T>, time: Timestamp)
    ensures
        0 <= time_position(sorted, time) <= sorted.len(),
        forall|q: int|
            0 <= q < time_position(sorted, time) ==> !time.before((#[trigger] sorted[q]).date()),
        time_position(sorted, time) < sorted.len() ==> time.before(
            sorted[time_position(sorted, time)].date(),
        ),
    decreases sorted.len(),
{
    if !(sorted.len() == 0 || time.before(sorted[0].date())) {
        let rest = sorted.drop_first();
        lemma_time_position(rest, time);
        let p = time_position(rest, time);
        assert forall|q: int| 0 <= q < p + 1 implies !time.before(
            (#[trigger] sorted[q]).date(),
        ) by {
            if q > 0 {
                assert(sorted[q] == rest[q - 1]);
            }
        }
        if p < rest.len() {
            assert(sorted[p + 1] == rest[p]);
        }
    }
}

/// A position with no later row before it, and a later row at it unless it
/// is the end, is the one that [`time_position`] names.
proof fn lemma_time_position_unique<T: HasDate>(sorted: Seq<T>, time: Timestamp, p: int)
    requires
        0 <= p <= sorted.len(),
        forall|q: int| 0 <= q < p ==> !time.before((#[trigger] sorted[q]).date()),
        p < sorted.len() ==> time.before(sorted[p].date()),
    ensures
        time_position(sorted, time) == p,
{
    lemma_time_position(sorted, time);
    let t = time_position(sorted, time);
    if t < p {
        assert(!time.before(sorted[t].date()));
    }
    if p < t {
        assert(!time.before(sorted[p].date()));
    }
}

/// Sorting by date keeps the number of rows and puts them in order of their
/// dates.
pub proof fn lemma_sort_by_created_at<T: HasDate>(rows: Seq<T>)
    ensures
        sort_by_created_at(rows).len() == rows.len(),
        is_sorted_by_created_at(sort_by_created_at(rows)),
        rows.to_multiset() == sort_by_created_at(rows).to_multiset(),
    decreases rows.len(),
{
    broadcast use vstd::seq_lib::group_to_multiset_ensures;

    if rows.len() > 0 {
        let sorted = sort_by_created_at(rows.drop_last());
        let item = rows.last();
        let p = time_position(sorted, item.date());
        lemma_sort_by_created_at(rows.drop_last());
        lemma_time_position(sorted, item.date());
        let after = sorted.insert(p, item);
        assert forall|a: int, b: int| 0 <= a < b < after.len() implies !(
        #[trigger] after[b]).date().before((#[trigger] after[a]).date()) by {
            if b < p {
                assert(after[a] == sorted[a] && after[b] == sorted[b]);
            } else if b == p {
                assert(after[a] == sorted[a]);
            } else if a < p {
                assert(after[a] == sorted[a] && after[b] == sorted[b - 1]);
                assert(!sorted[b - 1].date().before(sorted[p].date()) || b - 1 == p);
            } else if a == p {
                assert(after[b] == sorted[b - 1]);
                assert(!sorted[b - 1].date().before(sorted[p].date()) || b - 1 == p);
            } else {
                assert(after[a] == sorted[a - 1] && after[b] == sorted[b - 1]);
            }
        }
        assert(rows =~= rows.drop_last().push(item));
        assert(after.remove(p) =~= sorted);
        assert(after[p] == item);
        assert(after.to_multiset() =~= sorted.to_multiset().insert(item)) by {
            assert(sorted.to_multiset() == after.to_multiset().remove(item));
            assert(after.to_multiset().count(item) > 0) by {
                assert(after.contains(item));
            }
        }
    } else {
        assert(rows =~= Seq::<T>::empty());
    }
}

/// Sorting by date and then looking at each row through `f` gives the same
/// as looking through `f` first, provided `f` keeps the dates.
pub proof fn lemma_sort_through<T: HasDate, V: HasDate>(rows: Seq<T>, f: spec_fn(T) -> V)
    requires
        forall|row: T| (#[trigger] f(row)).date() == row.date(),
    ensures
        sort_by_created_at(rows).map_values(f) == sort_by_created_at(rows.map_values(f)),
    decreases rows.len(),
{
    if rows.len() == 0 {
        assert(rows.map_values(f) =~= Seq::<V>::empty());
        assert(sort_by_created_at(rows).map_values(f) =~= Seq::<V>::empty());
    } else {
        let rest = rows.drop_last();
        let sorted = sort_by_created_at(rest);
        let seen = rows.map_values(f);
        lemma_sort_through(rest, f);
        assert(seen.drop_last() =~= rest.map_values(f));
        assert(seen.last() == f(rows.last()));
        let sorted_seen = sort_by_created_at(seen.drop_last());
        assert(sorted_seen == sorted.map_values(f));
        lemma_time_position(sorted, rows.last().date());
        let p = time_position(sorted, rows.last().date());
        assert forall|q: int| 0 <= q < p implies !rows.last().date().before(
            (#[trigger] sorted_seen[q]).date(),
        ) by {
            assert(sorted_seen[q] == f(sorted[q]));
        }
        if p < sorted.len() {
            assert(sorted_seen[p] == f(sorted[p]));
        }
        lemma_sort_by_created_at(rest);
        lemma_time_position_unique(sorted_seen, rows.last().date(), p);
        assert(sorted.insert(p, rows.last()).map_values(f) =~= sorted_seen.insert(
            p,
            f(rows.last()),
        ));
    }
}

/// Keeps one row for each identifier, the later row in the place of the
/// earlier.
pub fn keep_distinct_rows(rows: Vec<JoinedTransaction>) -> (r: Vec<JoinedTransaction>)
    ensures
        r@ == distinct_rows(rows@),
{
    let ghost all = rows@;
    let mut rows = rows;
    let mut kept: Vec<JoinedTransaction> = Vec::new();
    proof {
        assert(all.take(0) =~= Seq::<JoinedTransaction>::empty());
        assert(all.skip(0) =~= all);
    }
    while rows.len() > 0
        invariant
            rows.len() <= all.len(),
            rows@ == all.skip(all.len() - rows.len()),
            kept@ == distinct_rows(all.take(all.len() - rows.len())),
        decreases rows.len(),
    {
        let ghost done = all.len() - rows.len();
        let ghost before = kept@;
        let row = rows.remove(0);
        let mut p: usize = 0;
        while p < kept.len() && kept[p].id != row.id
            invariant
                p <= kept.len(),
                kept@ == before,
                forall|q: int| 0 <= q < p ==> (#[trigger] before[q]).id != row.id,
            decreases kept.len() - p,
        {
            p = p + 1;
        }
        proof {
            lemma_position_of_id(before, row.id, p as int);
            assert(row == all[done]);
            assert(all.take(done + 1).drop_last() =~= all.take(done));
            assert(all.take(done + 1).last() == all[done]);
            assert(rows@ =~= all.skip(done + 1));
        }
        if p < kept.len() {
            kept.set(p, row);
        } else {
            kept.push(row);
        }
    }
    proof {
        assert(all.take(all.len() as int) =~= all);
    }
    kept
}

/// Sorts the rows by their date, earliest first, keeping the order of rows of
/// the same date.
pub fn sort_rows_by_created_at<T: Dated>(rows: Vec<T>) -> (r: Vec<T>)
    ensures
        r@ == sort_by_created_at(rows@),
        r.len() == rows.len(),
        is_sorted_by_created_at(r@),
        r@.to_multiset() == rows@.to_multiset(),
{
    let ghost all = rows@;
    let mut rows = rows;
    let mut sorted: Vec<T> = Vec::new();
    proof {
        lemma_sort_by_created_at(all);
        assert(all.take(0) =~= Seq::<T>::empty());
        assert(all.skip(0) =~= all);
    }
    while rows.len() > 0
        invariant
            rows.len() <= all.len(),
            rows@ == all.skip(all.len() - rows.len()),
            sorted@ == sort_by_created_at(all.take(all.len() - rows.len())),
        decreases rows.len(),
    {
        let ghost done = all.len() - rows.len();
        let ghost before = sorted@;
        let row = rows.remove(0);
        let mut p: usize = 0;
        let time = row.created_at();
        while p < sorted.len() && !time.is_before(sorted[p].created_at())
            invariant
                p <= sorted.len(),
                sorted@ == before,
                forall|q: int| 0 <= q < p ==> !time.before((#[trigger] before[q]).date()),
            decreases sorted.len() - p,
        {
            p = p + 1;
        }
        proof {
            lemma_time_position_unique(before, time, p as int);
            assert(row == all[done]);
            assert(all.take(done + 1).drop_last() =~= all.take(done));
            assert(all.take(done + 1).last() == all[done]);
            assert(rows@ =~= all.skip(done + 1));
        }
        sorted.insert(p, row);
    }
    proof {
        assert(all.take(all.len() as int) =~= all);
    }
    sorted
}

/// The shares of the transaction `id` among `debts`, as a caller reads them.
pub fn collect_debtors(id: i32, debts: &Vec<JoinedDebt>) -> (r: Vec<TransactionDebtResponse>)
    ensures
        r@ == debtors_for(id, debts@),
{
    let mut debtors: Vec<TransactionDebtResponse> = Vec::new();
    let mut k: usize = 0;
    proof {
        assert(debts@.take(0) =~= Seq::<JoinedDebt>::empty());
    }
    while k < debts.len()
        invariant
            k <= debts.len(),
            debtors@ == debtors_for(id, debts@.take(k as int)),
        decreases debts.len() - k,
    {
        proof {
            let next = debts@.take(k + 1);
            assert(next.drop_last() =~= debts@.take(k as int));
            assert(next.last() == debts@[k as int]);
        }
        if debts[k].transaction_id == id {
            debtors.push(
                TransactionDebtResponse {
                    id: debts[k].id,
                    amount: debts[k].amount.clone(),
                    member: debts[k].member.clone(),
                },
            );
        }
        k = k + 1;
    }
    proof {
        assert(debts@.take(k as int) =~= debts@);
    }
    debtors
}

/// One transaction as a caller reads it: the stored row with all of `debts`
/// as its shares, in order.
pub fn hydrate_transaction(row: JoinedTransaction, debts: Vec<JoinedDebt>) -> (r:
    TransactionResponse)
    ensures
        shows(r, row),
        r.debtors@ == debt_responses(debts@),
{
    let mut debtors: Vec<TransactionDebtResponse> = Vec::new();
    let mut k: usize = 0;
    while k < debts.len()
        invariant
            k <= debts.len(),
            debtors@ == debt_responses(debts@).take(k as int),
        decreases debts.len() - k,
    {
        debtors.push(
            TransactionDebtResponse {
                id: debts[k].id,
                amount: debts[k].amount.clone(),
                member: debts[k].member.clone(),
            },
        );
        proof {
            assert(debtors@ =~= debt_responses(debts@).take(k + 1));
        }
        k = k + 1;
    }
    proof {
        assert(debt_responses(debts@).take(k as int) =~= debt_responses(debts@));
    }
    TransactionResponse {
        amount: row.amount,
        created_at: row.created_at,
        currency_id: row.currency_id,
        description: row.description,
        debtors,
        exchange_rate: row.exchange_rate,
        uuid: row.uuid,
        modified_at: row.modified_at,
        paid_by: row.paid_by,
    }
}

/// All the transactions of a group as a caller reads them: one for each
/// stored row, sorted by date with the earliest first, each with its own
/// shares in the order in which they are stored.
pub fn hydrate_transactions(rows: Vec<JoinedTransaction>, debts: Vec<JoinedDebt>) -> (r: Vec<
    TransactionResponse,
>)
    ensures
        r.len() == listed(rows@).len(),
        is_sorted_by_created_at(listed(rows@)),
        forall|i: int|
            0 <= i < r.len() ==> shows(#[trigger] r[i], listed(rows@)[i]) && r[i].debtors@
                == debtors_for(listed(rows@)[i].id, debts@),
{
    let ghost all = listed(rows@);
    let mut ordered = sort_rows_by_created_at(keep_distinct_rows(rows));
    let mut responses: Vec<TransactionResponse> = Vec::new();
    proof {
        assert(ordered@.skip(0) =~= ordered@);
    }
    while ordered.len() > 0
        invariant
            is_sorted_by_created_at(all),
            ordered.len() <= all.len(),
            responses.len() == all.len() - ordered.len(),
            ordered@ == all.skip(all.len() - ordered.len()),
            forall|i: int|
                0 <= i < responses.len() ==> shows(#[trigger] responses[i], all[i])
                    && responses[i].debtors@ == debtors_for(all[i].id, debts@),
        decreases ordered.len(),
    {
        let ghost done = all.len() - ordered.len();
        let row = ordered.remove(0);
        let debtors = collect_debtors(row.id, &debts);
        proof {
            assert(row == all[done]);
            assert(ordered@ =~= all.skip(done + 1));
        }
        responses.push(
            TransactionResponse {
                uuid: row.uuid,
                description: row.description,
                modified_at: row.modified_at,
                paid_by: row.paid_by,
                created_at: row.created_at,
                currency_id: row.currency_id,
                amount: row.amount,
                exchange_rate: row.exchange_rate,
                debtors,
            },
        );
    }
    responses
}

} // verus!
