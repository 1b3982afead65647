use share_count::decimal::Decimal;
use share_count::entrypoint::group_members::GroupMemberNoDate;
use share_count::entrypoint::transactions::{
    check_transaction_validity, debt_upsert, transaction_changeset, TransactionDebtQuery,
    TransactionQuery,
};
use share_count::timestamp::Timestamp;

fn member(uuid: &str, nickname: &str) -> GroupMemberNoDate {
    GroupMemberNoDate { uuid: uuid.to_string(), nickname: nickname.to_string() }
}

fn transaction(amount: &str, shares: &[(&str, &str)]) -> TransactionQuery {
    let mut query = TransactionQuery::new("t1", "Lunch", &member("u1", "Alice"), amount);
    for (who, share) in shares {
        query.add_debtor(&member(who, who), share);
    }
    query
}

#[test]
fn valid_when_shares_add_up() {
    let query = transaction("3", &[("u1", "1"), ("u2", "2")]);
    assert_eq!(check_transaction_validity(&query), Ok(()));
}

#[test]
fn valid_when_scales_differ() {
    let query = transaction("3.0", &[("u1", "1.50"), ("u2", "1.5")]);
    assert_eq!(check_transaction_validity(&query), Ok(()));
}

#[test]
fn valid_with_a_share_of_zero() {
    let query = transaction("3", &[("u1", "3"), ("u2", "0")]);
    assert_eq!(check_transaction_validity(&query), Ok(()));
}

#[test]
fn refused_when_amount_is_zero() {
    let query = transaction("0", &[("u1", "0")]);
    assert_eq!(
        check_transaction_validity(&query),
        Err("An amount should be strictly positive".to_string())
    );
}

#[test]
fn refused_when_amount_is_negative() {
    let query = transaction("-10", &[("u1", "-10")]);
    assert_eq!(
        check_transaction_validity(&query),
        Err("An amount should be strictly positive".to_string())
    );
}

#[test]
fn refused_when_a_share_is_negative() {
    let query = transaction("3", &[("u1", "4"), ("u2", "-1")]);
    assert_eq!(check_transaction_validity(&query), Err("An amount cannot be negative".to_string()));
}

#[test]
fn refused_when_shares_do_not_add_up() {
    let query = transaction("4", &[("u1", "1"), ("u2", "2")]);
    assert_eq!(
        check_transaction_validity(&query),
        Err("The amount of debtors 3 are not equivalent to the transaction 4".to_string())
    );
}

#[test]
fn refused_when_there_is_no_share() {
    let query = transaction("4", &[]);
    let message = check_transaction_validity(&query).unwrap_err();
    assert_eq!(message, "The amount of debtors 0 are not equivalent to the transaction 4");
    assert!(message.contains("not equivalent"));
}

#[test]
fn sum_is_exact_not_rounded() {
    let query = transaction("0.3", &[("u1", "0.1"), ("u2", "0.2")]);
    assert_eq!(check_transaction_validity(&query), Ok(()));
    let query = transaction("0.3", &[("u1", "0.1"), ("u2", "0.2000000000000000000000001")]);
    assert!(check_transaction_validity(&query).is_err());
}

#[test]
fn amount_rule_comes_before_share_rule() {
    let query = transaction("0", &[("u1", "-1")]);
    assert_eq!(
        check_transaction_validity(&query),
        Err("An amount should be strictly positive".to_string())
    );
}

#[test]
fn new_transaction_has_the_defaults() {
    let query = TransactionQuery::new("t9", "Dinner", &member("u1", "Alice"), "12.5");
    assert_eq!(query.get_uuid(), "t9");
    assert_eq!(query.get_description(), "Dinner");
    assert_eq!(query.currency_id, "USD");
    assert_eq!(query.paid_by.uuid, "u1");
    assert_eq!(query.amount.to_text(), "12.5");
    assert!(query.exchange_rate.same(&Decimal::one()));
    assert!(query.debtors.is_empty());
    // 2016-07-08T09:10:11
    assert_eq!(query.created_at, Timestamp::from_micros(1_467_969_011_000_000));
}

#[test]
fn new_transaction_counts_bad_amount_as_zero() {
    let query = TransactionQuery::new("t9", "Dinner", &member("u1", "Alice"), "a lot");
    assert!(query.amount.is_zero());
}

#[test]
fn builders_change_what_they_name() {
    let mut query = TransactionQuery::new("t9", "Dinner", &member("u1", "Alice"), "1");
    query.set_description("Supper");
    assert_eq!(query.get_description(), "Supper");
    query.set_amount("7.25");
    assert_eq!(query.amount.to_text(), "7.25");
    query.set_amount("?");
    assert!(query.amount.is_zero());
    query.set_time(&Timestamp::from_micros(42));
    assert_eq!(query.modified_at, Timestamp::from_micros(42));
    query.add_debtor(&member("u2", "Bob"), "2");
    query.add_debtor(&member("u3", "Eve"), "x");
    assert_eq!(query.debtors.len(), 2);
    assert_eq!(query.debtors[0].member.uuid, "u2");
    assert_eq!(query.debtors[0].id, None);
    assert_eq!(query.debtors[0].amount.to_text(), "2");
    assert!(query.debtors[1].amount.is_zero());
}

#[test]
fn debt_upsert_keeps_positive_ids_only() {
    let debt = |id: Option<i32>| TransactionDebtQuery {
        id,
        amount: Decimal::parse("2").unwrap(),
        member: member("u1", "Alice"),
    };
    assert_eq!(debt_upsert(7, 3, debt(Some(5))).id, Some(5));
    assert_eq!(debt_upsert(7, 3, debt(Some(0))).id, None);
    assert_eq!(debt_upsert(7, 3, debt(Some(-1))).id, None);
    assert_eq!(debt_upsert(7, 3, debt(None)).id, None);
    let row = debt_upsert(7, 3, debt(Some(5)));
    assert_eq!(row.transaction_id, 7);
    assert_eq!(row.group_member_id, 3);
    assert_eq!(row.amount.to_text(), "2");
}

#[test]
fn changeset_carries_the_transaction() {
    let mut query = transaction("3", &[("u1", "1"), ("u2", "2")]);
    query.set_time(&Timestamp::from_micros(99));
    let (row, shares) = transaction_changeset(query, 4, 11);
    assert_eq!(row.uuid, "t1");
    assert_eq!(row.description, "Lunch");
    assert_eq!(row.amount.to_text(), "3");
    assert_eq!(row.paid_by, 11);
    assert_eq!(row.group_id, 4);
    assert_eq!(row.currency_id, "USD");
    assert_eq!(row.modified_at, Timestamp::from_micros(99));
    assert_eq!(shares.len(), 2);
}
