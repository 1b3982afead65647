use share_count::decimal::Decimal;
use share_count::entrypoint::group_members::GroupMemberNoDate;
use share_count::entrypoint::transactions::{
    collect_debtors, hydrate_transaction, hydrate_transactions, keep_distinct_rows,
    sort_rows_by_created_at, JoinedDebt, JoinedTransaction,
};
use share_count::timestamp::Timestamp;

fn dec(text: &str) -> Decimal {
    Decimal::parse(text).expect("a decimal number")
}

fn member(name: &str) -> GroupMemberNoDate {
    GroupMemberNoDate { uuid: format!("u-{name}"), nickname: name.to_string() }
}

fn row(id: i32, uuid: &str, created_at: i64) -> JoinedTransaction {
    JoinedTransaction {
        id,
        uuid: uuid.to_string(),
        description: format!("about {uuid}"),
        created_at: Timestamp::from_micros(created_at),
        amount: dec("3"),
        exchange_rate: dec("1"),
        modified_at: Timestamp::from_micros(created_at + 5),
        currency_id: "USD".to_string(),
        paid_by: member("Alice"),
    }
}

fn debt(id: i32, transaction_id: i32, amount: &str, who: &str) -> JoinedDebt {
    JoinedDebt { id, transaction_id, amount: dec(amount), member: member(who) }
}

#[test]
fn transactions_come_sorted_by_date() {
    let listed = hydrate_transactions(
        vec![row(1, "late", 300), row(2, "early", 100), row(3, "middle", 200)],
        Vec::new(),
    );
    let uuids: Vec<&str> = listed.iter().map(|t| t.uuid.as_str()).collect();
    assert_eq!(uuids, vec!["early", "middle", "late"]);
}

#[test]
fn transactions_of_one_date_keep_their_order() {
    let listed = hydrate_transactions(
        vec![row(1, "a", 100), row(2, "b", 50), row(3, "c", 100), row(4, "d", 50)],
        Vec::new(),
    );
    let uuids: Vec<&str> = listed.iter().map(|t| t.uuid.as_str()).collect();
    assert_eq!(uuids, vec!["b", "d", "a", "c"]);
}

#[test]
fn each_transaction_gets_its_own_shares() {
    let listed = hydrate_transactions(
        vec![row(1, "first", 100), row(2, "second", 200)],
        vec![
            debt(10, 2, "2", "Bob"),
            debt(11, 1, "1", "Alice"),
            debt(12, 2, "1", "Alice"),
            debt(13, 9, "5", "Eve"),
        ],
    );
    assert_eq!(listed.len(), 2);
    assert_eq!(listed[0].uuid, "first");
    assert_eq!(listed[0].debtors.len(), 1);
    assert_eq!(listed[0].debtors[0].id, 11);
    assert_eq!(listed[0].debtors[0].member.nickname, "Alice");
    assert_eq!(listed[1].debtors.len(), 2);
    assert_eq!(listed[1].debtors[0].id, 10);
    assert_eq!(listed[1].debtors[0].amount.to_text(), "2");
    assert_eq!(listed[1].debtors[1].id, 12);
}

#[test]
fn listed_transaction_shows_the_row() {
    let listed = hydrate_transactions(vec![row(1, "only", 100)], Vec::new());
    let shown = &listed[0];
    assert_eq!(shown.description, "about only");
    assert_eq!(shown.currency_id, "USD");
    assert_eq!(shown.paid_by.uuid, "u-Alice");
    assert_eq!(shown.created_at, Timestamp::from_micros(100));
    assert_eq!(shown.modified_at, Timestamp::from_micros(105));
    assert_eq!(shown.amount.to_text(), "3");
    assert_eq!(shown.exchange_rate.to_text(), "1");
}

#[test]
fn later_row_of_an_id_takes_the_place_of_the_earlier() {
    let kept = keep_distinct_rows(vec![row(1, "old", 100), row(2, "other", 50), row(1, "new", 10)]);
    let uuids: Vec<&str> = kept.iter().map(|t| t.uuid.as_str()).collect();
    assert_eq!(uuids, vec!["new", "other"]);
}

#[test]
fn sort_of_nothing_is_nothing() {
    assert!(sort_rows_by_created_at(Vec::<JoinedTransaction>::new()).is_empty());
    assert!(hydrate_transactions(Vec::new(), vec![debt(1, 1, "1", "Bob")]).is_empty());
}

#[test]
fn single_transaction_takes_all_shares() {
    let shown = hydrate_transaction(
        row(7, "t7", 100),
        vec![debt(1, 7, "1", "Alice"), debt(2, 7, "2", "Bob")],
    );
    assert_eq!(shown.uuid, "t7");
    assert_eq!(shown.debtors.len(), 2);
    assert_eq!(shown.debtors[1].member.uuid, "u-Bob");
    assert_eq!(shown.debtors[1].amount.to_text(), "2");
}

#[test]
fn collect_debtors_filters_by_transaction() {
    let debts = vec![debt(1, 7, "1", "Alice"), debt(2, 8, "2", "Bob"), debt(3, 7, "4", "Eve")];
    let ids: Vec<i32> = collect_debtors(7, &debts).iter().map(|d| d.id).collect();
    assert_eq!(ids, vec![1, 3]);
    assert!(collect_debtors(5, &debts).is_empty());
}

#[test]
fn civil_time_is_counted_in_microseconds() {
    assert_eq!(Timestamp::from_civil(1970, 1, 1, 0, 0, 0), Some(Timestamp::epoch()));
    assert_eq!(
        Timestamp::from_civil(2016, 7, 8, 9, 10, 11),
        Some(Timestamp::from_micros(1_467_969_011_000_000))
    );
    assert_eq!(Timestamp::from_civil(2015, 2, 29, 0, 0, 0), None);
    assert_eq!(Timestamp::from_civil(2015, 6, 3, 24, 0, 0), None);
}

#[test]
fn timestamps_are_ordered_by_their_count() {
    let early = Timestamp::from_micros(1);
    let late = Timestamp::from_micros(2);
    assert!(early.is_before(late));
    assert!(!late.is_before(early));
    assert!(!early.is_before(early));
    assert!(Timestamp::epoch().is_before(Timestamp::now()));
}
