use share_count::decimal::Decimal;
use share_count::entrypoint::group_members::{GroupMember, GroupMemberNoDate};
use share_count::entrypoint::groups::GroupNoID;
use share_count::entrypoint::transactions::{
    TransactionDebtQuery, TransactionDelete, TransactionQuery, TransactionResponse,
};
use share_count::entrypoint::ErrorKind;
use share_count::ledger::Ledger;
use share_count::timestamp::Timestamp;

fn at(day: i64, hour: i64) -> Timestamp {
    // Days and hours of January 2025.
    let first = Timestamp::from_civil(2025, 1, 1, 0, 0, 0).expect("a date").micros;
    Timestamp::from_micros(first + ((day - 1) * 24 + hour) * 3_600_000_000)
}

fn group(token: &str, name: &str, modified_at: Timestamp) -> GroupNoID {
    GroupNoID {
        token: token.to_string(),
        name: name.to_string(),
        currency_id: "USD".to_string(),
        created_at: at(1, 0),
        modified_at,
    }
}

fn member(uuid: &str, nickname: &str, modified_at: Timestamp) -> GroupMember {
    GroupMember { uuid: uuid.to_string(), nickname: nickname.to_string(), modified_at }
}

fn who(uuid: &str, nickname: &str) -> GroupMemberNoDate {
    GroupMemberNoDate { uuid: uuid.to_string(), nickname: nickname.to_string() }
}

fn share(uuid: &str, nickname: &str, amount: &str) -> TransactionDebtQuery {
    TransactionDebtQuery {
        id: None,
        amount: Decimal::parse(amount).expect("a decimal number"),
        member: who(uuid, nickname),
    }
}

fn transaction(
    uuid: &str,
    description: &str,
    amount: &str,
    shares: Vec<TransactionDebtQuery>,
    modified_at: Timestamp,
) -> TransactionQuery {
    TransactionQuery {
        uuid: uuid.to_string(),
        description: description.to_string(),
        currency_id: "USD".to_string(),
        paid_by: who("u1", "Alice"),
        created_at: at(3, 8),
        exchange_rate: Decimal::one(),
        amount: Decimal::parse(amount).expect("a decimal number"),
        modified_at,
        debtors: shares,
    }
}

fn lunch(amount: &str, description: &str, modified_at: Timestamp) -> TransactionQuery {
    transaction(
        "t1",
        description,
        amount,
        vec![share("u1", "Alice", "1"), share("u2", "Bob", "2")],
        modified_at,
    )
}

/// A ledger with the group "abc" and its members Alice and Bob.
fn tokyo() -> Ledger {
    let mut ledger = Ledger::new();
    ledger.create_or_update_group(group("abc", "Tokyo", at(1, 0)));
    ledger
        .add_or_update_members(
            "abc",
            vec![member("u1", "Alice", at(2, 0)), member("u2", "Bob", at(2, 0))],
        )
        .expect("the group is there");
    ledger
}

fn total(response: &TransactionResponse) -> Decimal {
    let mut sum = Decimal::zero();
    for debtor in &response.debtors {
        sum.add_assign_ref(&debtor.amount);
    }
    sum
}

#[test]
fn created_group_can_be_read_back() {
    let mut ledger = Ledger::new();
    let stored = ledger.create_or_update_group(group("abc", "Tokyo", at(1, 0)));
    assert_eq!(stored.token, "abc");
    let read = ledger.get_group("abc").expect("stored");
    assert_eq!(read.token, "abc");
    assert_eq!(read.name, "Tokyo");
    assert_eq!(read.currency_id, "USD");
    assert_eq!(read.created_at, at(1, 0));
    assert_eq!(read.modified_at, at(1, 0));
}

#[test]
fn unknown_group_is_not_found() {
    let ledger = Ledger::new();
    let error = ledger.get_group("token_unknown").unwrap_err();
    assert_eq!(error.kind, ErrorKind::NotFound);
    assert_eq!(error.convert_message().0, 404);
}

#[test]
fn later_group_write_wins_in_either_order() {
    let older = || group("abc", "Tokyo", at(1, 0));
    let newer = || group("abc", "Kyoto", at(2, 0));

    let mut one = Ledger::new();
    assert_eq!(one.create_or_update_group(older()).name, "Tokyo");
    assert_eq!(one.create_or_update_group(newer()).name, "Kyoto");

    let mut other = Ledger::new();
    assert_eq!(other.create_or_update_group(newer()).name, "Kyoto");
    // The stale write is answered with the stored group.
    assert_eq!(other.create_or_update_group(older()).name, "Kyoto");

    for ledger in [&one, &other] {
        let stored = ledger.get_group("abc").expect("stored");
        assert_eq!(stored.name, "Kyoto");
        assert_eq!(stored.modified_at, at(2, 0));
    }
}

#[test]
fn group_write_of_same_date_changes_nothing() {
    let mut ledger = Ledger::new();
    ledger.create_or_update_group(group("abc", "Tokyo", at(1, 0)));
    ledger.create_or_update_group(group("abc", "Kyoto", at(1, 0)));
    assert_eq!(ledger.get_group("abc").expect("stored").name, "Tokyo");
}

#[test]
fn group_delete_is_guarded_by_date() {
    let mut ledger = tokyo();
    ledger.delete_group("abc", at(1, 0));
    assert!(ledger.get_group("abc").is_ok());
    ledger.delete_group("abc", at(1, 1));
    assert!(ledger.get_group("abc").is_err());
    // Deleting what is not there is no failure.
    ledger.delete_group("abc", at(9, 0));
}

#[test]
fn group_delete_takes_members_and_transactions_along() {
    let mut ledger = tokyo();
    ledger.create_or_update_group(group("xyz", "Osaka", at(1, 0)));
    ledger.add_or_update_members("xyz", vec![member("u9", "Zed", at(2, 0))]).expect("stored");
    ledger.create_or_update_transaction("abc", lunch("3", "AAAA", at(3, 10))).expect("stored");
    ledger.delete_group("abc", at(5, 0));
    assert!(ledger.list_members("abc").is_empty());
    assert!(ledger.list_transactions("abc").is_empty());
    assert!(ledger.get_transaction("abc", "t1").is_err());
    assert_eq!(ledger.list_members("xyz").len(), 1);
    // The uuids are free again.
    ledger.create_or_update_group(group("abc", "Tokyo", at(6, 0)));
    let listed = ledger
        .add_or_update_members("abc", vec![member("u1", "Alice", at(6, 0))])
        .expect("stored");
    assert_eq!(listed.len(), 1);
}

#[test]
fn posting_the_same_members_twice_changes_nothing() {
    let mut ledger = Ledger::new();
    ledger.create_or_update_group(group("abc", "Tokyo", at(1, 0)));
    let first = ledger
        .add_or_update_members("abc", vec![member("u1", "Alice", at(2, 0))])
        .expect("stored");
    let second = ledger
        .add_or_update_members("abc", vec![member("u1", "Alice", at(2, 0))])
        .expect("stored");
    assert_eq!(first.len(), 1);
    assert_eq!(second.len(), 1);
    assert_eq!(second[0].uuid, "u1");
    assert_eq!(second[0].nickname, "Alice");
    assert_eq!(second[0].modified_at, at(2, 0));
}

#[test]
fn members_of_unknown_group_are_not_found() {
    let mut ledger = Ledger::new();
    let error =
        ledger.add_or_update_members("nope", vec![member("u1", "Alice", at(2, 0))]).unwrap_err();
    assert_eq!(error.kind, ErrorKind::NotFound);
    assert!(ledger.delete_members("nope", Vec::new()).is_err());
    assert!(ledger.list_members("nope").is_empty());
}

#[test]
fn later_member_write_wins_in_either_order() {
    let older = || member("u1", "Alice", at(2, 0));
    let newer = || member("u1", "Alicia", at(2, 5));

    let mut one = Ledger::new();
    one.create_or_update_group(group("abc", "Tokyo", at(1, 0)));
    one.add_or_update_members("abc", vec![older()]).expect("stored");
    one.add_or_update_members("abc", vec![newer()]).expect("stored");

    let mut other = Ledger::new();
    other.create_or_update_group(group("abc", "Tokyo", at(1, 0)));
    other.add_or_update_members("abc", vec![newer()]).expect("stored");
    other.add_or_update_members("abc", vec![older()]).expect("stored");

    for ledger in [&one, &other] {
        let listed = ledger.list_members("abc");
        assert_eq!(listed.len(), 1);
        assert_eq!(listed[0].nickname, "Alicia");
        assert_eq!(listed[0].modified_at, at(2, 5));
    }
}

#[test]
fn taken_nickname_is_passed_over() {
    let mut ledger = tokyo();
    // Another identity under a nickname of the group: not stored.
    let listed =
        ledger.add_or_update_members("abc", vec![member("u3", "Alice", at(4, 0))]).expect("ok");
    assert_eq!(listed.len(), 2);
    // A rename to a nickname of the group: not stored either.
    let listed =
        ledger.add_or_update_members("abc", vec![member("u2", "Alice", at(4, 0))]).expect("ok");
    assert_eq!(listed.iter().filter(|m| m.nickname == "Alice").count(), 1);
    assert!(listed.iter().any(|m| m.uuid == "u2" && m.nickname == "Bob"));
    // The same nickname in another group is fine.
    ledger.create_or_update_group(group("xyz", "Osaka", at(1, 0)));
    let listed =
        ledger.add_or_update_members("xyz", vec![member("u3", "Alice", at(4, 0))]).expect("ok");
    assert_eq!(listed.len(), 1);
}

#[test]
fn member_of_another_group_is_not_moved() {
    let mut ledger = tokyo();
    ledger.create_or_update_group(group("xyz", "Osaka", at(1, 0)));
    let listed =
        ledger.add_or_update_members("xyz", vec![member("u1", "Alex", at(9, 0))]).expect("ok");
    assert!(listed.is_empty());
    assert!(ledger.list_members("abc").iter().any(|m| m.uuid == "u1" && m.nickname == "Alice"));
}

#[test]
fn stored_nickname_is_cut_to_250_grapheme_clusters() {
    let mut ledger = Ledger::new();
    ledger.create_or_update_group(group("abc", "Tokyo", at(1, 0)));
    let name = "é".repeat(300);
    let listed =
        ledger.add_or_update_members("abc", vec![member("u1", &name, at(2, 0))]).expect("ok");
    assert_eq!(listed[0].nickname.chars().count(), 250);
    assert_eq!(listed[0].nickname, "é".repeat(250));
    assert!(name.starts_with(&listed[0].nickname));
}

#[test]
fn member_delete_is_guarded_by_date() {
    let mut ledger = tokyo();
    ledger.delete_members("abc", vec![member("u2", "Bob", at(2, 0))]).expect("ok");
    assert_eq!(ledger.list_members("abc").len(), 2);
    ledger.delete_members("abc", vec![member("u2", "Bob", at(2, 1))]).expect("ok");
    let listed = ledger.list_members("abc");
    assert_eq!(listed.len(), 1);
    assert_eq!(listed[0].uuid, "u1");
    // Deleting an unknown member is no failure.
    ledger.delete_members("abc", vec![member("u7", "Nobody", at(9, 0))]).expect("ok");
}

#[test]
fn member_with_debt_or_payment_is_not_deleted() {
    let mut ledger = tokyo();
    ledger.create_or_update_transaction("abc", lunch("3", "AAAA", at(3, 10))).expect("stored");
    ledger
        .delete_members(
            "abc",
            vec![member("u1", "Alice", at(9, 0)), member("u2", "Bob", at(9, 0))],
        )
        .expect("ok");
    assert_eq!(ledger.list_members("abc").len(), 2);
    // Once the transaction is gone, so may the members be.
    ledger
        .delete_transaction("abc", TransactionDelete { uuid: "t1".to_string(), modified_at: at(4, 0) })
        .expect("ok");
    ledger.delete_members("abc", vec![member("u2", "Bob", at(9, 0))]).expect("ok");
    assert_eq!(ledger.list_members("abc").len(), 1);
}

#[test]
fn member_with_a_share_of_zero_is_deleted_with_that_share() {
    let mut ledger = tokyo();
    let query = transaction(
        "t1",
        "AAAA",
        "3",
        vec![share("u1", "Alice", "3"), share("u2", "Bob", "0")],
        at(3, 10),
    );
    ledger.create_or_update_transaction("abc", query).expect("stored");
    ledger.delete_members("abc", vec![member("u2", "Bob", at(9, 0))]).expect("ok");
    assert_eq!(ledger.list_members("abc").len(), 1);
    let shown = ledger.get_transaction("abc", "t1").expect("stored");
    assert_eq!(shown.debtors.len(), 1);
    assert_eq!(shown.debtors[0].member.uuid, "u1");
    assert!(total(&shown).same(&shown.amount));
}

#[test]
fn posted_transaction_can_be_read_back() {
    let mut ledger = tokyo();
    ledger.create_or_update_transaction("abc", lunch("3", "AAAA", at(3, 10))).expect("stored");
    let shown = ledger.get_transaction("abc", "t1").expect("stored");
    assert_eq!(shown.uuid, "t1");
    assert_eq!(shown.description, "AAAA");
    assert_eq!(shown.currency_id, "USD");
    assert_eq!(shown.amount.to_text(), "3");
    assert_eq!(shown.paid_by.uuid, "u1");
    assert_eq!(shown.paid_by.nickname, "Alice");
    assert_eq!(shown.created_at, at(3, 8));
    assert_eq!(shown.modified_at, at(3, 10));
    assert_eq!(shown.debtors.len(), 2);
    assert_eq!(shown.debtors[0].member.uuid, "u1");
    assert_eq!(shown.debtors[0].amount.to_text(), "1");
    assert_eq!(shown.debtors[1].member.nickname, "Bob");
    assert_eq!(shown.debtors[1].amount.to_text(), "2");
    assert!(total(&shown).same(&shown.amount));
}

#[test]
fn transaction_whose_shares_do_not_add_up_is_refused() {
    let mut ledger = tokyo();
    ledger.create_or_update_transaction("abc", lunch("3", "AAAA", at(3, 10))).expect("stored");
    let error =
        ledger.create_or_update_transaction("abc", lunch("4", "AAAA", at(3, 11))).unwrap_err();
    assert_eq!(error.kind, ErrorKind::Validation);
    let (status, body) = error.convert_message();
    assert_eq!(status, 500);
    assert!(body.contains("not equivalent"));
    assert_eq!(
        error.content.as_deref(),
        Some("The amount of debtors 3 are not equivalent to the transaction 4")
    );
    // What was stored stays.
    assert_eq!(ledger.get_transaction("abc", "t1").expect("stored").amount.to_text(), "3");
}

#[test]
fn transaction_of_amount_zero_is_refused() {
    let mut ledger = tokyo();
    let query = transaction("t2", "AAAA", "0", vec![share("u1", "Alice", "0")], at(3, 10));
    let error = ledger.create_or_update_transaction("abc", query).unwrap_err();
    assert_eq!(error.convert_message().0, 500);
    assert_eq!(error.content.as_deref(), Some("An amount should be strictly positive"));
    assert!(ledger.get_transaction("abc", "t2").is_err());
}

#[test]
fn stale_transaction_write_changes_nothing() {
    let mut ledger = tokyo();
    ledger.create_or_update_transaction("abc", lunch("3", "AAAA", at(3, 10))).expect("stored");
    ledger.create_or_update_transaction("abc", lunch("3", "OLD", at(3, 9))).expect("no failure");
    let shown = ledger.get_transaction("abc", "t1").expect("stored");
    assert_eq!(shown.description, "AAAA");
    assert_eq!(shown.modified_at, at(3, 10));
}

#[test]
fn later_transaction_write_wins_in_either_order() {
    let older = || lunch("3", "AAAA", at(3, 9));
    let newer = || {
        transaction("t1", "BBBB", "5", vec![share("u2", "Bob", "5")], at(3, 10))
    };
    let mut one = tokyo();
    one.create_or_update_transaction("abc", older()).expect("stored");
    one.create_or_update_transaction("abc", newer()).expect("stored");
    let mut other = tokyo();
    other.create_or_update_transaction("abc", newer()).expect("stored");
    other.create_or_update_transaction("abc", older()).expect("stored");
    for ledger in [&one, &other] {
        let shown = ledger.get_transaction("abc", "t1").expect("stored");
        assert_eq!(shown.description, "BBBB");
        assert_eq!(shown.amount.to_text(), "5");
        // The shares of the earlier write are gone with it.
        assert_eq!(shown.debtors.len(), 1);
        assert_eq!(shown.debtors[0].member.uuid, "u2");
        assert!(total(&shown).same(&shown.amount));
    }
}

#[test]
fn transaction_delete_is_guarded_by_date() {
    let mut ledger = tokyo();
    ledger.create_or_update_transaction("abc", lunch("3", "AAAA", at(3, 10))).expect("stored");
    let request = |hour| TransactionDelete { uuid: "t1".to_string(), modified_at: at(3, hour) };
    ledger.delete_transaction("abc", request(9)).expect("no failure");
    assert!(ledger.get_transaction("abc", "t1").is_ok());
    ledger.delete_transaction("abc", request(10)).expect("no failure");
    assert!(ledger.get_transaction("abc", "t1").is_ok());
    ledger.delete_transaction("abc", request(11)).expect("no failure");
    let error = ledger.get_transaction("abc", "t1").unwrap_err();
    assert_eq!(error.convert_message().0, 404);
    // Deleting it again is no failure.
    ledger.delete_transaction("abc", request(12)).expect("no failure");
    assert!(ledger.delete_transaction("nope", request(12)).is_err());
}

#[test]
fn transaction_needs_its_group_and_its_members() {
    let mut ledger = tokyo();
    let error =
        ledger.create_or_update_transaction("nope", lunch("3", "AAAA", at(3, 10))).unwrap_err();
    assert_eq!(error.kind, ErrorKind::NotFound);
    // Someone who is no member owes a share.
    let query = transaction(
        "t3",
        "AAAA",
        "3",
        vec![share("u1", "Alice", "1"), share("u8", "Stranger", "2")],
        at(3, 10),
    );
    let error = ledger.create_or_update_transaction("abc", query).unwrap_err();
    assert_eq!(error.kind, ErrorKind::NotFound);
    assert!(ledger.get_transaction("abc", "t3").is_err());
    // Someone who is no member has paid.
    let mut query = lunch("3", "AAAA", at(3, 10));
    query.paid_by = who("u8", "Stranger");
    let error = ledger.create_or_update_transaction("abc", query).unwrap_err();
    assert_eq!(error.kind, ErrorKind::NotFound);
}

#[test]
fn transaction_with_two_shares_of_one_member_fails() {
    let mut ledger = tokyo();
    let query = transaction(
        "t4",
        "AAAA",
        "3",
        vec![share("u2", "Bob", "1"), share("u2", "Bob", "2")],
        at(3, 10),
    );
    let error = ledger.create_or_update_transaction("abc", query).unwrap_err();
    assert_eq!(error.kind, ErrorKind::Storage);
    assert_eq!(error.convert_message().0, 500);
}

#[test]
fn transactions_are_listed_by_date() {
    let mut ledger = tokyo();
    for (uuid, day) in [("late", 9), ("early", 2), ("middle", 5)] {
        let mut query = transaction(uuid, uuid, "2", vec![share("u2", "Bob", "2")], at(10, 0));
        query.created_at = at(day, 0);
        ledger.create_or_update_transaction("abc", query).expect("stored");
    }
    let listed = ledger.list_transactions("abc");
    let uuids: Vec<&str> = listed.iter().map(|t| t.uuid.as_str()).collect();
    assert_eq!(uuids, vec!["early", "middle", "late"]);
    for shown in &listed {
        assert!(total(shown).same(&shown.amount));
    }
    assert!(ledger.list_transactions("nope").is_empty());
}

#[test]
fn transactions_show_the_current_nickname() {
    let mut ledger = tokyo();
    ledger.create_or_update_transaction("abc", lunch("3", "AAAA", at(3, 10))).expect("stored");
    ledger.add_or_update_members("abc", vec![member("u2", "Bobby", at(4, 0))]).expect("stored");
    let shown = ledger.get_transaction("abc", "t1").expect("stored");
    assert_eq!(shown.debtors[1].member.nickname, "Bobby");
}

#[test]
fn transaction_of_another_group_is_not_found() {
    let mut ledger = tokyo();
    ledger.create_or_update_group(group("xyz", "Osaka", at(1, 0)));
    ledger.create_or_update_transaction("abc", lunch("3", "AAAA", at(3, 10))).expect("stored");
    assert!(ledger.get_transaction("xyz", "t1").is_err());
    let request = TransactionDelete { uuid: "t1".to_string(), modified_at: at(9, 0) };
    ledger.delete_transaction("xyz", request).expect("no failure");
    assert!(ledger.get_transaction("abc", "t1").is_ok());
}

#[test]
fn nobody_is_a_user_of_a_new_ledger() {
    let ledger = tokyo();
    assert!(ledger.list_groups_by_user(1).is_empty());
}
