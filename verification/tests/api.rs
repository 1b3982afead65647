use share_count::entrypoint::group_members::{GroupMember, GroupMemberNoDate};
use share_count::entrypoint::groups::GroupNoID;
use share_count::entrypoint::transactions::{TransactionDelete, TransactionQuery};
use share_count::ledger::Ledger;
use share_count::timestamp::Timestamp;

fn later(time: Timestamp, micros: i64) -> Timestamp {
    Timestamp::from_micros(time.micros + micros)
}

const HOUR: i64 = 3_600_000_000;

fn create_group(
    name: &str,
    currency: &str,
    members: &[&str],
    ledger: &mut Ledger,
) -> (GroupNoID, Vec<GroupMember>) {
    let group = ledger.create_or_update_group(GroupNoID::new(name, currency));
    let members = members.iter().map(|name| GroupMember::new(name)).collect::<Vec<GroupMember>>();
    let members = ledger.add_or_update_members(&group.token, members).expect("200");
    (group, members)
}

fn create_transaction(
    members: &[GroupMember],
    uuid: &str,
    desc: &str,
    main_amount: &str,
    debtors_amount: &str,
) -> TransactionQuery {
    let members = members.iter().map(GroupMemberNoDate::from).collect::<Vec<GroupMemberNoDate>>();
    let mut new_transaction = TransactionQuery::new(uuid, desc, &members[0], main_amount);
    for member in &members {
        new_transaction.add_debtor(member, debtors_amount);
    }
    new_transaction
}

fn copy(transaction: &TransactionQuery) -> TransactionQuery {
    TransactionQuery {
        uuid: transaction.uuid.clone(),
        description: transaction.description.clone(),
        currency_id: transaction.currency_id.clone(),
        paid_by: transaction.paid_by.clone(),
        created_at: transaction.created_at,
        exchange_rate: transaction.exchange_rate.clone(),
        amount: transaction.amount.clone(),
        modified_at: transaction.modified_at,
        debtors: transaction.debtors.clone(),
    }
}

#[test]
fn manage_group() {
    let mut ledger = Ledger::new();
    assert_eq!(ledger.get_group("token_unknown").unwrap_err().convert_message().0, 404);

    let created = create_group("Tokyo", "USD", &["TEST1"], &mut ledger);
    let token = created.0.token;

    let group = ledger.get_group(&token).expect("200");
    assert_eq!(group.name, "Tokyo");
    assert_eq!(group.currency_id, "USD");
    assert!(group.created_at.micros > 0);
}

#[test]
fn manage_member() {
    let mut ledger = Ledger::new();
    let created = create_group("Tokyo", "USD", &["Waluigi", "JOJO", "JOHN"], &mut ledger);
    let token = created.0.token;

    let group = ledger.list_members(&token);
    assert_eq!(group.len(), 3);
    let jojo = group.iter().find(|member| member.nickname.eq("JOJO")).expect("present");
    let uuid_jojo = jojo.uuid.clone();
    let renamed_at = later(jojo.modified_at, 1);

    ledger
        .add_or_update_members(
            &token,
            vec![GroupMember {
                modified_at: renamed_at,
                nickname: "JAJA".to_string(),
                uuid: uuid_jojo.clone(),
            }],
        )
        .expect("200");

    let group = ledger.list_members(&token);
    assert_eq!(group.len(), 3);
    assert!(group.iter().any(|name| name.nickname.eq(&String::from("JAJA"))));

    ledger
        .delete_members(
            &token,
            vec![GroupMember {
                uuid: uuid_jojo,
                nickname: "JAJA".to_string(),
                modified_at: later(renamed_at, 1),
            }],
        )
        .expect("200");

    let group = ledger.list_members(&token);
    assert_eq!(group.len(), 2);
}

#[test]
fn manage_transactions() {
    let mut ledger = Ledger::new();
    let created = create_group("Tokyo", "USD", &["Waluigi", "JOJO", "JOHN"], &mut ledger);
    let token = created.0.token;
    let group = ledger.list_members(&token);
    assert_eq!(group.len(), 3);

    let mut new_transaction = create_transaction(&group, "t-one", "AAAA", "3", "1");
    let start = new_transaction.modified_at;
    let new_uuid = new_transaction.get_uuid();
    ledger.create_or_update_transaction(&token, copy(&new_transaction)).expect("200");
    let transaction = ledger.get_transaction(&token, &new_uuid).expect("200");
    assert_eq!(transaction.description, "AAAA");

    new_transaction.set_description("BBBB");
    new_transaction.set_time(&later(start, 1));
    ledger.create_or_update_transaction(&token, copy(&new_transaction)).expect("200");
    let transaction = ledger.get_transaction(&token, &new_uuid).expect("200");
    assert_eq!(transaction.description, "BBBB");

    let new_transaction = create_transaction(&group, "t-two", "AAAA", "4", "1");
    let error = ledger.create_or_update_transaction(&token, new_transaction).unwrap_err();
    assert_eq!(error.convert_message().0, 500);

    let mut new_transaction = create_transaction(&group, "t-three", "AAAA", "0", "1");
    let error = ledger.create_or_update_transaction(&token, copy(&new_transaction)).unwrap_err();
    assert_eq!(error.convert_message().0, 500);
    new_transaction.set_amount("3");
    let stored_at = later(start, 10);
    new_transaction.set_time(&stored_at);
    ledger.create_or_update_transaction(&token, copy(&new_transaction)).expect("200");

    new_transaction.set_description("OLD");
    new_transaction.set_time(&later(stored_at, -HOUR));
    ledger.create_or_update_transaction(&token, copy(&new_transaction)).expect("200");
    let transaction = ledger.get_transaction(&token, &new_transaction.get_uuid()).expect("200");
    assert_eq!(transaction.description.as_str(), "AAAA");

    new_transaction.set_description("NEW");
    let new_datetime = later(stored_at, 24 * HOUR);
    new_transaction.set_time(&new_datetime);
    ledger.create_or_update_transaction(&token, copy(&new_transaction)).expect("200");
    let transaction = ledger.get_transaction(&token, &new_transaction.get_uuid()).expect("200");
    assert_eq!(transaction.description.as_str(), "NEW");

    let new_datetime = later(new_datetime, -HOUR);
    ledger
        .delete_transaction(
            &token,
            TransactionDelete { uuid: new_transaction.get_uuid(), modified_at: new_datetime },
        )
        .expect("200");
    ledger.get_transaction(&token, &new_transaction.get_uuid()).expect("200");

    let new_datetime = later(new_datetime, 48 * HOUR);
    ledger
        .delete_transaction(
            &token,
            TransactionDelete { uuid: new_transaction.get_uuid(), modified_at: new_datetime },
        )
        .expect("200");
    let error = ledger.get_transaction(&token, &new_transaction.get_uuid()).unwrap_err();
    assert_eq!(error.convert_message().0, 404);
}

#[test]
fn test_full_crud_flow() {
    let mut ledger = Ledger::new();
    assert_eq!(ledger.get_group("token_unknown").unwrap_err().convert_message().0, 404);

    let created = create_group("Tokyo", "USD", &["waluigi", "mario", "JOJO"], &mut ledger);
    let token = created.0.token;
    let group = ledger.get_group(&token).expect("200");
    assert_eq!(group.name, "Tokyo");
    assert_eq!(group.currency_id, "USD");

    let members = ledger.list_members(&token);
    assert_eq!(members.len(), 3);
    let jojo = members.iter().find(|member| member.nickname.eq("JOJO")).expect("present");
    let renamed = GroupMember {
        uuid: jojo.uuid.clone(),
        nickname: "JAJA".to_string(),
        modified_at: later(jojo.modified_at, 1),
    };
    ledger.add_or_update_members(&token, vec![renamed.clone()]).expect("200");
    let members = ledger.list_members(&token);
    assert_eq!(members.len(), 3);
    assert!(members.iter().any(|name| name.nickname.eq(&String::from("JAJA"))));

    let gone = GroupMember { modified_at: later(renamed.modified_at, 1), ..renamed };
    ledger.delete_members(&token, vec![gone]).expect("200");
    let members = ledger.list_members(&token);
    assert_eq!(members.len(), 2);

    let first_member = GroupMemberNoDate::from(&members[0]);
    let post = |ledger: &mut Ledger, description: &str, amount: &str, share: &str, at: i64| {
        let mut query = TransactionQuery::new("t-1111", description, &first_member, amount);
        query.add_debtor(&first_member, share);
        query.set_time(&Timestamp::from_micros(at));
        ledger.create_or_update_transaction(&token, query)
    };
    post(&mut ledger, "AAAA", "1111", "1111", 1).expect("200");
    assert_eq!(ledger.get_transaction(&token, "t-1111").expect("200").description, "AAAA");
    post(&mut ledger, "BBBB", "1111", "1111", 2).expect("200");
    assert_eq!(ledger.get_transaction(&token, "t-1111").expect("200").description, "BBBB");
    assert_eq!(post(&mut ledger, "AAAA", "1111", "111", 3).unwrap_err().convert_message().0, 500);
    assert_eq!(post(&mut ledger, "AAAA", "0", "111", 3).unwrap_err().convert_message().0, 500);
    assert_eq!(post(&mut ledger, "AAAA", "-10", "111", 3).unwrap_err().convert_message().0, 500);
    ledger
        .delete_transaction(
            &token,
            TransactionDelete { uuid: "t-1111".to_string(), modified_at: Timestamp::from_micros(9) },
        )
        .expect("200");
    assert!(ledger.get_transaction(&token, "t-1111").is_err());
}
