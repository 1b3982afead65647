use share_count::decimal::Decimal;
use share_count::settlement::{
    compute_balance, compute_settlements, sort_amounts_descending, Amount, GroupMember, Settlement,
};

fn dec(text: &str) -> Decimal {
    Decimal::parse(text).expect("a decimal number")
}

fn member(name: &str) -> GroupMember {
    GroupMember { uuid: format!("uuid-{name}"), nickname: name.to_string() }
}

fn amount(name: &str, value: &str) -> Amount {
    Amount { member: member(name), amount: dec(value) }
}

fn shown(settlements: &[Settlement]) -> Vec<(String, String, String)> {
    settlements
        .iter()
        .map(|s| {
            (s.member_from.nickname.clone(), s.member_to.nickname.clone(), s.amount.to_text())
        })
        .collect()
}

fn triple(from: &str, to: &str, value: &str) -> (String, String, String) {
    (from.to_string(), to.to_string(), value.to_string())
}

/// What each member is still owed after the transfers, in the order of `balances`.
fn outstanding(balances: &[Amount], settlements: &[Settlement]) -> Vec<Decimal> {
    balances
        .iter()
        .map(|b| {
            let mut rest = b.amount.clone();
            for s in settlements {
                if s.member_to.uuid == b.member.uuid {
                    rest.sub_assign_ref(&s.amount);
                }
                if s.member_from.uuid == b.member.uuid {
                    rest.add_assign_ref(&s.amount);
                }
            }
            rest
        })
        .collect()
}

#[test]
fn settlements_of_three_members() {
    let result = compute_settlements(vec![amount("A", "3"), amount("B", "1"), amount("C", "-4")]);
    assert_eq!(shown(&result), vec![triple("C", "A", "3"), triple("C", "B", "1")]);
}

#[test]
fn settlements_do_not_depend_on_input_order() {
    let result = compute_settlements(vec![amount("C", "-4"), amount("B", "1"), amount("A", "3")]);
    assert_eq!(shown(&result), vec![triple("C", "A", "3"), triple("C", "B", "1")]);
}

#[test]
fn settlements_of_nothing_are_empty() {
    assert!(compute_settlements(Vec::new()).is_empty());
}

#[test]
fn settlements_of_one_balance_are_empty() {
    assert!(compute_settlements(vec![amount("A", "0")]).is_empty());
}

#[test]
fn settlements_clear_balances_that_sum_to_zero() {
    let balances = vec![
        amount("A", "10.50"),
        amount("B", "-3.25"),
        amount("C", "4.75"),
        amount("D", "-7"),
        amount("E", "-5"),
        amount("F", "0"),
    ];
    let result = compute_settlements(balances.clone());
    assert!(result.len() <= balances.len() - 1);
    for rest in outstanding(&balances, &result) {
        assert!(rest.is_zero());
    }
    for s in &result {
        assert!(Decimal::zero().lt(&s.amount));
    }
}

#[test]
fn settlements_pair_largest_creditor_with_largest_debtor() {
    let result = compute_settlements(vec![
        amount("A", "5"),
        amount("B", "4"),
        amount("C", "-3"),
        amount("D", "-6"),
    ]);
    assert_eq!(
        shown(&result),
        vec![triple("D", "A", "5"), triple("D", "B", "1"), triple("C", "B", "3")]
    );
}

#[test]
fn settlements_leave_the_imbalance_where_sums_are_not_zero() {
    let balances = vec![amount("A", "5"), amount("B", "-3")];
    let result = compute_settlements(balances.clone());
    assert_eq!(shown(&result), vec![triple("B", "A", "3")]);
    let rest = outstanding(&balances, &result);
    assert!(rest[0].same(&dec("2")));
    assert!(rest[1].is_zero());
}

#[test]
fn sort_is_descending_and_keeps_equal_amounts_in_order() {
    let sorted = sort_amounts_descending(&vec![
        amount("A", "1"),
        amount("B", "3"),
        amount("C", "1.0"),
        amount("D", "-2"),
        amount("E", "3.00"),
    ]);
    let names: Vec<&str> = sorted.iter().map(|a| a.member.nickname.as_str()).collect();
    assert_eq!(names, vec!["B", "E", "A", "C", "D"]);
}

#[test]
fn balance_sums_by_nickname() {
    let result = compute_balance(vec![
        amount("Alice", "3"),
        amount("Bob", "-1"),
        amount("Alice", "-0.5"),
        amount("Carol", "2"),
        amount("Bob", "-2"),
    ]);
    assert_eq!(result.len(), 3);
    let find = |name: &str| result.iter().find(|a| a.member.nickname == name).expect("present");
    assert!(find("Alice").amount.same(&dec("2.5")));
    assert!(find("Bob").amount.same(&dec("-3")));
    assert!(find("Carol").amount.same(&dec("2")));
}

#[test]
fn balance_keeps_the_first_member_of_a_nickname() {
    let result = compute_balance(vec![
        Amount { member: GroupMember { uuid: "u1".into(), nickname: "Al".into() }, amount: dec("1") },
        Amount { member: GroupMember { uuid: "u2".into(), nickname: "Al".into() }, amount: dec("2") },
    ]);
    assert_eq!(result.len(), 1);
    assert_eq!(result[0].member.uuid, "u1");
    assert!(result[0].amount.same(&dec("3")));
}

#[test]
fn balance_of_nothing_is_empty() {
    assert!(compute_balance(Vec::new()).is_empty());
}
