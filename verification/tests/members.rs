use share_count::entrypoint::group_members::{
    truncate_nickname, GroupMember, GroupMemberNoDate, MAX_MEMBER_NAME_SIZE,
};
use unicode_segmentation::UnicodeSegmentation;

fn clusters(text: &str) -> usize {
    text.graphemes(true).count()
}

#[test]
fn short_nickname_is_kept() {
    assert_eq!(truncate_nickname("Alice"), "Alice");
    assert_eq!(truncate_nickname(""), "");
}

#[test]
fn nickname_of_250_is_kept() {
    let name = "a".repeat(250);
    assert_eq!(truncate_nickname(&name), name);
}

#[test]
fn nickname_of_300_letters_is_cut_to_250() {
    let name: String = (0..300).map(|i| char::from(b'a' + (i % 26) as u8)).collect();
    let cut = truncate_nickname(&name);
    assert_eq!(clusters(&cut), 250);
    assert_eq!(cut.len(), 250);
    assert!(name.starts_with(&cut));
}

#[test]
fn nickname_of_300_wide_characters_is_cut_to_250() {
    let name = "漢".repeat(300);
    let cut = truncate_nickname(&name);
    assert_eq!(clusters(&cut), 250);
    assert_eq!(cut, "漢".repeat(250));
    assert!(name.starts_with(&cut));
}

#[test]
fn nickname_is_cut_between_grapheme_clusters() {
    // One cluster each: a letter with a combining accent, a flag, a family.
    let cluster = ["e\u{301}", "🇯🇵", "👨\u{200d}👩\u{200d}👧"];
    let name: String = (0..300).map(|i| cluster[i % 3]).collect();
    assert_eq!(clusters(&name), 300);
    let cut = truncate_nickname(&name);
    assert_eq!(clusters(&cut), MAX_MEMBER_NAME_SIZE);
    assert!(name.starts_with(&cut));
    let expected: String = (0..250).map(|i| cluster[i % 3]).collect();
    assert_eq!(cut, expected);
}

#[test]
fn new_member_has_name_and_fresh_uuid() {
    let a = GroupMember::new("Waluigi");
    let b = GroupMember::new("Waluigi");
    assert_eq!(a.nickname, "Waluigi");
    assert_eq!(a.uuid.len(), 36);
    assert_ne!(a.uuid, b.uuid);
    assert!(a.modified_at.micros > 1_700_000_000_000_000);
}

#[test]
fn member_without_date_keeps_uuid_and_nickname() {
    let member = GroupMember::new("JOJO");
    let by_ref = GroupMemberNoDate::from(&member);
    assert_eq!(by_ref.uuid, member.uuid);
    assert_eq!(by_ref.nickname, "JOJO");
    let uuid = member.uuid.clone();
    let by_value = GroupMemberNoDate::from(member);
    assert_eq!(by_value.uuid, uuid);
    assert_eq!(by_value.nickname, "JOJO");
}
