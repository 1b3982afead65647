//! Members of a group, as callers name them.

use unicode_segmentation::UnicodeSegmentation;
use vstd::prelude::*;
use vstd::string::StringExecFns;
use crate::decimal::Decimal;
use crate::identifier::fresh_uuid;
use crate::timestamp::Timestamp;

verus! {

/// The most grapheme clusters that a nickname keeps.
pub const MAX_MEMBER_NAME_SIZE: usize = 250;

/// A member as a caller sends and receives it.
#[derive(Debug)]
pub struct GroupMember {
    pub uuid: String,
    pub nickname: String,
    pub modified_at: Timestamp,
}

/// A member as a caller sends and receives it, by its values.
pub struct GroupMemberView {
    pub uuid: Seq<char>,
    pub nickname: Seq<char>,
    pub modified_at: Timestamp,
}

impl View for GroupMember {
    type V = GroupMemberView;

    open spec fn view(&self) -> GroupMemberView {
        GroupMemberView {
            uuid: self.uuid@,
            nickname: self.nickname@,
            modified_at: self.modified_at,
        }
    }
}

impl Clone for GroupMember {
    fn clone(&self) -> (r: GroupMember)
        ensures
            r == *self,
    {
        GroupMember {
            uuid: self.uuid.clone(),
            nickname: self.nickname.clone(),
            modified_at: self.modified_at,
        }
    }
}

impl GroupMember {
    /// A new member called `name`, with a fresh identifier and the current
    /// time.
    pub fn new(name: &str) -> (r: GroupMember)
        ensures
            r.nickname@ == name@,
    {
        GroupMember {
            uuid: fresh_uuid(),
            nickname: String::from_str(name),
            modified_at: Timestamp::now(),
        }
    }
}

/// A member inside a transaction: who it is and how it is called.
#[derive(Debug)]
pub struct GroupMemberNoDate {
    pub uuid: String,
    pub nickname: String,
}

/// A member inside a transaction, by its values.
pub struct GroupMemberNoDateView {
    pub uuid: Seq<char>,
    pub nickname: Seq<char>,
}

impl View for GroupMemberNoDate {
    type V = GroupMemberNoDateView;

    open spec fn view(&self) -> GroupMemberNoDateView {
        GroupMemberNoDateView { uuid: self.uuid@, nickname: self.nickname@ }
    }
}

impl Clone for GroupMemberNoDate {
    fn clone(&self) -> (r: GroupMemberNoDate)
        ensures
            r == *self,
    {
        GroupMemberNoDate { uuid: self.uuid.clone(), nickname: self.nickname.clone() }
    }
}

impl From<GroupMember> for GroupMemberNoDate {
    /// The member without its time of change.
    fn from(item: GroupMember) -> (r: GroupMemberNoDate) {
        GroupMemberNoDate { uuid: item.uuid, nickname: item.nickname }
    }
}

impl vstd::std_specs::convert::FromSpecImpl<GroupMember> for GroupMemberNoDate {
    open spec fn obeys_from_spec() -> bool {
        true
    }

    open spec fn from_spec(item: GroupMember) -> GroupMemberNoDate {
        GroupMemberNoDate { uuid: item.uuid, nickname: item.nickname }
    }
}

impl From<&GroupMember> for GroupMemberNoDate {
    /// The member without its time of change.
    fn from(item: &GroupMember) -> (r: GroupMemberNoDate) {
        GroupMemberNoDate { uuid: item.uuid.clone(), nickname: item.nickname.clone() }
    }
}

impl vstd::std_specs::convert::FromSpecImpl<&GroupMember> for GroupMemberNoDate {
    open spec fn obeys_from_spec() -> bool {
        true
    }

    open spec fn from_spec(item: &GroupMember) -> GroupMemberNoDate {
        GroupMemberNoDate { uuid: item.uuid, nickname: item.nickname }
    }
}

/// Some amount of the list is not zero.
pub open spec fn any_not_zero(amounts: Seq<Decimal>) -> bool {
    exists|i: int| 0 <= i < amounts.len() && !(#[trigger] amounts[i])@.is_zero()
}

/// Whether an amount of the list is not zero.
pub fn has_amount(amounts: &Vec<Decimal>) -> (r: bool)
    ensures
        r == any_not_zero(amounts@),
{
    let mut i: usize = 0;
    while i < amounts.len()
        invariant
            i <= amounts.len(),
            forall|q: int| 0 <= q < i ==> (#[trigger] amounts@[q])@.is_zero(),
        decreases amounts.len() - i,
    {
        if !amounts[i].is_zero() {
            return true;
        }
        i = i + 1;
    }
    false
}

/// Whether a member may be deleted: it may where it owes no share other than
/// of zero and has paid no transaction other than of zero. `owed` holds the
/// amounts of its shares, `paid` the amounts of the transactions it paid.
pub fn may_delete_member(owed: &Vec<Decimal>, paid: &Vec<Decimal>) -> (r: bool)
    ensures
        r == (!any_not_zero(owed@) && !any_not_zero(paid@)),
{
    let has_debt = has_amount(owed);
    let has_paid = has_amount(paid);
    !has_debt && !has_paid
}

/// The extended grapheme clusters of a text, in order, as
/// `unicode-segmentation` tells them apart.
pub uninterp spec fn grapheme_clusters(text: Seq<char>) -> Seq<Seq<char>>;

/// The texts joined together, in order.
pub open spec fn joined(parts: Seq<Seq<char>>) -> Seq<char>
    decreases parts.len(),
{
    if parts.len() == 0 {
        Seq::empty()
    } else {
        joined(parts.drop_last()) + parts.last()
    }
}

/// The views of a list of texts.
pub open spec fn text_views(texts: Seq<String>) -> Seq<Seq<char>> {
    Seq::new(texts.len(), |i: int| texts[i]@)
}

/// How many grapheme clusters of a nickname are kept.
pub open spec fn kept_clusters(nickname: Seq<char>) -> int {
    if grapheme_clusters(nickname).len() <= MAX_MEMBER_NAME_SIZE {
        grapheme_clusters(nickname).len() as int
    } else {
        MAX_MEMBER_NAME_SIZE as int
    }
}

/// The nickname cut down to its first 250 grapheme clusters.
pub open spec fn truncated(nickname: Seq<char>) -> Seq<char> {
    joined(grapheme_clusters(nickname).take(kept_clusters(nickname)))
}

/// `head` is how `text` begins.
pub open spec fn is_prefix(head: Seq<char>, text: Seq<char>) -> bool {
    head.len() <= text.len() && head == text.take(head.len() as int)
}

/// Joining the first parts gives a prefix of joining all of them.
pub proof fn lemma_joined_take(parts: Seq<Seq<char>>, n: int)
    requires
        0 <= n <= parts.len(),
    ensures
        joined(parts.take(n)).len() <= joined(parts).len(),
        joined(parts.take(n)) == joined(parts).take(joined(parts.take(n)).len() as int),
    decreases parts.len(),
{
    if n == parts.len() {
        assert(parts.take(n) =~= parts);
        assert(joined(parts) =~= joined(parts).take(joined(parts).len() as int));
    } else {
        let rest = parts.drop_last();
        assert(rest.take(n) =~= parts.take(n));
        lemma_joined_take(rest, n);
        let head = joined(parts.take(n));
        assert(head =~= (joined(rest) + parts.last()).take(head.len() as int));
    }
}

/// Cuts a nickname down to its first 250 grapheme clusters. A shorter nickname
/// is kept as it is.
pub fn truncate_nickname(nickname: &str) -> (r: String)
    ensures
        r@ == truncated(nickname@),
        is_prefix(r@, nickname@),
        grapheme_clusters(nickname@).len() <= MAX_MEMBER_NAME_SIZE ==> r@ == nickname@,
{
    let clusters = split_graphemes(nickname);
    let ghost parts = grapheme_clusters(nickname@);
    let mut kept = String::new();
    let mut i: usize = 0;
    proof {
        assert(parts.take(0) =~= Seq::<Seq<char>>::empty());
    }
    while i < clusters.len() && i < MAX_MEMBER_NAME_SIZE
        invariant
            i <= clusters.len(),
            i <= MAX_MEMBER_NAME_SIZE,
            text_views(clusters@) == parts,
            kept@ == joined(parts.take(i as int)),
        decreases clusters.len() - i,
    {
        proof {
            assert(parts.take(i + 1).drop_last() =~= parts.take(i as int));
            assert(parts.take(i + 1).last() == clusters[i as int]@);
        }
        kept.append(clusters[i].as_str());
        i = i + 1;
    }
    proof {
        assert(i == kept_clusters(nickname@));
        lemma_joined_take(parts, i as int);
        if parts.len() <= MAX_MEMBER_NAME_SIZE {
            assert(parts.take(i as int) =~= parts);
        }
    }
    kept
}

/// `UnicodeSegmentation::graphemes(text, true)`: the extended grapheme
/// clusters of the text. Joined together, in order, they give the text back.
#[verifier::external_body]
fn split_graphemes(text: &str) -> (r: Vec<String>)
    ensures
        text_views(r@) == grapheme_clusters(text@),
        joined(text_views(r@)) == text@,
{
    let mut clusters: Vec<String> = Vec::new();
    for cluster in text.graphemes(true) {
        clusters.push(cluster.to_string());
    }
    clusters
}

} // verus!
