//! Groups: the rows that are stored, and how a write or a delete changes
//! them. The later write wins: a stored group gives way only to one that was
//! modified later.

use vstd::prelude::*;
use vstd::string::StringExecFns;
use crate::identifier::fresh_uuid;
use crate::table::{distinct_by, index_where, lemma_index_where, lemma_index_where_is};
use crate::timestamp::Timestamp;

verus! {

/// A group as callers send and receive it. The token is its public handle.
#[derive(Debug)]
pub struct GroupNoID {
    pub token: String,
    pub name: String,
    pub modified_at: Timestamp,
    pub created_at: Timestamp,
    pub currency_id: String,
}

impl Clone for GroupNoID {
    fn clone(&self) -> (r: GroupNoID)
        ensures
            r == *self,
    {
        GroupNoID {
            token: self.token.clone(),
            name: self.name.clone(),
            modified_at: self.modified_at,
            created_at: self.created_at,
            currency_id: self.currency_id.clone(),
        }
    }
}

impl GroupNoID {
    /// A new group with a fresh token, created and modified now.
    pub fn new(name: &str, currency: &str) -> (r: GroupNoID)
        ensures
            r.name@ == name@,
            r.currency_id@ == currency@,
    {
        GroupNoID {
            token: fresh_uuid(),
            name: String::from_str(name),
            modified_at: Timestamp::now(),
            created_at: Timestamp::now(),
            currency_id: String::from_str(currency),
        }
    }
}

/// The token of a group, as the key of its row.
pub open spec fn token_of() -> spec_fn(GroupNoID) -> Seq<char> {
    |g: GroupNoID| g.token@
}

/// Picks the group with the given token.
pub open spec fn has_token(token: Seq<char>) -> spec_fn(GroupNoID) -> bool {
    |g: GroupNoID| g.token@ == token
}

/// No two groups have the same token.
pub open spec fn tokens_distinct(groups: Seq<GroupNoID>) -> bool {
    distinct_by(groups, token_of())
}

/// The stored group with the given token.
pub open spec fn stored_group(groups: Seq<GroupNoID>, token: Seq<char>) -> Option<GroupNoID> {
    let i = index_where(groups, has_token(token));
    if i < groups.len() {
        Some(groups[i])
    } else {
        None
    }
}

/// The row that is stored once `incoming` has been written over `stored`: the
/// incoming row where nothing is stored or what is stored was modified
/// earlier, else the stored row.
pub open spec fn winner(stored: Option<GroupNoID>, incoming: GroupNoID) -> GroupNoID {
    match stored {
        Some(row) => if row.modified_at.before(incoming.modified_at) {
            incoming
        } else {
            row
        },
        None => incoming,
    }
}

/// The groups after `incoming` has been written.
pub open spec fn groups_after_write(groups: Seq<GroupNoID>, incoming: GroupNoID) -> Seq<GroupNoID> {
    let i = index_where(groups, has_token(incoming.token@));
    if i < groups.len() {
        groups.update(i, winner(Some(groups[i]), incoming))
    } else {
        groups.push(incoming)
    }
}

/// Whether a delete dated `modified_at` removes the group `token`: the group
/// is stored and was modified earlier.
pub open spec fn group_delete_applies(
    groups: Seq<GroupNoID>,
    token: Seq<char>,
    modified_at: Timestamp,
) -> bool {
    match stored_group(groups, token) {
        Some(row) => row.modified_at.before(modified_at),
        None => false,
    }
}

/// The groups after a delete of `token` dated `modified_at`.
pub open spec fn groups_after_delete(
    groups: Seq<GroupNoID>,
    token: Seq<char>,
    modified_at: Timestamp,
) -> Seq<GroupNoID> {
    if group_delete_applies(groups, token, modified_at) {
        groups.remove(index_where(groups, has_token(token)))
    } else {
        groups
    }
}

/// A write stores the winner under the token of the incoming group, leaves
/// every other group as it was, and keeps the tokens distinct.
pub proof fn lemma_group_write(groups: Seq<GroupNoID>, incoming: GroupNoID, token: Seq<char>)
    requires
        tokens_distinct(groups),
    ensures
        tokens_distinct(groups_after_write(groups, incoming)),
        stored_group(groups_after_write(groups, incoming), incoming.token@) == Some(
            winner(stored_group(groups, incoming.token@), incoming),
        ),
        token != incoming.token@ ==> stored_group(groups_after_write(groups, incoming), token)
            == stored_group(groups, token),
{
    let after = groups_after_write(groups, incoming);
    let i = index_where(groups, has_token(incoming.token@));
    lemma_index_where(groups, has_token(incoming.token@));
    lemma_index_where(groups, has_token(token));
    lemma_index_where(after, has_token(token));
    let won = winner(stored_group(groups, incoming.token@), incoming);
    assert(won.token@ == incoming.token@);
    assert forall|a: int, b: int| 0 <= a < b < after.len() implies token_of()(#[trigger] after[a])
        != token_of()(#[trigger] after[b]) by {
        if a < groups.len() && b < groups.len() {
            assert(token_of()(groups[a]) != token_of()(groups[b]));
        }
    }
    assert(after[i] == won);
    assert forall|q: int| 0 <= q < i implies !has_token(incoming.token@)(#[trigger] after[q]) by {
        assert(after[q] == groups[q]);
    }
    lemma_index_where_is(after, has_token(incoming.token@), i);
    if token != incoming.token@ {
        let p = index_where(groups, has_token(token));
        assert forall|q: int| 0 <= q < p implies !has_token(token)(#[trigger] after[q]) by {
            if q != i {
                assert(after[q] == groups[q]);
            }
        }
        if p < groups.len() {
            assert(after[p] == groups[p]);
        } else {
            assert(p == groups.len());
            if after.len() > groups.len() {
                assert(!has_token(token)(after[p]));
                assert forall|q: int| 0 <= q < after.len() implies !has_token(token)(
                    #[trigger] after[q],
                ) by {
                    if q < groups.len() {
                        assert(after[q] == groups[q]);
                    }
                }
                lemma_index_where_is(after, has_token(token), after.len() as int);
            }
        }
        if p < groups.len() || after.len() == groups.len() {
            lemma_index_where_is(after, has_token(token), p);
        }
    }
}

/// A delete removes the group where it applies, leaves every other group as
/// it was, and keeps the tokens distinct.
pub proof fn lemma_group_delete(
    groups: Seq<GroupNoID>,
    token: Seq<char>,
    modified_at: Timestamp,
    other: Seq<char>,
)
    requires
        tokens_distinct(groups),
    ensures
        tokens_distinct(groups_after_delete(groups, token, modified_at)),
        stored_group(groups_after_delete(groups, token, modified_at), token) == (
        if group_delete_applies(groups, token, modified_at) {
            None
        } else {
            stored_group(groups, token)
        }),
        other != token ==> stored_group(groups_after_delete(groups, token, modified_at), other)
            == stored_group(groups, other),
{
    let after = groups_after_delete(groups, token, modified_at);
    let i = index_where(groups, has_token(token));
    lemma_index_where(groups, has_token(token));
    lemma_index_where(groups, has_token(other));
    if group_delete_applies(groups, token, modified_at) {
        assert forall|a: int, b: int| 0 <= a < b < after.len() implies token_of()(
            #[trigger] after[a],
        ) != token_of()(#[trigger] after[b]) by {
            let x = if a < i {
                a
            } else {
                a + 1
            };
            let y = if b < i {
                b
            } else {
                b + 1
            };
            assert(after[a] == groups[x] && after[b] == groups[y]);
            assert(token_of()(groups[x]) != token_of()(groups[y]));
        }
        assert forall|q: int| 0 <= q < after.len() implies !has_token(token)(
            #[trigger] after[q],
        ) by {
            if q < i {
                assert(after[q] == groups[q]);
            } else {
                assert(after[q] == groups[q + 1]);
                assert(token_of()(groups[i]) != token_of()(groups[q + 1]));
            }
        }
        lemma_index_where_is(after, has_token(token), after.len() as int);
        if other != token {
            let p = index_where(groups, has_token(other));
            let shifted = if p < i {
                p
            } else {
                p - 1
            };
            assert(p != i);
            assert forall|q: int| 0 <= q < shifted implies !has_token(other)(
                #[trigger] after[q],
            ) by {
                if q < i {
                    assert(after[q] == groups[q]);
                } else {
                    assert(after[q] == groups[q + 1]);
                }
            }
            if p < groups.len() {
                assert(after[shifted] == groups[p]);
            }
            lemma_index_where_is(after, has_token(other), shifted);
        }
    }
}

/// Two writes of the same group converge: whichever arrives first, the one
/// modified later is stored in the end, unless what was stored before is as
/// recent as that one.
pub proof fn lemma_group_writes_converge(
    groups: Seq<GroupNoID>,
    first: GroupNoID,
    second: GroupNoID,
)
    requires
        tokens_distinct(groups),
        first.token@ == second.token@,
        first.modified_at.before(second.modified_at),
        match stored_group(groups, second.token@) {
            Some(row) => row.modified_at.before(second.modified_at),
            None => true,
        },
    ensures
        stored_group(groups_after_write(groups_after_write(groups, first), second), second.token@)
            == Some(second),
        stored_group(groups_after_write(groups_after_write(groups, second), first), second.token@)
            == Some(second),
{
    lemma_group_write(groups, first, first.token@);
    lemma_group_write(groups_after_write(groups, first), second, second.token@);
    lemma_group_write(groups, second, second.token@);
    lemma_group_write(groups_after_write(groups, second), first, first.token@);
}

/// The position of the group with the given token, if it is stored.
pub fn find_group(groups: &Vec<GroupNoID>, token: &String) -> (r: Option<usize>)
    ensures
        match r {
            Some(i) => i == index_where(groups@, has_token(token@)) && i < groups.len()
                && groups[i as int].token@ == token@,
            None => index_where(groups@, has_token(token@)) == groups.len(),
        },
{
    let mut i: usize = 0;
    while i < groups.len() && groups[i].token != *token
        invariant
            i <= groups.len(),
            forall|q: int| 0 <= q < i ==> !has_token(token@)(#[trigger] groups@[q]),
        decreases groups.len() - i,
    {
        i = i + 1;
    }
    proof {
        lemma_index_where_is(groups@, has_token(token@), i as int);
    }
    if i < groups.len() {
        Some(i)
    } else {
        None
    }
}

/// Writes a group: stores it where its token is new, lets it take the place
/// of the stored group where that one was modified earlier, and leaves the
/// stored group alone otherwise. Returns the group as it is stored then.
pub fn write_group(groups: &mut Vec<GroupNoID>, incoming: GroupNoID) -> (r: GroupNoID)
    ensures
        final(groups)@ == groups_after_write(old(groups)@, incoming),
        r == winner(stored_group(old(groups)@, incoming.token@), incoming),
{
    match find_group(groups, &incoming.token) {
        Some(i) => {
            if groups[i].modified_at.is_before(incoming.modified_at) {
                let stored = incoming.clone();
                groups.set(i, incoming);
                stored
            } else {
                proof {
                    assert(groups@ =~= groups@.update(i as int, groups@[i as int]));
                }
                groups[i].clone()
            }
        },
        None => {
            let stored = incoming.clone();
            groups.push(incoming);
            stored
        },
    }
}

/// Deletes the group `token` if it is stored and was modified before
/// `modified_at`. Says whether it did.
pub fn delete_group(groups: &mut Vec<GroupNoID>, token: &String, modified_at: Timestamp) -> (r:
    bool)
    ensures
        r == group_delete_applies(old(groups)@, token@, modified_at),
        final(groups)@ == groups_after_delete(old(groups)@, token@, modified_at),
{
    match find_group(groups, token) {
        Some(i) => {
            if groups[i].modified_at.is_before(modified_at) {
                let _ = groups.remove(i);
                true
            } else {
                false
            }
        },
        None => false,
    }
}

} // verus!
