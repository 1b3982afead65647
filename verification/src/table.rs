//! Rows in a list: where a row is found, which rows are kept, and what it
//! means that no two rows share a key.

use vstd::prelude::*;

verus! {

/// The position of the first row that `pick` picks; the length of the list
/// where it picks none.
pub open spec fn index_where<T>(rows: Seq<T>, pick: spec_fn(T) -> bool) -> int
    decreases rows.len(),
{
    if rows.len() == 0 || pick(rows[0]) {
        0
    } else {
        1 + index_where(rows.drop_first(), pick)
    }
}

/// `pick` picks some row.
pub open spec fn any_where<T>(rows: Seq<T>, pick: spec_fn(T) -> bool) -> bool {
    exists|i: int| 0 <= i < rows.len() && pick(#[trigger] rows[i])
}

/// The rows that `pick` picks, in order.
pub open spec fn keep_where<T>(rows: Seq<T>, pick: spec_fn(T) -> bool) -> Seq<T>
    decreases rows.len(),
{
    if rows.len() == 0 {
        Seq::empty()
    } else if pick(rows.last()) {
        keep_where(rows.drop_last(), pick).push(rows.last())
    } else {
        keep_where(rows.drop_last(), pick)
    }
}

/// No two rows have the same key.
pub open spec fn distinct_by<T, K>(rows: Seq<T>, key: spec_fn(T) -> K) -> bool {
    forall|i: int, j: int|
        0 <= i < j < rows.len() ==> key(#[trigger] rows[i]) != key(#[trigger] rows[j])
}

/// What [`index_where`] names: no row before it is picked, and the row at it
/// is.
pub proof fn lemma_index_where<T>(rows: Seq<T>, pick: spec_fn(T) -> bool)
    ensures
        0 <= index_where(rows, pick) <= rows.len(),
        forall|q: int| 0 <= q < index_where(rows, pick) ==> !pick(#[trigger] rows[q]),
        index_where(rows, pick) < rows.len() ==> pick(rows[index_where(rows, pick)]),
        index_where(rows, pick) < rows.len() <==> any_where(rows, pick),
    decreases rows.len(),
{
    if !(rows.len() == 0 || pick(rows[0])) {
        let rest = rows.drop_first();
        lemma_index_where(rest, pick);
        let p = index_where(rest, pick);
        assert forall|q: int| 0 <= q < p + 1 implies !pick(#[trigger] rows[q]) by {
            if q > 0 {
                assert(rows[q] == rest[q - 1]);
            }
        }
        if p < rest.len() {
            assert(rows[p + 1] == rest[p]);
        }
        if any_where(rows, pick) {
            let i = choose|i: int| 0 <= i < rows.len() && pick(#[trigger] rows[i]);
            assert(rest[i - 1] == rows[i]);
        }
    }
}

/// A position with no picked row before it, and a picked row at it unless it
/// is the end, is the one that [`index_where`] names.
pub proof fn lemma_index_where_is<T>(rows: Seq<T>, pick: spec_fn(T) -> bool, p: int)
    requires
        0 <= p <= rows.len(),
        forall|q: int| 0 <= q < p ==> !pick(#[trigger] rows[q]),
        p < rows.len() ==> pick(rows[p]),
    ensures
        index_where(rows, pick) == p,
{
    lemma_index_where(rows, pick);
    let i = index_where(rows, pick);
    if i < p {
        assert(!pick(rows[i]));
    }
    if p < i {
        assert(!pick(rows[p]));
    }
}

/// Every kept row is a picked row of the list, and every picked row of the
/// list is kept.
pub proof fn lemma_keep_where<T>(rows: Seq<T>, pick: spec_fn(T) -> bool)
    ensures
        keep_where(rows, pick).len() <= rows.len(),
        forall|i: int|
            0 <= i < keep_where(rows, pick).len() ==> pick(#[trigger] keep_where(rows, pick)[i])
                && rows.contains(keep_where(rows, pick)[i]),
        forall|i: int|
            0 <= i < rows.len() && pick(#[trigger] rows[i]) ==> keep_where(rows, pick).contains(
                rows[i],
            ),
    decreases rows.len(),
{
    if rows.len() > 0 {
        let rest = rows.drop_last();
        let kept = keep_where(rest, pick);
        let all = keep_where(rows, pick);
        lemma_keep_where(rest, pick);
        assert forall|i: int| 0 <= i < all.len() implies pick(#[trigger] all[i]) && rows.contains(
            all[i],
        ) by {
            if i < kept.len() {
                assert(all[i] == kept[i]);
                let q = choose|q: int| 0 <= q < rest.len() && rest[q] == kept[i];
                assert(rows[q] == kept[i]);
            } else {
                assert(all[i] == rows[rows.len() - 1]);
            }
        }
        assert forall|i: int| 0 <= i < rows.len() && pick(#[trigger] rows[i]) implies all.contains(
            rows[i],
        ) by {
            if i < rest.len() {
                assert(rest[i] == rows[i]);
                let q = choose|q: int| 0 <= q < kept.len() && kept[q] == rest[i];
                assert(all[q] == rows[i]);
            } else {
                assert(all[all.len() - 1] == rows[i]);
            }
        }
    }
}

/// Where every row is picked, all are kept.
pub proof fn lemma_keep_all<T>(rows: Seq<T>, pick: spec_fn(T) -> bool)
    requires
        forall|i: int| 0 <= i < rows.len() ==> pick(#[trigger] rows[i]),
    ensures
        keep_where(rows, pick) == rows,
    decreases rows.len(),
{
    if rows.len() > 0 {
        let rest = rows.drop_last();
        assert forall|i: int| 0 <= i < rest.len() implies pick(#[trigger] rest[i]) by {
            assert(rest[i] == rows[i]);
        }
        lemma_keep_all(rest, pick);
        assert(rows.last() == rows[rows.len() - 1]);
        assert(rest.push(rows.last()) =~= rows);
    } else {
        assert(rows =~= Seq::<T>::empty());
    }
}

/// Keeping some rows of a list without equal keys leaves no equal keys.
pub proof fn lemma_keep_where_distinct<T, K>(
    rows: Seq<T>,
    pick: spec_fn(T) -> bool,
    key: spec_fn(T) -> K,
)
    requires
        distinct_by(rows, key),
    ensures
        distinct_by(keep_where(rows, pick), key),
    decreases rows.len(),
{
    if rows.len() > 0 {
        let rest = rows.drop_last();
        let kept = keep_where(rest, pick);
        let all = keep_where(rows, pick);
        assert forall|i: int, j: int| 0 <= i < j < rest.len() implies key(#[trigger] rest[i])
            != key(#[trigger] rest[j]) by {
            assert(rest[i] == rows[i] && rest[j] == rows[j]);
        }
        lemma_keep_where_distinct(rest, pick, key);
        lemma_keep_where(rest, pick);
        assert forall|i: int, j: int| 0 <= i < j < all.len() implies key(#[trigger] all[i]) != key(
            #[trigger] all[j],
        ) by {
            if j < kept.len() {
                assert(all[i] == kept[i] && all[j] == kept[j]);
            } else {
                assert(all[i] == kept[i]);
                let q = choose|q: int| 0 <= q < rest.len() && rest[q] == kept[i];
                assert(rows[q] == kept[i]);
                assert(all[j] == rows[rows.len() - 1]);
            }
        }
    }
}

/// Taking a row out of a list without equal keys leaves no equal keys.
pub proof fn lemma_remove_distinct<T, K>(rows: Seq<T>, key: spec_fn(T) -> K, p: int)
    requires
        distinct_by(rows, key),
        0 <= p < rows.len(),
    ensures
        distinct_by(rows.remove(p), key),
{
    let after = rows.remove(p);
    assert forall|i: int, j: int| 0 <= i < j < after.len() implies key(#[trigger] after[i]) != key(
        #[trigger] after[j],
    ) by {
        let x = if i < p {
            i
        } else {
            i + 1
        };
        let y = if j < p {
            j
        } else {
            j + 1
        };
        assert(after[i] == rows[x] && after[j] == rows[y]);
        assert(key(rows[x]) != key(rows[y]));
    }
}

} // verus!
