//! Laws of the history that relate several calls or hold of every table.

use crate::listing::{
    by_recency, lemma_by_recency_members, lemma_by_recency_sorted, lemma_matches_members,
    lemma_matches_sorted, matches_of, newer, newest_first, search_result,
};
use crate::record::RecordView;
use crate::store::{
    holds_fingerprint, keeps_favorites, saved, table_wf, touched, StoreError, TableView, Write,
};
use crate::text::{contains, highlighted, md5_hex_of};
use vstd::prelude::*;

verus! {

/// The id of the row that a write concerns.
pub open spec fn written_id(w: Write) -> u64 {
    match w {
        Write::Inserted { record } => record.id,
        Write::Touched { id, .. } => id,
    }
}

/// Saving the same content twice leaves exactly one row with its
/// fingerprint; the second save only touches it, so the row keeps the id
/// that the first save gave or found and takes the second save's time.
pub proof fn lemma_dedup_idempotent(
    s0: TableView,
    s1: TableView,
    s2: TableView,
    content: Seq<char>,
    t1: u64,
    t2: u64,
    w1: Result<Write, StoreError>,
    w2: Result<Write, StoreError>,
)
    requires
        table_wf(s0),
        table_wf(s1),
        saved(s0, s1, content, t1, w1),
        saved(s1, s2, content, t2, w2),
        w1 is Ok,
    ensures
        w2 == Ok::<Write, StoreError>(
            Write::Touched { id: written_id(w1->Ok_0), create_time: t2 },
        ),
        s2.rows.len() == s1.rows.len(),
        exists|i: int|
            0 <= i < s2.rows.len() && #[trigger] s2.rows[i].md5 == md5_hex_of(content)
                && s2.rows[i].id == written_id(w1->Ok_0) && s2.rows[i].create_time == t2,
        forall|i: int, j: int|
            0 <= i < s2.rows.len() && 0 <= j < s2.rows.len() && #[trigger] s2.rows[i].md5
                == md5_hex_of(content) && #[trigger] s2.rows[j].md5 == md5_hex_of(content) ==> i
                == j,
{
    let m = md5_hex_of(content);
    // The row that the first save left for the content.
    let i0: int = if holds_fingerprint(s0.rows, m) {
        choose|i: int|
            0 <= i < s0.rows.len() && #[trigger] s0.rows[i].md5 == m && w1 == Ok::<
                Write,
                StoreError,
            >(Write::Touched { id: s0.rows[i].id, create_time: t1 }) && s1.rows == s0.rows.update(
                i,
                touched(s0.rows[i], t1),
            ) && s1.next_id == s0.next_id && s1.last_id == s0.last_id
    } else {
        s0.rows.len() as int
    };
    assert(s1.rows[i0].md5 == m && s1.rows[i0].id == written_id(w1->Ok_0));
    assert(holds_fingerprint(s1.rows, m));
    let i1 = choose|i: int|
        0 <= i < s1.rows.len() && #[trigger] s1.rows[i].md5 == m && w2 == Ok::<
            Write,
            StoreError,
        >(Write::Touched { id: s1.rows[i].id, create_time: t2 }) && s2.rows == s1.rows.update(
            i,
            touched(s1.rows[i], t2),
        ) && s2.next_id == s1.next_id && s2.last_id == s1.last_id;
    assert(i1 == i0);
    assert(s2.rows[i1].md5 == m);
    assert forall|i: int, j: int|
        0 <= i < s2.rows.len() && 0 <= j < s2.rows.len() && #[trigger] s2.rows[i].md5 == m
            && #[trigger] s2.rows[j].md5 == m implies i == j by {
        assert(s1.rows[i].md5 == s2.rows[i].md5);
        assert(s1.rows[j].md5 == s2.rows[j].md5);
    }
}

/// Every listing is newest first, so its `create_time` never increases.
pub proof fn lemma_listing_ordered(v: TableView)
    requires
        table_wf(v),
    ensures
        newest_first(by_recency(v.rows)),
        forall|i: int, j: int|
            0 <= i < j < by_recency(v.rows).len() ==> by_recency(v.rows)[i].create_time
                >= by_recency(v.rows)[j].create_time,
{
    assert forall|i: int, j: int|
        0 <= i < v.rows.len() && 0 <= j < v.rows.len() && i != j implies v.rows[i].id
        != v.rows[j].id by {
        if i < j {
            assert(v.rows[i].id < v.rows[j].id);
        } else {
            assert(v.rows[j].id < v.rows[i].id);
        }
    }
    lemma_by_recency_sorted(v.rows);
    let b = by_recency(v.rows);
    assert forall|i: int, j: int| 0 <= i < j < b.len() implies b[i].create_time
        >= b[j].create_time by {
        assert(newer(b[i], b[j]));
    }
}

/// A search for `q` returns at most `limit` rows, newest first; each is a
/// stored row whose content holds `q`, shown with every occurrence of `q`
/// marked.
pub proof fn lemma_search_correct(v: TableView, q: Seq<char>, limit: int)
    requires
        table_wf(v),
        0 <= limit,
    ensures
        search_result(v.rows, q, limit).len() <= limit,
        forall|i: int, j: int|
            0 <= i < j < search_result(v.rows, q, limit).len() ==> search_result(
                v.rows,
                q,
                limit,
            )[i].create_time >= search_result(v.rows, q, limit)[j].create_time,
        forall|k: int|
            0 <= k < search_result(v.rows, q, limit).len() ==> {
                let r = #[trigger] search_result(v.rows, q, limit)[k];
                &&& contains(r.content, q)
                &&& r.content_highlight == Some(highlighted(q, r.content))
                &&& v.rows.contains(RecordView { content_highlight: None, ..r })
            },
{
    let b = by_recency(v.rows);
    let m = matches_of(b, q);
    let r = search_result(v.rows, q, limit);
    lemma_listing_ordered(v);
    lemma_matches_sorted(b, q);
    lemma_matches_members(b, q);
    lemma_by_recency_members(v.rows);
    assert forall|i: int, j: int| 0 <= i < j < r.len() implies r[i].create_time
        >= r[j].create_time by {
        assert(r[i].create_time == m[i].create_time);
        assert(r[j].create_time == m[j].create_time);
        assert(newer(m[i], m[j]));
    }
    assert forall|k: int| 0 <= k < r.len() implies {
        let x = #[trigger] r[k];
        &&& contains(x.content, q)
        &&& x.content_highlight == Some(highlighted(q, x.content))
        &&& v.rows.contains(RecordView { content_highlight: None, ..x })
    } by {
        assert(b.contains(m[k]));
        let a = choose|a: int| 0 <= a < b.len() && b[a] == m[k];
        assert(v.rows.contains(b[a]));
        let c = choose|c: int| 0 <= c < v.rows.len() && v.rows[c] == b[a];
        assert(v.rows[c].content_highlight is None);
        assert(v.rows[c] == RecordView { content_highlight: None, ..r[k] });
    }
}

/// Some row of `v` has this id.
pub open spec fn stores_id(v: TableView, id: u64) -> bool {
    exists|i: int| 0 <= i < v.rows.len() && (#[trigger] v.rows[i]).id == id
}

/// Once a row is a favorite, it stays one along any run of operations that
/// each keep favorites (every change the table offers does), for as long as
/// the row is stored.
pub proof fn lemma_favorite_stays(states: Seq<TableView>, id: u64)
    requires
        states.len() > 0,
        forall|k: int| 0 <= k < states.len() - 1 ==> keeps_favorites(#[trigger] states[k], states[k + 1]),
        forall|k: int| 0 <= k < states.len() ==> stores_id(#[trigger] states[k], id),
        forall|i: int| 0 <= i < states[0].rows.len() && (#[trigger] states[0].rows[i]).id == id ==> states[0].rows[i].is_favorite,
    ensures
        forall|k: int, i: int|
            0 <= k < states.len() && 0 <= i < states[k].rows.len() && (#[trigger] states[k].rows[i]).id == id
                ==> states[k].rows[i].is_favorite,
    decreases states.len(),
{
    if states.len() > 1 {
        let front = states.drop_last();
        assert forall|k: int| 0 <= k < front.len() - 1 implies keeps_favorites(#[trigger] front[k], front[k + 1]) by {
            assert(front[k] == states[k] && front[k + 1] == states[k + 1]);
        }
        assert forall|k: int| 0 <= k < front.len() implies stores_id(#[trigger] front[k], id) by {
            assert(front[k] == states[k]);
        }
        assert(front[0] == states[0]);
        lemma_favorite_stays(front, id);
        let n = states.len() - 1;
        assert forall|k: int, i: int|
            0 <= k < states.len() && 0 <= i < states[k].rows.len() && (#[trigger] states[k].rows[i]).id == id
                implies states[k].rows[i].is_favorite by {
            if k < n {
                assert(front[k] == states[k]);
                assert(front[k].rows[i] == states[k].rows[i]);
            } else {
                let p = n - 1;
                assert(front[p] == states[p]);
                assert(stores_id(states[p], id));
                let a = choose|a: int| 0 <= a < states[p].rows.len() && (#[trigger] states[p].rows[a]).id == id;
                assert(front[p].rows[a] == states[p].rows[a]);
                assert(keeps_favorites(states[p], states[p + 1]));
            }
        }
    }
}

} // verus!
