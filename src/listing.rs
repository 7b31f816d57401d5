//! The order in which rows are listed and the rows a search returns.

use crate::record::RecordView;
use crate::text::{contains, highlighted};
use vstd::multiset::Multiset;
use vstd::prelude::*;

verus! {

/// `a` is listed before `b`: seen later, or seen at the same moment and
/// created later.
pub open spec fn newer(a: RecordView, b: RecordView) -> bool {
    a.create_time > b.create_time || (a.create_time == b.create_time && a.id > b.id)
}

/// `s` with `x` put before the first row that `x` is newer than.
pub open spec fn place(x: RecordView, s: Seq<RecordView>) -> Seq<RecordView>
    decreases s.len(),
{
    if s.len() == 0 {
        seq![x]
    } else if newer(x, s[0]) {
        seq![x] + s
    } else {
        seq![s[0]] + place(x, s.drop_first())
    }
}

/// The rows of `s` newest first.
pub open spec fn by_recency(s: Seq<RecordView>) -> Seq<RecordView>
    decreases s.len(),
{
    if s.len() == 0 {
        Seq::empty()
    } else {
        place(s.last(), by_recency(s.drop_last()))
    }
}

/// Each row of `s` is newer than every row after it.
pub open spec fn newest_first(s: Seq<RecordView>) -> bool {
    forall|i: int, j: int| 0 <= i < j < s.len() ==> newer(s[i], s[j])
}

/// The rows of `s` whose content holds `q`, in the order of `s`.
pub open spec fn matches_of(s: Seq<RecordView>, q: Seq<char>) -> Seq<RecordView>
    decreases s.len(),
{
    if s.len() == 0 {
        Seq::empty()
    } else {
        let m = matches_of(s.drop_last(), q);
        if contains(s.last().content, q) {
            m.push(s.last())
        } else {
            m
        }
    }
}

/// `r` as a search for `q` shows it.
pub open spec fn with_highlight(r: RecordView, q: Seq<char>) -> RecordView {
    RecordView { content_highlight: Some(highlighted(q, r.content)), ..r }
}

/// What a search for `q` with at most `limit` results returns on the rows
/// `rows`: the newest `limit` rows whose content holds `q`, newest first,
/// each with its highlight.
pub open spec fn search_result(rows: Seq<RecordView>, q: Seq<char>, limit: int) -> Seq<
    RecordView,
> {
    let m = matches_of(by_recency(rows), q);
    let k = if m.len() <= limit {
        m.len() as int
    } else {
        limit
    };
    m.take(k).map_values(|r: RecordView| with_highlight(r, q))
}

/// Where `x` goes: before the first row it is newer than.
pub proof fn lemma_place_at(x: RecordView, s: Seq<RecordView>, p: int)
    requires
        0 <= p <= s.len(),
        forall|k: int| 0 <= k < p ==> !newer(x, #[trigger] s[k]),
        p == s.len() || newer(x, s[p]),
    ensures
        place(x, s) == s.insert(p, x),
    decreases p,
{
    if s.len() == 0 {
        assert(place(x, s) =~= s.insert(p, x));
    } else if p == 0 {
        assert(place(x, s) =~= s.insert(p, x));
    } else {
        let t = s.drop_first();
        assert forall|k: int| 0 <= k < p - 1 implies !newer(x, #[trigger] t[k]) by {
            assert(t[k] == s[k + 1]);
        }
        lemma_place_at(x, t, p - 1);
        assert(place(x, s) =~= s.insert(p, x));
    }
}

/// `place` inserts `x` at some position.
pub proof fn lemma_place_inserts(x: RecordView, s: Seq<RecordView>) -> (p: int)
    ensures
        0 <= p <= s.len(),
        place(x, s) == s.insert(p, x),
    decreases s.len(),
{
    if s.len() == 0 {
        assert(place(x, s) =~= s.insert(0, x));
        0
    } else if newer(x, s[0]) {
        assert(place(x, s) =~= s.insert(0, x));
        0
    } else {
        let q = lemma_place_inserts(x, s.drop_first());
        assert(place(x, s) =~= s.insert(q + 1, x));
        q + 1
    }
}

/// `newer` is transitive.
pub proof fn lemma_newer_transitive(a: RecordView, b: RecordView, c: RecordView)
    requires
        newer(a, b),
        newer(b, c),
    ensures
        newer(a, c),
{
}

/// Placing a row in a newest-first sequence whose ids differ from it keeps
/// the sequence newest first.
pub proof fn lemma_place_sorted(x: RecordView, s: Seq<RecordView>)
    requires
        newest_first(s),
        forall|k: int| 0 <= k < s.len() ==> (#[trigger] s[k]).id != x.id,
    ensures
        newest_first(place(x, s)),
    decreases s.len(),
{
    if s.len() == 0 {
    } else if newer(x, s[0]) {
        let r = seq![x] + s;
        assert forall|i: int, j: int| 0 <= i < j < r.len() implies newer(r[i], r[j]) by {
            if i == 0 && j > 1 {
                lemma_newer_transitive(x, s[0], s[j - 1]);
            }
        }
    } else {
        let t = s.drop_first();
        assert forall|k: int| 0 <= k < t.len() implies (#[trigger] t[k]).id != x.id by {
            assert(t[k] == s[k + 1]);
        }
        assert(newest_first(t)) by {
            assert forall|i: int, j: int| 0 <= i < j < t.len() implies newer(t[i], t[j]) by {
                assert(t[i] == s[i + 1] && t[j] == s[j + 1]);
            }
        }
        lemma_place_sorted(x, t);
        let q = lemma_place_inserts(x, t);
        let pt = place(x, t);
        let r = seq![s[0]] + pt;
        assert(newer(s[0], x));
        assert forall|i: int, j: int| 0 <= i < j < r.len() implies newer(r[i], r[j]) by {
            if i == 0 {
                if j - 1 == q {
                } else if j - 1 < q {
                    assert(pt[j - 1] == t[j - 1]);
                    assert(t[j - 1] == s[j]);
                } else {
                    assert(pt[j - 1] == t[j - 2]);
                    assert(t[j - 2] == s[j - 1]);
                }
            }
        }
    }
}

/// The listing holds the same rows, as many times each.
pub proof fn lemma_by_recency_permutes(s: Seq<RecordView>)
    ensures
        by_recency(s).to_multiset() == s.to_multiset(),
        by_recency(s).len() == s.len(),
    decreases s.len(),
{
    broadcast use vstd::seq_lib::group_to_multiset_ensures;

    if s.len() > 0 {
        let d = s.drop_last();
        lemma_by_recency_permutes(d);
        let p = lemma_place_inserts(s.last(), by_recency(d));
        vstd::seq_lib::to_multiset_insert(by_recency(d), p, s.last());
        assert(s =~= d.push(s.last()));
    } else {
        assert(s.to_multiset() =~= Multiset::empty());
        assert(by_recency(s).to_multiset() =~= Multiset::empty());
    }
}

/// Each row of the listing is a row of `s`, and each row of `s` is in the
/// listing.
pub proof fn lemma_by_recency_members(s: Seq<RecordView>)
    ensures
        forall|r: RecordView| by_recency(s).contains(r) <==> s.contains(r),
{
    lemma_by_recency_permutes(s);
    assert forall|r: RecordView| by_recency(s).contains(r) <==> s.contains(r) by {
        vstd::seq_lib::to_multiset_contains(by_recency(s), r);
        vstd::seq_lib::to_multiset_contains(s, r);
    }
}

/// The listing of rows with distinct ids is newest first.
pub proof fn lemma_by_recency_sorted(s: Seq<RecordView>)
    requires
        forall|i: int, j: int| 0 <= i < s.len() && 0 <= j < s.len() && i != j ==> s[i].id != s[j].id,
    ensures
        newest_first(by_recency(s)),
    decreases s.len(),
{
    if s.len() > 0 {
        let d = s.drop_last();
        lemma_by_recency_sorted(d);
        lemma_by_recency_members(d);
        let b = by_recency(d);
        assert forall|k: int| 0 <= k < b.len() implies (#[trigger] b[k]).id != s.last().id by {
            assert(b.contains(b[k]));
            assert(d.contains(b[k]));
            let j = choose|j: int| 0 <= j < d.len() && d[j] == b[k];
            assert(s[j] == d[j]);
        }
        lemma_place_sorted(s.last(), b);
    }
}

/// Each match is a row of `s` whose content holds `q`.
pub proof fn lemma_matches_members(s: Seq<RecordView>, q: Seq<char>)
    ensures
        forall|k: int|
            0 <= k < matches_of(s, q).len() ==> s.contains(#[trigger] matches_of(s, q)[k])
                && contains(matches_of(s, q)[k].content, q),
    decreases s.len(),
{
    if s.len() > 0 {
        let d = s.drop_last();
        lemma_matches_members(d, q);
        let m = matches_of(s, q);
        assert forall|k: int| 0 <= k < m.len() implies s.contains(#[trigger] m[k]) && contains(
            m[k].content,
            q,
        ) by {
            if k < matches_of(d, q).len() {
                assert(m[k] == matches_of(d, q)[k]);
                let j = choose|j: int| 0 <= j < d.len() && d[j] == m[k];
                assert(s[j] == d[j]);
            } else {
                assert(m[k] == s.last());
                assert(s[s.len() - 1] == s.last());
            }
        }
    }
}

/// The matches of a newest-first sequence are newest first.
pub proof fn lemma_matches_sorted(s: Seq<RecordView>, q: Seq<char>)
    requires
        newest_first(s),
    ensures
        newest_first(matches_of(s, q)),
    decreases s.len(),
{
    if s.len() > 0 {
        let d = s.drop_last();
        assert(newest_first(d)) by {
            assert forall|i: int, j: int| 0 <= i < j < d.len() implies newer(d[i], d[j]) by {
                assert(d[i] == s[i] && d[j] == s[j]);
            }
        }
        lemma_matches_sorted(d, q);
        lemma_matches_members(d, q);
        let md = matches_of(d, q);
        let m = matches_of(s, q);
        assert forall|i: int, j: int| 0 <= i < j < m.len() implies newer(m[i], m[j]) by {
            if j == md.len() {
                assert(d.contains(md[i]));
                let a = choose|a: int| 0 <= a < d.len() && d[a] == md[i];
                assert(s[a] == d[a]);
                assert(s[s.len() - 1] == s.last());
            } else {
                assert(m[i] == md[i] && m[j] == md[j]);
            }
        }
    }
}

} // verus!
