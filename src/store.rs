//! The record table: rows in id order, the id counter, and every operation
//! of the history (insert or touch, favorites, clear, listing, search and
//! eviction).

use crate::listing::{by_recency, lemma_place_at, matches_of, newer, search_result, with_highlight};
use crate::record::{views, Record, RecordView};
use crate::text::{contains_text, fingerprint, highlight, md5_hex_of};
use vstd::prelude::*;

verus! {

/// How far the row count may exceed the capacity before eviction runs.
pub const EVICTION_MARGIN: usize = 50;

/// The largest id the table hands out, the largest rowid of SQLite.
pub const MAX_ID: u64 = 9223372036854775807;

/// Why the table refused a change.
#[derive(Debug, Clone, Copy, PartialEq, Eq)]
pub enum StoreError {
    /// Every id up to `MAX_ID` has been handed out.
    IdsExhausted,
    /// A row with the same fingerprint is stored already.
    DuplicateFingerprint,
    /// A restored row's id is not above every id seen so far, or is too large.
    RowOutOfOrder,
}

/// What `insert_or_touch` wrote, for the host to persist.
#[derive(Debug, Clone, PartialEq, Eq)]
pub enum Write {
    /// A new row was added.
    Inserted { record: Record },
    /// The row `id` got the new `create_time`.
    Touched { id: u64, create_time: u64 },
}

/// The clipboard history table, held in memory. Rows are kept in increasing
/// id order; ids come from a counter that only grows, as SQLite's
/// `AUTOINCREMENT` does.
pub struct SqliteDB {
    rows: Vec<Record>,
    next_id: u64,
    last_id: u64,
}

/// The table as mathematical values.
pub struct TableView {
    pub rows: Seq<RecordView>,
    /// The id the next new row gets.
    pub next_id: u64,
    /// The id of the row added last, 0 before any.
    pub last_id: u64,
}

impl View for SqliteDB {
    type V = TableView;

    closed spec fn view(&self) -> TableView {
        TableView { rows: views(self.rows@), next_id: self.next_id, last_id: self.last_id }
    }
}

/// A row as the table stores it.
pub open spec fn stored_row(r: RecordView) -> bool {
    &&& 1 <= r.id
    &&& r.md5 == md5_hex_of(r.content)
    &&& r.content_highlight is None
}

/// The table's invariant: ids increase along the rows and stay below the
/// counter, and no two rows share a fingerprint.
pub open spec fn table_wf(v: TableView) -> bool {
    &&& 1 <= v.next_id <= MAX_ID
    &&& v.last_id < v.next_id
    &&& forall|i: int| 0 <= i < v.rows.len() ==> stored_row(#[trigger] v.rows[i])
    &&& forall|i: int| 0 <= i < v.rows.len() ==> #[trigger] v.rows[i].id < v.next_id
    &&& forall|i: int, j: int| 0 <= i < j < v.rows.len() ==> v.rows[i].id < v.rows[j].id
    &&& forall|i: int, j: int|
        0 <= i < v.rows.len() && 0 <= j < v.rows.len() && i != j ==> v.rows[i].md5 != v.rows[j].md5
}

/// Some row has fingerprint `m`.
pub open spec fn holds_fingerprint(rows: Seq<RecordView>, m: Seq<char>) -> bool {
    exists|i: int| 0 <= i < rows.len() && #[trigger] rows[i].md5 == m
}

/// The row that a first sight of `content` at `now` creates.
pub open spec fn fresh_row(id: u64, content: Seq<char>, is_favorite: bool, now: u64) -> RecordView {
    RecordView {
        id,
        content,
        md5: md5_hex_of(content),
        create_time: now,
        is_favorite,
        content_highlight: None,
    }
}

/// `r` seen again at `now`.
pub open spec fn touched(r: RecordView, now: u64) -> RecordView {
    RecordView { create_time: now, ..r }
}

/// `new` is `old` with a fresh row for `content` appended.
pub open spec fn row_added(
    old: TableView,
    new: TableView,
    content: Seq<char>,
    is_favorite: bool,
    now: u64,
) -> bool {
    &&& new.rows == old.rows.push(fresh_row(old.next_id, content, is_favorite, now))
    &&& new.next_id == old.next_id + 1
    &&& new.last_id == old.next_id
}

/// The outcome of `insert_or_touch(content)` at time `now` on `old`: the row
/// with the same fingerprint is touched; else a new row is added, unless the
/// ids are used up.
pub open spec fn saved(
    old: TableView,
    new: TableView,
    content: Seq<char>,
    now: u64,
    res: Result<Write, StoreError>,
) -> bool {
    let m = md5_hex_of(content);
    if holds_fingerprint(old.rows, m) {
        exists|i: int|
            0 <= i < old.rows.len() && #[trigger] old.rows[i].md5 == m && res == Ok::<
                Write,
                StoreError,
            >(Write::Touched { id: old.rows[i].id, create_time: now }) && new.rows == old.rows.update(
                i,
                touched(old.rows[i], now),
            ) && new.next_id == old.next_id && new.last_id == old.last_id
    } else if old.next_id < MAX_ID {
        &&& res is Ok
        &&& res->Ok_0 is Inserted
        &&& res->Ok_0->record@ == fresh_row(old.next_id, content, false, now)
        &&& row_added(old, new, content, false, now)
    } else {
        res == Err::<Write, StoreError>(StoreError::IdsExhausted) && new == old
    }
}

/// Every row that was a favorite and is still stored is still a favorite.
pub open spec fn keeps_favorites(old: TableView, new: TableView) -> bool {
    forall|i: int, j: int|
        0 <= i < old.rows.len() && 0 <= j < new.rows.len() && #[trigger] old.rows[i].id
            == #[trigger] new.rows[j].id && old.rows[i].is_favorite ==> new.rows[j].is_favorite
}

/// The rows of `s` whose id is in `ids`, in the order of `s`.
pub open spec fn rows_with_ids(s: Seq<RecordView>, ids: Seq<u64>) -> Seq<RecordView>
    decreases s.len(),
{
    if s.len() == 0 {
        Seq::empty()
    } else {
        let m = rows_with_ids(s.drop_last(), ids);
        if ids.contains(s.last().id) {
            m.push(s.last())
        } else {
            m
        }
    }
}

fn is_newer(a: &Record, b: &Record) -> (r: bool)
    ensures
        r == newer(a@, b@),
{
    a.create_time > b.create_time || (a.create_time == b.create_time && a.id > b.id)
}

fn has_id(ids: &Vec<u64>, id: u64) -> (r: bool)
    ensures
        r == ids@.contains(id),
{
    let mut i: usize = 0;
    while i < ids.len()
        invariant
            i <= ids@.len(),
            forall|k: int| 0 <= k < i ==> ids@[k] != id,
        decreases ids.len() - i,
    {
        if ids[i] == id {
            proof {
                assert(ids@[i as int] == id);
            }
            return true;
        }
        i = i + 1;
    }
    false
}

/// Relies on `chrono::Local::now` and `timestamp_millis`: the present moment
/// in milliseconds. Nothing is promised of its value.
#[verifier::external_body]
fn now_millis() -> (r: u64) {
    chrono::Local::now().timestamp_millis() as u64
}

impl SqliteDB {
    /// The table's invariant.
    pub open spec fn wf(&self) -> bool {
        table_wf(self@)
    }

    /// An empty table whose first row gets id 1.
    pub fn new() -> (r: SqliteDB)
        ensures
            r.wf(),
            r@.rows == Seq::<RecordView>::empty(),
            r@.next_id == 1,
            r@.last_id == 0,
    {
        let r = SqliteDB { rows: Vec::new(), next_id: 1, last_id: 0 };
        proof {
            assert(r@.rows =~= Seq::<RecordView>::empty());
        }
        r
    }

    /// An empty table whose first row gets `next_id`: a table reopened
    /// after rows up to `next_id - 1` were handed out.
    pub fn with_next_id(next_id: u64) -> (r: SqliteDB)
        requires
            1 <= next_id <= MAX_ID,
        ensures
            r.wf(),
            r@.rows == Seq::<RecordView>::empty(),
            r@.next_id == next_id,
            r@.last_id == 0,
    {
        let r = SqliteDB { rows: Vec::new(), next_id, last_id: 0 };
        proof {
            assert(r@.rows =~= Seq::<RecordView>::empty());
        }
        r
    }

    /// The id of the row added last, 0 before any.
    pub fn add(&self) -> (r: i64)
        requires
            self.wf(),
        ensures
            r as int == self@.last_id,
    {
        self.last_id as i64
    }

    /// The number of rows.
    pub fn count(&self) -> (r: usize)
        ensures
            r == self@.rows.len(),
    {
        self.rows.len()
    }

    fn position_of_md5(&self, m: &String) -> (r: Option<usize>)
        ensures
            match r {
                Some(i) => i < self@.rows.len() && self@.rows[i as int].md5 == m@,
                None => !holds_fingerprint(self@.rows, m@),
            },
    {
        let mut i: usize = 0;
        while i < self.rows.len()
            invariant
                i <= self.rows@.len(),
                forall|k: int| 0 <= k < i ==> #[trigger] self@.rows[k].md5 != m@,
            decreases self.rows.len() - i,
        {
            if self.rows[i].md5 == *m {
                return Some(i);
            }
            i = i + 1;
        }
        None
    }

    fn append_row(&mut self, content: String, md5: String, is_favorite: bool, now: u64) -> (r:
        Record)
        requires
            old(self).wf(),
            old(self)@.next_id < MAX_ID,
            md5@ == md5_hex_of(content@),
            !holds_fingerprint(old(self)@.rows, md5@),
        ensures
            final(self).wf(),
            row_added(old(self)@, final(self)@, content@, is_favorite, now),
            r@ == fresh_row(old(self)@.next_id, content@, is_favorite, now),
    {
        let r = Record {
            id: self.next_id,
            content,
            md5,
            create_time: now,
            is_favorite,
            content_highlight: None,
        };
        let copy = r.snapshot();
        self.rows.push(r);
        self.last_id = self.next_id;
        self.next_id = self.next_id + 1;
        proof {
            assert(views(self.rows@) =~= views(old(self).rows@).push(copy@));
            let v = self@;
            assert forall|i: int, j: int|
                0 <= i < v.rows.len() && 0 <= j < v.rows.len() && i != j implies v.rows[i].md5
                != v.rows[j].md5 by {
                if j == v.rows.len() - 1 {
                    assert(old(self)@.rows[i].md5 != md5@);
                } else if i == v.rows.len() - 1 {
                    assert(old(self)@.rows[j].md5 != md5@);
                }
            }
        }
        copy
    }

    /// Records a capture of `r.content` at the present moment, as
    /// `insert_or_touch` does; the clock decides only `create_time`.
    pub fn insert_if_not_exist(&mut self, r: Record) -> (res: Result<Write, StoreError>)
        requires
            old(self).wf(),
        ensures
            final(self).wf(),
            exists|now: u64| saved(old(self)@, final(self)@, r.content@, now, res),
            keeps_favorites(old(self)@, final(self)@),
    {
        let now = now_millis();
        self.insert_or_touch(r.content, now)
    }

    /// Adds a row for `r.content` with `r.is_favorite`, stamped with the
    /// present moment, and returns its id. The other fields of `r` are not
    /// read: the table assigns them. A content whose fingerprint is stored
    /// already is refused.
    pub fn insert_record(&mut self, r: Record) -> (res: Result<i64, StoreError>)
        requires
            old(self).wf(),
        ensures
            final(self).wf(),
            keeps_favorites(old(self)@, final(self)@),
            holds_fingerprint(old(self)@.rows, md5_hex_of(r.content@)) ==> res == Err::<
                i64,
                StoreError,
            >(StoreError::DuplicateFingerprint) && final(self)@ == old(self)@,
            !holds_fingerprint(old(self)@.rows, md5_hex_of(r.content@)) && old(self)@.next_id
                == MAX_ID ==> res == Err::<i64, StoreError>(StoreError::IdsExhausted) && final(self)@ == old(self)@,
            !holds_fingerprint(old(self)@.rows, md5_hex_of(r.content@)) && old(self)@.next_id
                < MAX_ID ==> res == Ok::<i64, StoreError>(old(self)@.next_id as i64) && exists|
                now: u64,
            | row_added(old(self)@, final(self)@, r.content@, r.is_favorite, now),
    {
        let m = fingerprint(r.content.as_str());
        if self.position_of_md5(&m).is_some() {
            return Err(StoreError::DuplicateFingerprint);
        }
        if self.next_id == MAX_ID {
            return Err(StoreError::IdsExhausted);
        }
        let now = now_millis();
        let added = self.append_row(r.content, m, r.is_favorite, now);
        Ok(added.id as i64)
    }

    /// Puts back a row read from storage, keeping its id, time and favorite
    /// flag; the fingerprint is computed anew. Rows must come in increasing
    /// id order, each above every id handed out so far.
    pub fn restore_row(&mut self, r: Record) -> (res: Result<(), StoreError>)
        requires
            old(self).wf(),
        ensures
            final(self).wf(),
            keeps_favorites(old(self)@, final(self)@),
            res is Ok <==> old(self)@.next_id <= r.id < MAX_ID && !holds_fingerprint(
                old(self)@.rows,
                md5_hex_of(r.content@),
            ),
            res is Ok ==> final(self)@.rows == old(self)@.rows.push(
                RecordView {
                    id: r.id,
                    content: r.content@,
                    md5: md5_hex_of(r.content@),
                    create_time: r.create_time,
                    is_favorite: r.is_favorite,
                    content_highlight: None,
                },
            ) && final(self)@.next_id == r.id + 1 && final(self)@.last_id == old(self)@.last_id,
            res == Err::<(), StoreError>(StoreError::RowOutOfOrder) <==> !(old(self)@.next_id
                <= r.id < MAX_ID),
            res is Err ==> final(self)@ == old(self)@,
    {
        if r.id < self.next_id || r.id >= MAX_ID {
            return Err(StoreError::RowOutOfOrder);
        }
        let m = fingerprint(r.content.as_str());
        if self.position_of_md5(&m).is_some() {
            return Err(StoreError::DuplicateFingerprint);
        }
        let row = Record {
            id: r.id,
            content: r.content,
            md5: m,
            create_time: r.create_time,
            is_favorite: r.is_favorite,
            content_highlight: None,
        };
        let ghost rv = row@;
        self.rows.push(row);
        self.next_id = r.id + 1;
        proof {
            assert(views(self.rows@) =~= views(old(self).rows@).push(rv));
            let v = self@;
            assert forall|i: int, j: int|
                0 <= i < v.rows.len() && 0 <= j < v.rows.len() && i != j implies v.rows[i].md5
                != v.rows[j].md5 by {
                if j == v.rows.len() - 1 {
                    assert(old(self)@.rows[i].md5 != rv.md5);
                } else if i == v.rows.len() - 1 {
                    assert(old(self)@.rows[j].md5 != rv.md5);
                }
            }
        }
        Ok(())
    }

    /// Flags every row with this id as a favorite (there is at most one) and
    /// says whether there was one. An unknown id changes nothing and is no
    /// error. There is no way back: a favorite stays one.
    pub fn mark_favorite(&mut self, id: u64) -> (found: bool)
        requires
            old(self).wf(),
        ensures
            final(self).wf(),
            keeps_favorites(old(self)@, final(self)@),
            final(self)@.next_id == old(self)@.next_id,
            final(self)@.last_id == old(self)@.last_id,
            final(self)@.rows.len() == old(self)@.rows.len(),
            forall|i: int|
                0 <= i < old(self)@.rows.len() ==> #[trigger] final(self)@.rows[i] == if old(self)@.rows[i].id == id {
                    RecordView { is_favorite: true, ..old(self)@.rows[i] }
                } else {
                    old(self)@.rows[i]
                },
            found == exists|i: int| 0 <= i < old(self)@.rows.len() && #[trigger] old(self)@.rows[i].id == id,
    {
        let mut found = false;
        let mut i: usize = 0;
        while i < self.rows.len()
            invariant
                table_wf(old(self)@),
                i <= self.rows@.len(),
                self@.next_id == old(self)@.next_id,
                self@.last_id == old(self)@.last_id,
                self@.rows.len() == old(self)@.rows.len(),
                forall|k: int|
                    0 <= k < i ==> #[trigger] self@.rows[k] == if old(self)@.rows[k].id == id {
                        RecordView { is_favorite: true, ..old(self)@.rows[k] }
                    } else {
                        old(self)@.rows[k]
                    },
                forall|k: int| i <= k < self@.rows.len() ==> #[trigger] self@.rows[k] == old(self)@.rows[k],
                found == exists|k: int| 0 <= k < i && #[trigger] old(self)@.rows[k].id == id,
            decreases self.rows.len() - i,
        {
            proof {
                assert(self@.rows[i as int] == old(self)@.rows[i as int]);
                assert(self@.rows[i as int] == self.rows@[i as int]@);
            }
            if self.rows[i].id == id {
                let mut r = self.rows[i].snapshot();
                r.is_favorite = true;
                assert(r@ == RecordView { is_favorite: true, ..old(self)@.rows[i as int] });
                let ghost before = self@.rows;
                self.rows.set(i, r);
                proof {
                    assert(self@.rows =~= before.update(i as int, RecordView { is_favorite: true, ..old(self)@.rows[i as int] }));
                }
                found = true;
            }
            i = i + 1;
        }
        proof {
            assert(self@.rows.len() == old(self)@.rows.len());
            assert forall|a: int, b: int| 0 <= a < b < self@.rows.len() implies self@.rows[a].id < self@.rows[b].id by {
                assert(self@.rows[a].id == old(self)@.rows[a].id);
                assert(self@.rows[b].id == old(self)@.rows[b].id);
            }
            assert forall|a: int, b: int| 0 <= a < self@.rows.len() && 0 <= b < self@.rows.len() && a != b implies self@.rows[a].md5 != self@.rows[b].md5 by {
                assert(self@.rows[a].md5 == old(self)@.rows[a].md5);
                assert(self@.rows[b].md5 == old(self)@.rows[b].md5);
            }
            assert forall|a: int| 0 <= a < self@.rows.len() implies stored_row(#[trigger] self@.rows[a]) && self@.rows[a].id < self@.next_id by {
                assert(self@.rows[a].id == old(self)@.rows[a].id);
            }
            assert forall|a: int, b: int|
                0 <= a < old(self)@.rows.len() && 0 <= b < self@.rows.len() && #[trigger] old(self)@.rows[a].id
                    == #[trigger] self@.rows[b].id && old(self)@.rows[a].is_favorite implies self@.rows[b].is_favorite by {
                if a != b {
                    if a < b {
                        assert(old(self)@.rows[a].id < old(self)@.rows[b].id);
                    } else {
                        assert(old(self)@.rows[b].id < old(self)@.rows[a].id);
                    }
                }
            }
        }
        found
    }

    /// Deletes every row. The id counter is kept, so ids are not reused.
    pub fn clear_data(&mut self)
        requires
            old(self).wf(),
        ensures
            final(self).wf(),
            keeps_favorites(old(self)@, final(self)@),
            final(self)@.rows == Seq::<RecordView>::empty(),
            final(self)@.next_id == old(self)@.next_id,
            final(self)@.last_id == old(self)@.last_id,
    {
        self.rows = Vec::new();
        proof {
            assert(self@.rows =~= Seq::<RecordView>::empty());
        }
    }

    /// Bounds the table: when the rows outnumber `limit` by more than
    /// `EVICTION_MARGIN`, deletes the rows with the smallest ids so that
    /// exactly `limit` remain, and returns the deleted ids in increasing
    /// order; else changes nothing. Eviction goes by id, not by
    /// `create_time`: a touched row keeps its old id and may be deleted
    /// before rows created after it but seen less recently.
    pub fn delete_over_limit(&mut self, limit: usize) -> (evicted: Vec<u64>)
        requires
            old(self).wf(),
        ensures
            final(self).wf(),
            keeps_favorites(old(self)@, final(self)@),
            final(self)@.next_id == old(self)@.next_id,
            final(self)@.last_id == old(self)@.last_id,
            final(self)@.rows.len() == if old(self)@.rows.len() > limit + EVICTION_MARGIN {
                limit as int
            } else {
                old(self)@.rows.len() as int
            },
            old(self)@.rows.len() > limit + EVICTION_MARGIN ==> final(self)@.rows == old(self)@.rows.subrange(
                old(self)@.rows.len() - limit,
                old(self)@.rows.len() as int,
            ) && evicted@ == old(self)@.rows.take(old(self)@.rows.len() - limit).map_values(
                |r: RecordView| r.id,
            ),
            old(self)@.rows.len() <= limit + EVICTION_MARGIN ==> final(self)@ == old(self)@
                && evicted@.len() == 0,
    {
        let n = self.rows.len();
        if n <= limit || n - limit <= EVICTION_MARGIN {
            return Vec::new();
        }
        let mut gone = self.rows.split_off(n - limit);
        std::mem::swap(&mut self.rows, &mut gone);
        proof {
            assert(self@.rows =~= old(self)@.rows.subrange(n - limit, n as int));
            assert(views(gone@) =~= old(self)@.rows.take(n - limit));
        }
        let mut ids: Vec<u64> = Vec::new();
        let mut i: usize = 0;
        while i < gone.len()
            invariant
                i <= gone@.len(),
                ids@ =~= views(gone@).take(i as int).map_values(|r: RecordView| r.id),
            decreases gone.len() - i,
        {
            ids.push(gone[i].id);
            i = i + 1;
            proof {
                assert(views(gone@).take(i as int) =~= views(gone@).take(i - 1).push(views(gone@)[i - 1]));
            }
        }
        proof {
            assert(views(gone@).take(i as int) =~= views(gone@));
            let v = self@;
            let o = old(self)@;
            let d = n - limit;
            assert forall|a: int, b: int| 0 <= a < b < v.rows.len() implies v.rows[a].id < v.rows[b].id by {
                assert(v.rows[a] == o.rows[a + d]);
                assert(v.rows[b] == o.rows[b + d]);
            }
            assert forall|a: int, b: int| 0 <= a < v.rows.len() && 0 <= b < v.rows.len() && a != b implies v.rows[a].md5 != v.rows[b].md5 by {
                assert(v.rows[a] == o.rows[a + d]);
                assert(v.rows[b] == o.rows[b + d]);
            }
            assert forall|a: int| 0 <= a < v.rows.len() implies stored_row(#[trigger] v.rows[a]) && v.rows[a].id < v.next_id by {
                assert(v.rows[a] == o.rows[a + d]);
            }
            assert forall|a: int, b: int|
                0 <= a < o.rows.len() && 0 <= b < v.rows.len() && #[trigger] o.rows[a].id
                    == #[trigger] v.rows[b].id && o.rows[a].is_favorite implies v.rows[b].is_favorite by {
                assert(v.rows[b] == o.rows[b + d]);
                if a != b + d {
                    if a < b + d {
                        assert(o.rows[a].id < o.rows[b + d].id);
                    } else {
                        assert(o.rows[b + d].id < o.rows[a].id);
                    }
                }
            }
        }
        ids
    }

    /// Every row, newest first: by `create_time` descending, rows seen at
    /// the same moment by id descending.
    pub fn find_all(&self) -> (r: Vec<Record>)
        requires
            self.wf(),
        ensures
            views(r@) == by_recency(self@.rows),
    {
        let mut out: Vec<Record> = Vec::new();
        let mut i: usize = 0;
        proof {
            assert(self@.rows.take(0) =~= Seq::<RecordView>::empty());
            assert(views(out@) =~= Seq::<RecordView>::empty());
        }
        while i < self.rows.len()
            invariant
                i <= self.rows@.len(),
                views(out@) == by_recency(self@.rows.take(i as int)),
            decreases self.rows.len() - i,
        {
            let x = self.rows[i].snapshot();
            let mut p: usize = 0;
            while p < out.len() && !is_newer(&x, &out[p])
                invariant
                    p <= out@.len(),
                    forall|k: int| 0 <= k < p ==> !newer(x@, #[trigger] views(out@)[k]),
                decreases out.len() - p,
            {
                p = p + 1;
            }
            let ghost before = views(out@);
            proof {
                lemma_place_at(x@, before, p as int);
            }
            out.insert(p, x);
            proof {
                assert(views(out@) =~= before.insert(p as int, self@.rows[i as int]));
                assert(self@.rows.take(i + 1).drop_last() =~= self@.rows.take(i as int));
                assert(self@.rows.take(i + 1).last() == self@.rows[i as int]);
            }
            i = i + 1;
        }
        proof {
            assert(self@.rows.take(i as int) =~= self@.rows);
        }
        out
    }

    /// The newest `limit` rows whose content holds `key` as a literal
    /// substring, newest first, each with `content_highlight` set to the
    /// content with every occurrence of `key` marked. An empty `key` matches
    /// every row.
    pub fn find_by_key(&self, key: String, limit: u64) -> (r: Vec<Record>)
        requires
            self.wf(),
        ensures
            views(r@) == search_result(self@.rows, key@, limit as int),
    {
        let all = self.find_all();
        let mut hits: Vec<Record> = Vec::new();
        let mut i: usize = 0;
        proof {
            assert(views(all@).take(0) =~= Seq::<RecordView>::empty());
            assert(views(hits@) =~= Seq::<RecordView>::empty());
        }
        while i < all.len()
            invariant
                i <= all@.len(),
                views(hits@) == matches_of(views(all@).take(i as int), key@),
            decreases all.len() - i,
        {
            let ghost before = views(hits@);
            let ghost t = views(all@).take(i + 1);
            proof {
                assert(t.drop_last() =~= views(all@).take(i as int));
                assert(t.last() == all@[i as int]@);
            }
            if contains_text(all[i].content.as_str(), key.as_str()) {
                hits.push(all[i].snapshot());
                proof {
                    assert(views(hits@) =~= before.push(all@[i as int]@));
                }
            }
            i = i + 1;
        }
        proof {
            assert(views(all@).take(i as int) =~= views(all@));
        }
        let ghost m = views(hits@);
        if (hits.len() as u64) > limit {
            hits.truncate(limit as usize);
        }
        let ghost k: int = if m.len() <= limit as int {
            m.len() as int
        } else {
            limit as int
        };
        proof {
            assert(views(hits@) =~= m.take(k));
        }
        let mut out: Vec<Record> = Vec::new();
        let mut j: usize = 0;
        while j < hits.len()
            invariant
                j <= hits@.len(),
                views(out@) =~= views(hits@).take(j as int).map_values(
                    |r: RecordView| with_highlight(r, key@),
                ),
            decreases hits.len() - j,
        {
            let mut r = hits[j].snapshot();
            let h = highlight(key.as_str(), r.content.as_str());
            r.content_highlight = Some(h);
            assert(r@ == with_highlight(views(hits@)[j as int], key@));
            let ghost before = views(out@);
            out.push(r);
            j = j + 1;
            proof {
                assert(views(out@) =~= before.push(with_highlight(views(hits@)[j - 1], key@)));
                assert(views(hits@).take(j as int) =~= views(hits@).take(j - 1).push(
                    views(hits@)[j - 1],
                ));
            }
        }
        proof {
            assert(views(hits@).take(j as int) =~= views(hits@));
        }
        out
    }

    /// The rows whose id is in `ids`, in increasing id order.
    pub fn find_by_id_in(&self, ids: &Vec<u64>) -> (r: Vec<Record>)
        requires
            self.wf(),
        ensures
            views(r@) == rows_with_ids(self@.rows, ids@),
    {
        let mut out: Vec<Record> = Vec::new();
        let mut i: usize = 0;
        proof {
            assert(self@.rows.take(0) =~= Seq::<RecordView>::empty());
            assert(views(out@) =~= Seq::<RecordView>::empty());
        }
        while i < self.rows.len()
            invariant
                i <= self.rows@.len(),
                views(out@) == rows_with_ids(self@.rows.take(i as int), ids@),
            decreases self.rows.len() - i,
        {
            let ghost before = views(out@);
            proof {
                assert(self@.rows.take(i + 1).drop_last() =~= self@.rows.take(i as int));
                assert(self@.rows.take(i + 1).last() == self@.rows[i as int]);
            }
            if has_id(ids, self.rows[i].id) {
                out.push(self.rows[i].snapshot());
                proof {
                    assert(views(out@) =~= before.push(self@.rows[i as int]));
                }
            }
            i = i + 1;
        }
        proof {
            assert(self@.rows.take(i as int) =~= self@.rows);
        }
        out
    }

    /// Records a capture of `content` at time `now`. A row with the same
    /// fingerprint only gets `create_time = now`, keeping its id; else a new
    /// row with the next id is added.
    pub fn insert_or_touch(&mut self, content: String, now: u64) -> (res: Result<
        Write,
        StoreError,
    >)
        requires
            old(self).wf(),
        ensures
            final(self).wf(),
            saved(old(self)@, final(self)@, content@, now, res),
            keeps_favorites(old(self)@, final(self)@),
    {
        let m = fingerprint(content.as_str());
        match self.position_of_md5(&m) {
            Some(i) => {
                let mut r = self.rows[i].snapshot();
                r.create_time = now;
                let id = r.id;
                self.rows.set(i, r);
                proof {
                    assert(self@.rows =~= old(self)@.rows.update(
                        i as int,
                        touched(old(self)@.rows[i as int], now),
                    ));
                    assert(old(self)@.rows[i as int].md5 == md5_hex_of(content@));
                }
                Ok(Write::Touched { id, create_time: now })
            },
            None => {
                if self.next_id == MAX_ID {
                    return Err(StoreError::IdsExhausted);
                }
                let record = self.append_row(content, m, false, now);
                Ok(Write::Inserted { record })
            },
        }
    }
}

} // verus!
