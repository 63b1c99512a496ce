//! The snapshot store model: immutable dated artifacts held in ascending
//! date order, one per processed dump. A snapshot, once present for a
//! date, is never rewritten — that makes the batch pipeline idempotent.
//! The surrounding process mirrors this model onto the snapshot directory
//! and hands back plain listings and file contents.

use vstd::prelude::*;

use crate::codec::{decode_index, encode_index, spec_encode, spec_parse};
use crate::date::{date_key, date_key_of, parse_date, parse_dump_date, spec_parse_dated, valid_date, Date};
use crate::stats::{valid_result, IndexTemplate};
use crate::text::{has_suffix, str_ends_with};
use crate::StatsError;

verus! {

/// One persisted snapshot: artifact name, its embedded date, and the
/// artifact text.
pub struct SnapshotEntry {
    pub name: String,
    pub date: Date,
    pub artifact: String,
}

/// Model of one entry.
pub ghost struct EntryView {
    pub name: Seq<char>,
    pub date: Date,
    pub artifact: Seq<char>,
}

impl View for SnapshotEntry {
    type V = EntryView;

    open spec fn view(&self) -> EntryView {
        EntryView { name: self.name@, date: self.date, artifact: self.artifact@ }
    }
}

/// Models of a sequence of entries.
pub open spec fn entry_views(s: Seq<SnapshotEntry>) -> Seq<EntryView> {
    s.map_values(|e: SnapshotEntry| e@)
}

/// The store invariant: entries carry real dates in strictly ascending
/// date order, so enumeration is chronological and dates are unique.
pub open spec fn store_wf(s: Seq<EntryView>) -> bool {
    &&& forall|i: int, j: int|
        0 <= i < j < s.len() ==> date_key(#[trigger] s[i].date) < date_key(#[trigger] s[j].date)
    &&& forall|i: int| 0 <= i < s.len() ==> valid_date(#[trigger] s[i].date)
}

/// Some entry carries the date key `k`.
pub open spec fn has_date(s: Seq<EntryView>, k: int) -> bool {
    exists|i: int| 0 <= i < s.len() && date_key(#[trigger] s[i].date) == k
}

/// First position whose date key is at least `k`.
pub open spec fn date_pos(s: Seq<EntryView>, k: int) -> int
    decreases s.len(),
{
    if s.len() == 0 {
        0
    } else if date_key(s[0].date) >= k {
        0
    } else {
        1 + date_pos(s.skip(1), k)
    }
}

proof fn lemma_date_pos(s: Seq<EntryView>, k: int)
    ensures
        0 <= date_pos(s, k) <= s.len(),
        forall|j: int| 0 <= j < date_pos(s, k) ==> date_key(#[trigger] s[j].date) < k,
        date_pos(s, k) < s.len() ==> date_key(s[date_pos(s, k)].date) >= k,
    decreases s.len(),
{
    if s.len() > 0 && date_key(s[0].date) < k {
        lemma_date_pos(s.skip(1), k);
        assert forall|j: int| 0 <= j < date_pos(s, k) implies date_key(#[trigger] s[j].date)
            < k by {
            if j > 0 {
                assert(s.skip(1)[j - 1] == s[j]);
            }
        }
        if date_pos(s, k) < s.len() {
            assert(s.skip(1)[date_pos(s, k) - 1] == s[date_pos(s, k)]);
        }
    }
}

/// In a sorted store, a date is present exactly when `date_pos` lands on
/// it.
proof fn lemma_has_date(s: Seq<EntryView>, k: int)
    requires
        forall|i: int, j: int|
            0 <= i < j < s.len() ==> date_key(#[trigger] s[i].date) < date_key(
                #[trigger] s[j].date,
            ),
    ensures
        has_date(s, k) <==> (date_pos(s, k) < s.len() && date_key(s[date_pos(s, k)].date) == k),
{
    lemma_date_pos(s, k);
    let p = date_pos(s, k);
    if has_date(s, k) {
        let i = choose|i: int| 0 <= i < s.len() && date_key(#[trigger] s[i].date) == k;
        assert(i >= p);
        if i > p {
            assert(date_key(s[p].date) < date_key(s[i].date));
        }
    }
}

/// What inserting one entry does: nothing when the date is already
/// present, a sorted insert otherwise.
pub open spec fn store_insert(s: Seq<EntryView>, e: EntryView) -> Seq<EntryView> {
    let p = date_pos(s, date_key(e.date));
    if p < s.len() && date_key(s[p].date) == date_key(e.date) {
        s
    } else {
        s.insert(p, e)
    }
}

/// Inserting preserves the store invariant and adds the date.
pub proof fn lemma_store_insert_wf(s: Seq<EntryView>, e: EntryView)
    requires
        store_wf(s),
        valid_date(e.date),
    ensures
        store_wf(store_insert(s, e)),
        has_date(store_insert(s, e), date_key(e.date)),
        !has_date(s, date_key(e.date)) ==> store_insert(s, e) == s.insert(
            date_pos(s, date_key(e.date)),
            e,
        ),
        has_date(s, date_key(e.date)) ==> store_insert(s, e) == s,
{
    let k = date_key(e.date);
    lemma_date_pos(s, k);
    lemma_has_date(s, k);
    let p = date_pos(s, k);
    if p < s.len() && date_key(s[p].date) == k {
        assert(has_date(s, k));
    } else {
        let u = s.insert(p, e);
        assert(u.len() == s.len() + 1);
        assert(forall|j: int| 0 <= j < p ==> u[j] == #[trigger] s[j]);
        assert(u[p] == e);
        assert(forall|j: int| p < j < u.len() ==> u[j] == #[trigger] s[j - 1]);
        assert forall|i: int, j: int| 0 <= i < j < u.len() implies date_key(
            #[trigger] u[i].date,
        ) < date_key(#[trigger] u[j].date) by {
            if i == p && j > p {
                assert(date_key(s[j - 1].date) >= k);
                assert(date_key(s[j - 1].date) != k);
            } else if j == p && i < p {
                assert(date_key(s[i].date) < k);
            }
        }
        assert(store_wf(u));
        assert(date_key(u[p].date) == k);
        assert(has_date(u, k));
    }
}

/// Idempotence: inserting the same entry twice is the same as inserting it
/// once.
pub proof fn lemma_store_insert_idempotent(s: Seq<EntryView>, e: EntryView)
    requires
        store_wf(s),
        valid_date(e.date),
    ensures
        store_insert(store_insert(s, e), e) == store_insert(s, e),
{
    lemma_store_insert_wf(s, e);
    let s1 = store_insert(s, e);
    lemma_has_date(s1, date_key(e.date));
}

/// Inserting never removes a date.
proof fn lemma_store_insert_keeps_dates(s: Seq<EntryView>, e: EntryView, k: int)
    requires
        store_wf(s),
        valid_date(e.date),
        has_date(s, k),
    ensures
        has_date(store_insert(s, e), k),
{
    lemma_store_insert_wf(s, e);
    let i = choose|i: int| 0 <= i < s.len() && date_key(#[trigger] s[i].date) == k;
    let p = date_pos(s, date_key(e.date));
    lemma_date_pos(s, date_key(e.date));
    if !(p < s.len() && date_key(s[p].date) == date_key(e.date)) {
        let u = s.insert(p, e);
        if i < p {
            assert(u[i] == s[i]);
        } else {
            assert(u[i + 1] == s[i]);
        }
    }
}

/// All the entries of one batch, inserted in order.
pub open spec fn store_insert_all(s: Seq<EntryView>, batch: Seq<EntryView>) -> Seq<EntryView>
    decreases batch.len(),
{
    if batch.len() == 0 {
        s
    } else {
        store_insert(store_insert_all(s, batch.drop_last()), batch.last())
    }
}

/// Every date of the batch: valid.
pub open spec fn batch_dates_valid(batch: Seq<EntryView>) -> bool {
    forall|i: int| 0 <= i < batch.len() ==> valid_date(#[trigger] batch[i].date)
}

/// A batch insert preserves the invariant, keeps every date that was
/// already there, and establishes every date of the batch.
pub proof fn lemma_store_insert_all_props(s: Seq<EntryView>, batch: Seq<EntryView>)
    requires
        store_wf(s),
        batch_dates_valid(batch),
    ensures
        store_wf(store_insert_all(s, batch)),
        forall|k: int| has_date(s, k) ==> #[trigger] has_date(store_insert_all(s, batch), k),
        forall|i: int|
            0 <= i < batch.len() ==> #[trigger] has_date(
                store_insert_all(s, batch),
                date_key(batch[i].date),
            ),
    decreases batch.len(),
{
    if batch.len() > 0 {
        let head = batch.drop_last();
        assert(batch_dates_valid(head)) by {
            assert(forall|i: int|
                0 <= i < head.len() ==> #[trigger] head[i] == batch[i]);
        }
        lemma_store_insert_all_props(s, head);
        let s1 = store_insert_all(s, head);
        let e = batch.last();
        lemma_store_insert_wf(s1, e);
        assert forall|k: int| has_date(s, k) implies #[trigger] has_date(
            store_insert_all(s, batch),
            k,
        ) by {
            lemma_store_insert_keeps_dates(s1, e, k);
        }
        assert forall|i: int| 0 <= i < batch.len() implies #[trigger] has_date(
            store_insert_all(s, batch),
            date_key(batch[i].date),
        ) by {
            if i < batch.len() - 1 {
                assert(head[i] == batch[i]);
                assert(has_date(s1, date_key(batch[i].date)));
                lemma_store_insert_keeps_dates(s1, e, date_key(batch[i].date));
            }
        }
    }
}

/// Idempotence of the batch pipeline: once a batch of dumps has been
/// processed, processing the same batch again changes no snapshot — every
/// date is already present, so every insert is a no-op.
pub proof fn lemma_batch_idempotent(s: Seq<EntryView>, batch: Seq<EntryView>)
    requires
        store_wf(s),
        batch_dates_valid(batch),
    ensures
        store_insert_all(store_insert_all(s, batch), batch) == store_insert_all(s, batch),
{
    let s1 = store_insert_all(s, batch);
    lemma_store_insert_all_props(s, batch);
    lemma_replay_no_op(s1, batch, batch.len() as int);
    assert(batch.take(batch.len() as int) =~= batch);
}

/// Replaying a prefix of a batch whose dates are all present changes
/// nothing.
proof fn lemma_replay_no_op(t: Seq<EntryView>, batch: Seq<EntryView>, n: int)
    requires
        store_wf(t),
        batch_dates_valid(batch),
        0 <= n <= batch.len(),
        forall|i: int|
            0 <= i < batch.len() ==> #[trigger] has_date(t, date_key(batch[i].date)),
    ensures
        store_insert_all(t, batch.take(n)) == t,
    decreases n,
{
    if n == 0 {
        assert(batch.take(0) =~= Seq::<EntryView>::empty());
    } else {
        lemma_replay_no_op(t, batch, n - 1);
        let pre = batch.take(n);
        assert(pre.drop_last() =~= batch.take(n - 1));
        assert(pre.last() == batch[n - 1]);
        lemma_store_insert_wf(t, batch[n - 1]);
        assert(has_date(t, date_key(batch[n - 1].date)));
    }
}

/// The artifact of the first entry named `name`, if any.
pub open spec fn store_lookup(s: Seq<EntryView>, name: Seq<char>) -> Option<Seq<char>>
    decreases s.len(),
{
    if s.len() == 0 {
        None
    } else if s[0].name == name {
        Some(s[0].artifact)
    } else {
        store_lookup(s.skip(1), name)
    }
}

proof fn lemma_store_lookup_found(s: Seq<EntryView>, name: Seq<char>, i: int)
    requires
        0 <= i < s.len(),
        s[i].name == name,
        forall|j: int| 0 <= j < i ==> #[trigger] s[j].name != name,
    ensures
        store_lookup(s, name) == Some(s[i].artifact),
    decreases i,
{
    if i > 0 {
        assert(forall|j: int| 1 <= j < s.len() ==> s[j] == #[trigger] s.skip(1)[j - 1]);
        lemma_store_lookup_found(s.skip(1), name, i - 1);
    }
}

proof fn lemma_store_lookup_missing(s: Seq<EntryView>, name: Seq<char>)
    requires
        forall|j: int| 0 <= j < s.len() ==> #[trigger] s[j].name != name,
    ensures
        store_lookup(s, name) is None,
    decreases s.len(),
{
    if s.len() > 0 {
        assert(forall|j: int| 1 <= j < s.len() ==> s[j] == #[trigger] s.skip(1)[j - 1]);
        lemma_store_lookup_missing(s.skip(1), name);
    }
}

/// The snapshot directory model.
pub struct SnapshotStore {
    entries: Vec<SnapshotEntry>,
}

impl View for SnapshotStore {
    type V = Seq<EntryView>;

    closed spec fn view(&self) -> Seq<EntryView> {
        entry_views(self.entries@)
    }
}

impl SnapshotStore {
    /// An empty store.
    pub fn new() -> (s: Self)
        ensures
            s@ == Seq::<EntryView>::empty(),
            store_wf(s@),
    {
        let s = SnapshotStore { entries: Vec::new() };
        proof {
            assert(s@ =~= Seq::<EntryView>::empty());
        }
        s
    }

    /// Number of snapshots held.
    pub fn len(&self) -> (n: usize)
        ensures
            n == self@.len(),
    {
        self.entries.len()
    }

    /// Name and date of the snapshot at one position of the chronological
    /// order.
    pub fn snapshot_at(&self, i: usize) -> (r: (String, Date))
        requires
            i < self@.len(),
        ensures
            r.0@ == self@[i as int].name,
            r.1 == self@[i as int].date,
    {
        let e = &self.entries[i];
        (e.name.clone(), e.date)
    }

    /// Add one dated artifact: a no-op if the date is already present,
    /// a sorted insert otherwise. Returns whether anything was added.
    pub fn insert_entry(&mut self, name: String, date: Date, artifact: String) -> (added: bool)
        requires
            store_wf(old(self)@),
            valid_date(date),
        ensures
            store_wf(final(self)@),
            final(self)@ == store_insert(
                old(self)@,
                EntryView { name: name@, date, artifact: artifact@ },
            ),
            added == !has_date(old(self)@, date_key(date)),
            !added ==> final(self)@ == old(self)@,
    {
        let ghost sm = self@;
        let ghost e = EntryView { name: name@, date, artifact: artifact@ };
        let k = date_key_of(&date);
        proof {
            lemma_date_pos(sm, k as int);
            lemma_has_date(sm, k as int);
            lemma_store_insert_wf(sm, e);
        }
        let mut p: usize = 0;
        while p < self.entries.len() && date_key_of(&self.entries[p].date) < k
            invariant
                sm == entry_views(self.entries@),
                store_wf(sm),
                p <= sm.len(),
                k == date_key(date),
                forall|j: int| 0 <= j < p ==> date_key(#[trigger] sm[j].date) < k,
                forall|j: int| 0 <= j < sm.len() ==> #[trigger] sm[j] == self.entries@[j]@,
            decreases sm.len() - p,
        {
            p = p + 1;
        }
        proof {
            if p < sm.len() {
                assert(date_key(sm[p as int].date) >= k);
            }
            assert(date_pos(sm, k as int) == p as int) by {
                lemma_date_pos(sm, k as int);
                let q = date_pos(sm, k as int);
                if q < p {
                    assert(date_key(sm[q].date) < k);
                } else if q > p {
                    assert(date_key(sm[p as int].date) < k);
                }
            }
        }
        if p < self.entries.len() && date_key_of(&self.entries[p].date) == k {
            proof {
                assert(has_date(sm, k as int));
                assert(store_insert(sm, e) == sm);
            }
            return false;
        }
        proof {
            assert(!(p < sm.len() && date_key(sm[p as int].date) == k));
            assert(!has_date(sm, k as int));
        }
        self.entries.insert(p, SnapshotEntry { name, date, artifact });
        proof {
            assert(entry_views(self.entries@) =~= sm.insert(p as int, e));
        }
        true
    }

    /// Is there already a snapshot for this dump's date? A dump whose name
    /// carries no date has no snapshot.
    pub fn has_snapshot_for(&self, dump_name: &String) -> (r: bool)
        requires
            store_wf(self@),
        ensures
            r == match spec_parse_dated(dump_name@, ".gz"@) {
                Some(d) => has_date(self@, date_key(d)),
                None => false,
            },
    {
        let date = match parse_dump_date(dump_name.as_str()) {
            Ok(d) => d,
            Err(_) => {
                return false;
            },
        };
        let k = date_key_of(&date);
        proof {
            lemma_has_date(self@, k as int);
            lemma_date_pos(self@, k as int);
        }
        let ghost sm = self@;
        let mut p: usize = 0;
        while p < self.entries.len() && date_key_of(&self.entries[p].date) < k
            invariant
                sm == entry_views(self.entries@),
                store_wf(sm),
                p <= sm.len(),
                k == date_key(date),
                forall|j: int| 0 <= j < p ==> date_key(#[trigger] sm[j].date) < k,
                forall|j: int| 0 <= j < sm.len() ==> #[trigger] sm[j] == self.entries@[j]@,
            decreases sm.len() - p,
        {
            p = p + 1;
        }
        proof {
            assert(date_pos(sm, k as int) == p as int) by {
                lemma_date_pos(sm, k as int);
                let q = date_pos(sm, k as int);
                if q < p {
                    assert(date_key(sm[q].date) < k);
                } else if q > p {
                    assert(date_key(sm[p as int].date) < k);
                }
            }
            lemma_has_date(sm, k as int);
        }
        p < self.entries.len() && date_key_of(&self.entries[p].date) == k
    }

    /// Persist one aggregation result under its dump's date. A no-op when
    /// a snapshot for that date already exists — snapshots are immutable —
    /// and an error when the dump's name carries no date.
    pub fn write(&mut self, dump_name: &String, result: &IndexTemplate) -> (r: Result<
        bool,
        StatsError,
    >)
        requires
            store_wf(old(self)@),
            valid_result(result@),
        ensures
            store_wf(final(self)@),
            match r {
                Ok(added) => spec_parse_dated(dump_name@, ".gz"@) matches Some(d) && {
                    &&& final(self)@ == store_insert(
                        old(self)@,
                        EntryView {
                            name: dump_name@ + ".data"@,
                            date: d,
                            artifact: spec_encode(result@),
                        },
                    )
                    &&& added == !has_date(old(self)@, date_key(d))
                    &&& !added ==> final(self)@ == old(self)@
                },
                Err(e) => e == StatsError::ParseError && spec_parse_dated(dump_name@, ".gz"@)
                    is None && final(self)@ == old(self)@,
            },
    {
        let date = match parse_dump_date(dump_name.as_str()) {
            Ok(d) => d,
            Err(_) => {
                return Err(StatsError::ParseError);
            },
        };
        let artifact = encode_index(result);
        let name = dump_name.clone().concat(".data");
        let added = self.insert_entry(name, date, artifact);
        Ok(added)
    }

    /// Read the aggregation result persisted under `name`: absent names
    /// are not found, artifacts that do not parse are corrupt.
    pub fn read(&self, name: &String) -> (r: Result<IndexTemplate, StatsError>)
        ensures
            match r {
                Ok(t) => store_lookup(self@, name@) matches Some(a) && spec_parse(a) == Some(t@)
                    && t@.total >= 0 && forall|i: int|
                    0 <= i < t@.stats.len() ==> #[trigger] t@.stats[i].count >= 0,
                Err(e) => {
                    ||| (e == StatsError::NotFoundError && store_lookup(self@, name@) is None)
                    ||| (e == StatsError::CorruptDataError && (store_lookup(self@, name@)
                        matches Some(a) && spec_parse(a) is None))
                },
            },
    {
        let ghost sm = self@;
        let mut i: usize = 0;
        while i < self.entries.len()
            invariant
                sm == entry_views(self.entries@),
                i <= sm.len(),
                forall|j: int| 0 <= j < i ==> #[trigger] sm[j].name != name@,
                forall|j: int| 0 <= j < sm.len() ==> #[trigger] sm[j] == self.entries@[j]@,
            decreases sm.len() - i,
        {
            if self.entries[i].name == *name {
                proof {
                    lemma_store_lookup_found(sm, name@, i as int);
                }
                return decode_index(self.entries[i].artifact.as_str());
            }
            i = i + 1;
        }
        proof {
            lemma_store_lookup_missing(sm, name@);
        }
        Err(StatsError::NotFoundError)
    }

    /// The most recent snapshot's name, or no data when none exist yet.
    pub fn latest(&self) -> (r: Result<String, StatsError>)
        ensures
            match r {
                Ok(n) => self@.len() > 0 && n@ == self@.last().name,
                Err(e) => e == StatsError::NoDataError && self@.len() == 0,
            },
    {
        if self.entries.len() == 0 {
            return Err(StatsError::NoDataError);
        }
        let e = &self.entries[self.entries.len() - 1];
        Ok(e.name.clone())
    }

    /// All snapshot names, in chronological order.
    pub fn list_snapshots(&self) -> (r: Vec<String>)
        ensures
            r@.len() == self@.len(),
            forall|i: int| 0 <= i < r@.len() ==> #[trigger] r@[i]@ == self@[i].name,
    {
        let mut out: Vec<String> = Vec::new();
        let mut i: usize = 0;
        while i < self.entries.len()
            invariant
                i <= self@.len(),
                self@ == entry_views(self.entries@),
                forall|j: int| 0 <= j < self@.len() ==> #[trigger] self@[j] == self.entries@[j]@,
                out@.len() == i,
                forall|j: int| 0 <= j < i ==> #[trigger] out@[j]@ == self@[j].name,
            decreases self@.len() - i,
        {
            out.push(self.entries[i].name.clone());
            i = i + 1;
        }
        out
    }
}

/// The most recent data file of a chronologically ordered listing.
pub fn get_latest_data(files: &Vec<String>) -> (r: Result<String, StatsError>)
    ensures
        match r {
            Ok(n) => files@.len() > 0 && n@ == files@.last()@,
            Err(e) => e == StatsError::NoDataError && files@.len() == 0,
        },
{
    if files.len() == 0 {
        return Err(StatsError::NoDataError);
    }
    Ok(files[files.len() - 1].clone())
}

/// What locating data files yields: directory entries that carry the
/// artifact suffix, ordered by their embedded date; an entry with the
/// suffix but no date is a layout fault.
pub open spec fn locate_data(names: Seq<Seq<char>>) -> Option<Seq<EntryView>>
    decreases names.len(),
{
    if names.len() == 0 {
        Some(Seq::empty())
    } else {
        match locate_data(names.drop_last()) {
            None => None,
            Some(s) => {
                let n = names.last();
                if !has_suffix(n, ".data"@) {
                    Some(s)
                } else {
                    match spec_parse_dated(n, ".gz.data"@) {
                        Some(d) => Some(
                            store_insert(s, EntryView { name: n, date: d, artifact: Seq::empty() }),
                        ),
                        None => None,
                    }
                }
            },
        }
    }
}

/// A locating fault in a prefix of the listing is a fault for the whole
/// listing.
proof fn lemma_locate_data_none(names: Seq<Seq<char>>, k: int)
    requires
        0 <= k <= names.len(),
        locate_data(names.take(k)) is None,
    ensures
        locate_data(names) is None,
    decreases names.len() - k,
{
    if k == names.len() {
        assert(names.take(k) =~= names);
    } else {
        assert(names.take(k + 1).drop_last() =~= names.take(k));
        lemma_locate_data_none(names, k + 1);
    }
}

/// Locate the data files among directory entries: keep the artifacts,
/// order them chronologically, and surface a parse error for an artifact
/// name without a date.
pub fn find_data(names: &Vec<String>) -> (r: Result<Vec<String>, StatsError>)
    ensures
        match r {
            Ok(sorted) => locate_data(crate::aggregate::line_views(names@)) matches Some(s) && {
                &&& sorted@.len() == s.len()
                &&& forall|i: int| 0 <= i < s.len() ==> #[trigger] sorted@[i]@ == s[i].name
            },
            Err(e) => e == StatsError::ParseError && locate_data(
                crate::aggregate::line_views(names@),
            ) is None,
        },
{
    let ghost nm = crate::aggregate::line_views(names@);
    let mut store = SnapshotStore::new();
    let mut i: usize = 0;
    proof {
        assert(nm.take(0) =~= Seq::<Seq<char>>::empty());
    }
    while i < names.len()
        invariant
            i <= names@.len(),
            nm == crate::aggregate::line_views(names@),
            nm.len() == names@.len(),
            store_wf(store@),
            locate_data(nm.take(i as int)) == Some(store@),
        decreases names@.len() - i,
    {
        proof {
            assert(nm.take(i + 1).drop_last() =~= nm.take(i as int));
            assert(nm.take(i + 1).last() == nm[i as int]);
            assert(nm[i as int] == names@[i as int]@);
        }
        let name = &names[i];
        if str_ends_with(name.as_str(), ".data") {
            proof {
                reveal_strlit(".data");
            }
            let date = match parse_date(name.as_str()) {
                Ok(d) => d,
                Err(_) => {
                    proof {
                        assert(locate_data(nm.take(i + 1)) is None);
                        lemma_locate_data_none(nm, i + 1);
                    }
                    return Err(StatsError::ParseError);
                },
            };
            proof {
                assert(valid_date(date));
            }
            let artifact = String::new();
            store.insert_entry(name.clone(), date, artifact);
        } else {
            proof {
                reveal_strlit(".data");
            }
        }
        i = i + 1;
    }
    proof {
        assert(nm.take(names@.len() as int) =~= nm);
    }
    Ok(store.list_snapshots())
}

/// What locating raw dumps yields: directory entries with the dump
/// suffix, ordered by their embedded date; a dump name without a date is
/// skipped (it is not one of ours).
pub open spec fn locate_dumps(names: Seq<Seq<char>>) -> Seq<EntryView>
    decreases names.len(),
{
    if names.len() == 0 {
        Seq::empty()
    } else {
        let s = locate_dumps(names.drop_last());
        let n = names.last();
        match spec_parse_dated(n, ".gz"@) {
            Some(d) => store_insert(s, EntryView { name: n, date: d, artifact: Seq::empty() }),
            None => s,
        }
    }
}

/// Locate the raw dumps among directory entries, ordered chronologically.
pub fn find_dumps(names: &Vec<String>) -> (r: Vec<String>)
    ensures
        ({
            let s = locate_dumps(crate::aggregate::line_views(names@));
            r@.len() == s.len() && forall|i: int| 0 <= i < s.len() ==> #[trigger] r@[i]@
                == s[i].name
        }),
{
    let ghost nm = crate::aggregate::line_views(names@);
    let mut store = SnapshotStore::new();
    let mut i: usize = 0;
    proof {
        assert(nm.take(0) =~= Seq::<Seq<char>>::empty());
        assert(locate_dumps(nm.take(0)) =~= Seq::<EntryView>::empty());
    }
    while i < names.len()
        invariant
            i <= names@.len(),
            nm == crate::aggregate::line_views(names@),
            nm.len() == names@.len(),
            store_wf(store@),
            locate_dumps(nm.take(i as int)) == store@,
        decreases names@.len() - i,
    {
        proof {
            assert(nm.take(i + 1).drop_last() =~= nm.take(i as int));
            assert(nm.take(i + 1).last() == nm[i as int]);
            assert(nm[i as int] == names@[i as int]@);
        }
        let name = &names[i];
        match parse_dump_date(name.as_str()) {
            Ok(date) => {
                let artifact = String::new();
                store.insert_entry(name.clone(), date, artifact);
            },
            Err(_) => {},
        }
        i = i + 1;
    }
    proof {
        assert(nm.take(names@.len() as int) =~= nm);
    }
    store.list_snapshots()
}

} // verus!
