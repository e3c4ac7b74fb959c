//! A single named time series: records kept in timestamp order, with
//! lookup, range extraction and the grouping of records into time windows.
//!
//! A record's value is a 64-bit float carried as its IEEE-754 bit pattern
//! (`f64::to_bits`): the series orders, finds and groups records by their
//! timestamps and never does arithmetic on the values.

use vstd::prelude::*;
use vstd::arithmetic::div_mod::lemma_div_is_ordered;
use vstd::slice::{slice_subrange, slice_to_vec};

verus! {

/// One point of a series: a millisecond timestamp and the bit pattern of
/// a 64-bit float value. Two records are equal when both fields are.
#[derive(Debug, Clone, Copy, PartialEq, Eq, Structural)]
pub struct Record {
    pub timestamp: u128,
    pub value: u64,
}

/// Milliseconds since the Unix epoch, as the system clock reads them.
///
/// Relies on `std::time::SystemTime::elapsed` (on `UNIX_EPOCH`); a clock
/// set before the epoch reads as zero. Nothing is promised of the reading.
#[verifier::external_body]
fn now_millis() -> (r: u128) {
    std::time::UNIX_EPOCH.elapsed().unwrap_or_default().as_millis()
}

impl Record {
    /// A record stamped with the current time.
    pub fn new(value: u64) -> (r: Record)
        ensures
            r.value == value,
    {
        Record { timestamp: now_millis(), value }
    }

    /// A record with the given timestamp.
    pub fn at(timestamp: u128, value: u64) -> (r: Record)
        ensures
            r.timestamp == timestamp,
            r.value == value,
    {
        Record { timestamp, value }
    }
}

/// Whether the records of `s` are in non-decreasing timestamp order.
pub open spec fn sorted(s: Seq<Record>) -> bool {
    forall|i: int, j: int| 0 <= i <= j < s.len() ==> s[i].timestamp <= s[j].timestamp
}

/// Whether index `i` splits `s` into the records stamped at or before `t`
/// (those before `i`) and the records stamped after `t` (the rest).
pub open spec fn splits_at(s: Seq<Record>, i: int, t: u128) -> bool {
    &&& 0 <= i <= s.len()
    &&& forall|j: int| 0 <= j < i ==> s[j].timestamp <= t
    &&& forall|j: int| i <= j < s.len() ==> s[j].timestamp > t
}

/// The records of `s` stamped within `[lo, hi]`, in their order in `s`.
pub open spec fn records_between(s: Seq<Record>, lo: u128, hi: u128) -> Seq<Record> {
    s.filter(|x: Record| lo <= x.timestamp && x.timestamp <= hi)
}

/// In a sorted sequence, the records stamped within `[lo, hi]` are the
/// slice between the first record at or after `lo` (index `a`) and the
/// first record after `hi` (index `b`); the slice of the first `k` records
/// is taken here, by induction on `k`.
proof fn lemma_between_prefix(s: Seq<Record>, lo: u128, hi: u128, a: int, b: int, k: int)
    requires
        0 <= a <= s.len(),
        splits_at(s, b, hi),
        forall|j: int| 0 <= j < a ==> s[j].timestamp < lo,
        forall|j: int| a <= j < s.len() ==> s[j].timestamp >= lo,
        0 <= k <= s.len(),
    ensures
        records_between(s.subrange(0, k), lo, hi) == (if k <= a || b <= a {
            Seq::<Record>::empty()
        } else if k <= b {
            s.subrange(a, k)
        } else {
            s.subrange(a, b)
        }),
    decreases k,
{
    let p = |x: Record| lo <= x.timestamp && x.timestamp <= hi;
    if k == 0 {
        assert(s.subrange(0, 0) =~= Seq::<Record>::empty());
        reveal(Seq::filter);
    } else {
        lemma_between_prefix(s, lo, hi, a, b, k - 1);
        let prev = s.subrange(0, k - 1);
        assert(s.subrange(0, k) =~= prev.push(s[k - 1]));
        prev.lemma_filter_push(s[k - 1], p);
        if a <= k - 1 && k - 1 < b {
            assert(s.subrange(a, k) =~= s.subrange(a, k - 1).push(s[k - 1]));
        }
    }
}

/// The records stamped within `[lo, hi]` are the slice `[a, b)`, with `a`
/// the first record at or after `lo` and `b` the first after `hi`.
proof fn lemma_between_slice(s: Seq<Record>, lo: u128, hi: u128, a: int, b: int)
    requires
        0 <= a <= s.len(),
        splits_at(s, b, hi),
        forall|j: int| 0 <= j < a ==> s[j].timestamp < lo,
        forall|j: int| a <= j < s.len() ==> s[j].timestamp >= lo,
    ensures
        records_between(s, lo, hi) == (if b <= a {
            Seq::<Record>::empty()
        } else {
            s.subrange(a, b)
        }),
{
    lemma_between_prefix(s, lo, hi, a, b, s.len() as int);
    assert(s.subrange(0, s.len() as int) =~= s);
}

/// The number `k` of the window `[k * interval, (k + 1) * interval)` that
/// timestamp `t` falls in. Windows are half-open, so every timestamp lies in
/// exactly one of them.
pub open spec fn window_of(t: u128, interval: u128) -> int {
    (t as int) / (interval as int)
}

/// `w` lists, in time order, every window of width `interval` that holds
/// at least one of the first `n` records of `s`, each as the slice
/// `[start, end)` of the records in it. The slices follow one another with
/// no gap, so every record counts in exactly one window; windows that hold
/// no record are left out.
#[verifier::opaque]
pub open spec fn windows_upto(s: Seq<Record>, interval: u128, w: Seq<(usize, usize)>, n: int) -> bool {
    &&& 0 <= n <= s.len()
    &&& (w.len() == 0 <==> n == 0)
    &&& w.len() > 0 ==> w[0].0 == 0 && w.last().1 == n
    &&& forall|k: int| #![trigger w[k]] 0 <= k < w.len() ==> w[k].0 < w[k].1 <= n
    &&& forall|k: int| #![trigger w[k]] 0 < k < w.len() ==> w[k - 1].1 == w[k].0
    &&& forall|k: int, i: int|
        #![trigger w[k], s[i]]
        0 <= k < w.len() && w[k].0 <= i < w[k].1 ==> window_of(s[i].timestamp, interval)
            == window_of(s[w[k].0 as int].timestamp, interval)
    &&& forall|k: int|
        #![trigger w[k]]
        0 < k < w.len() ==> window_of(s[w[k - 1].0 as int].timestamp, interval) < window_of(
            s[w[k].0 as int].timestamp,
            interval,
        )
}

/// Of two timestamps in order that fall in distinct windows, the later one
/// falls in the later window.
proof fn lemma_later_window(a: u128, t: u128, interval: u128)
    requires
        interval > 0,
        a <= t,
        window_of(a, interval) != window_of(t, interval),
    ensures
        window_of(a, interval) < window_of(t, interval),
{
    lemma_div_is_ordered(a as int, t as int, interval as int);
}

/// A record that falls in the last window extends that window.
proof fn lemma_windows_extend(s: Seq<Record>, interval: u128, w: Seq<(usize, usize)>, i: int)
    requires
        windows_upto(s, interval, w, i),
        i < s.len(),
        i + 1 <= usize::MAX,
        w.len() > 0,
        window_of(s[w.last().0 as int].timestamp, interval) == window_of(s[i].timestamp, interval),
    ensures
        windows_upto(s, interval, w.update(w.len() - 1, (w.last().0, (i + 1) as usize)), i + 1),
{
    reveal(windows_upto);
    let w2 = w.update(w.len() - 1, (w.last().0, (i + 1) as usize));
    assert forall|k: int, j: int|
        #![trigger w2[k], s[j]]
        0 <= k < w2.len() && w2[k].0 <= j < w2[k].1 implies window_of(s[j].timestamp, interval)
        == window_of(s[w2[k].0 as int].timestamp, interval) by {
        if j < w[k].1 {
            assert(w[k].0 <= j < w[k].1);
        }
    }
}

/// A record in a later window than the last listed one opens a window of
/// its own.
proof fn lemma_windows_open(s: Seq<Record>, interval: u128, w: Seq<(usize, usize)>, i: int)
    requires
        windows_upto(s, interval, w, i),
        i < s.len(),
        i + 1 <= usize::MAX,
        sorted(s),
        interval > 0,
        w.len() > 0 ==> window_of(s[w.last().0 as int].timestamp, interval) != window_of(
            s[i].timestamp,
            interval,
        ),
    ensures
        windows_upto(s, interval, w.push((i as usize, (i + 1) as usize)), i + 1),
{
    reveal(windows_upto);
    let w2 = w.push((i as usize, (i + 1) as usize));
    if w.len() > 0 {
        let a = s[w.last().0 as int].timestamp;
        assert(w[w.len() - 1].0 < w[w.len() - 1].1 <= i);
        lemma_later_window(a, s[i].timestamp, interval);
    }
    assert forall|k: int, j: int|
        #![trigger w2[k], s[j]]
        0 <= k < w2.len() && w2[k].0 <= j < w2[k].1 implies window_of(s[j].timestamp, interval)
        == window_of(s[w2[k].0 as int].timestamp, interval) by {
        if k < w.len() {
            assert(w[k].0 <= j < w[k].1);
        }
    }
}

/// A sorted sequence has one insertion point for each timestamp.
pub proof fn lemma_split_unique(s: Seq<Record>, t: u128, i: int, j: int)
    requires
        splits_at(s, i, t),
        splits_at(s, j, t),
    ensures
        i == j,
{
    if i < j {
        assert(s[i].timestamp > t);
    } else if j < i {
        assert(s[j].timestamp > t);
    }
}

/// Searching a sorted series for a timestamp that it holds lands just past
/// the whole run of records carrying that timestamp: every such record lies
/// before the insertion point, the record right before it carries the
/// timestamp, and the record at it (if any) does not.
pub proof fn lemma_search_after_run(s: Seq<Record>, t: u128, k: int, i: int)
    requires
        sorted(s),
        0 <= k < s.len(),
        s[k].timestamp == t,
        splits_at(s, i, t),
    ensures
        k < i,
        s[i - 1].timestamp == t,
        i < s.len() ==> s[i].timestamp != t,
{
    assert(s[k].timestamp <= t);
    assert(s[i - 1].timestamp <= t);
    assert(s[k].timestamp <= s[i - 1].timestamp);
}

/// Taking the range `[lo, hi]` of a range `[lo, hi]` changes nothing.
pub proof fn lemma_range_idempotent(s: Seq<Record>, lo: u128, hi: u128)
    ensures
        records_between(records_between(s, lo, hi), lo, hi) == records_between(s, lo, hi),
{
    let p = |x: Record| lo <= x.timestamp && x.timestamp <= hi;
    let r = s.filter(p);
    broadcast use vstd::seq_lib::group_filter_ensures;
    lemma_filter_keeps_all(r, p);
}

/// Filtering a sequence whose every element passes keeps it whole.
proof fn lemma_filter_keeps_all(s: Seq<Record>, p: spec_fn(Record) -> bool)
    requires
        forall|i: int| 0 <= i < s.len() ==> p(#[trigger] s[i]),
    ensures
        s.filter(p) == s,
    decreases s.len(),
{
    reveal(Seq::filter);
    if s.len() > 0 {
        lemma_filter_keeps_all(s.drop_last(), p);
        assert(s.drop_last().push(s.last()) =~= s);
    }
}

/// The values of the records of `s`, in order.
pub open spec fn values_of(s: Seq<Record>) -> Seq<u64> {
    s.map_values(|r: Record| r.value)
}

/// A named series of records, kept sorted by timestamp, with an optional
/// retention (in milliseconds) and the time it was created.
pub struct TimeSeries {
    name: String,
    retention: Option<i64>,
    ctime: u128,
    records: Vec<Record>,
}

impl View for TimeSeries {
    type V = Seq<Record>;

    /// The records, in order.
    closed spec fn view(&self) -> Seq<Record> {
        self.records@
    }
}

impl TimeSeries {
    pub closed spec fn spec_name(&self) -> Seq<char> {
        self.name@
    }

    pub closed spec fn spec_retention(&self) -> Option<i64> {
        self.retention
    }

    pub closed spec fn spec_ctime(&self) -> u128 {
        self.ctime
    }

    /// Well-formedness: the records are sorted by timestamp.
    pub open spec fn wf(&self) -> bool {
        sorted(self@)
    }

    /// An empty series created now.
    pub fn new(name: String, retention: Option<i64>) -> (r: TimeSeries)
        ensures
            r.wf(),
            r@ == Seq::<Record>::empty(),
            r.spec_name() == name@,
            r.spec_retention() == retention,
    {
        TimeSeries::created_at(name, retention, now_millis())
    }

    /// An empty series whose creation time is `ctime`.
    pub fn created_at(name: String, retention: Option<i64>, ctime: u128) -> (r: TimeSeries)
        ensures
            r.wf(),
            r@ == Seq::<Record>::empty(),
            r.spec_name() == name@,
            r.spec_retention() == retention,
            r.spec_ctime() == ctime,
    {
        TimeSeries { name, retention, ctime, records: Vec::new() }
    }

    pub fn name(&self) -> (r: &str)
        ensures
            r@ == self.spec_name(),
    {
        self.name.as_str()
    }

    /// Whether the series is named `name`.
    pub fn has_name(&self, name: &String) -> (r: bool)
        ensures
            r == (self.spec_name() == name@),
    {
        self.name == *name
    }

    pub fn retention(&self) -> (r: Option<i64>)
        ensures
            r == self.spec_retention(),
    {
        self.retention
    }

    pub fn ctime(&self) -> (r: u128)
        ensures
            r == self.spec_ctime(),
    {
        self.ctime
    }

    pub fn len(&self) -> (r: usize)
        ensures
            r == self@.len(),
    {
        self.records.len()
    }

    pub fn is_empty(&self) -> (r: bool)
        ensures
            r == (self@.len() == 0),
    {
        self.records.len() == 0
    }

    /// The record at position `i`.
    pub fn index(&self, i: usize) -> (r: &Record)
        requires
            i < self@.len(),
        ensures
            *r == self@[i as int],
    {
        &self.records[i]
    }

    /// The values of the records at positions `[start, end)`, in order.
    pub fn values_in(&self, start: usize, end: usize) -> (r: Vec<u64>)
        requires
            start <= end <= self@.len(),
        ensures
            r@ == values_of(self@.subrange(start as int, end as int)),
    {
        let mut out: Vec<u64> = Vec::new();
        let mut i: usize = start;
        while i < end
            invariant
                start <= i <= end <= self@.len(),
                out@ == values_of(self@.subrange(start as int, i as int)),
            decreases end - i,
        {
            out.push(self.records[i].value);
            i += 1;
            assert(out@ =~= values_of(self@.subrange(start as int, i as int)));
        }
        out
    }

    /// Drops every record stamped before `cutoff`; what a retention policy
    /// calls to evict old points.
    pub fn drop_before(&mut self, cutoff: u128)
        requires
            old(self).wf(),
        ensures
            final(self).wf(),
            exists|i: int|
                0 <= i <= old(self)@.len() && (forall|j: int| 0 <= j < i ==> old(self)@[j].timestamp < cutoff)
                    && (forall|j: int| i <= j < old(self)@.len() ==> old(self)@[j].timestamp >= cutoff)
                    && final(self)@ == old(self)@.subrange(i, old(self)@.len() as int),
            final(self).spec_name() == old(self).spec_name(),
            final(self).spec_retention() == old(self).spec_retention(),
            final(self).spec_ctime() == old(self).spec_ctime(),
    {
        let start = if cutoff == 0 {
            0
        } else {
            match self.search(cutoff - 1) {
                Ok(i) => i,
                Err(i) => i,
            }
        };
        let n = self.records.len();
        let kept = slice_to_vec(slice_subrange(self.records.as_slice(), start, n));
        self.records = kept;
    }

    /// The insertion point of `t`: the index of the first record stamped
    /// strictly after `t` (the length when there is none). It is never
    /// `Ok`, so a timestamp that is present yields the index just past the
    /// last record that carries it.
    pub fn search(&self, t: u128) -> (r: Result<usize, usize>)
        requires
            self.wf(),
        ensures
            r matches Err(i) && splits_at(self@, i as int, t),
    {
        let mut lo: usize = 0;
        let mut hi: usize = self.records.len();
        while lo < hi
            invariant
                self.wf(),
                0 <= lo <= hi <= self@.len(),
                forall|j: int| 0 <= j < lo ==> self@[j].timestamp <= t,
                forall|j: int| hi <= j < self@.len() ==> self@[j].timestamp > t,
            decreases hi - lo,
        {
            let mid = lo + (hi - lo) / 2;
            if self.records[mid].timestamp <= t {
                lo = mid + 1;
            } else {
                hi = mid;
            }
        }
        Err(lo)
    }

    /// Inserts `r` after every record stamped at or before its timestamp,
    /// so the series stays sorted and records with equal timestamps keep
    /// the order in which they were added.
    pub fn add_point(&mut self, r: Record)
        requires
            old(self).wf(),
        ensures
            final(self).wf(),
            exists|i: int| splits_at(old(self)@, i, r.timestamp) && final(self)@ == old(self)@.insert(i, r),
            final(self).spec_name() == old(self).spec_name(),
            final(self).spec_retention() == old(self).spec_retention(),
            final(self).spec_ctime() == old(self).spec_ctime(),
    {
        let i = match self.search(r.timestamp) {
            Ok(i) => i,
            Err(i) => i,
        };
        self.records.insert(i, r);
        assert(splits_at(old(self)@, i as int, r.timestamp));
    }
    /// Every record stamped within `[lo, hi]`, in order; `None` when the
    /// series holds no record at all.
    pub fn range(&self, lo: u128, hi: u128) -> (r: Option<Vec<Record>>)
        requires
            self.wf(),
        ensures
            r is None <==> self@.len() == 0,
            r matches Some(v) ==> v@ == records_between(self@, lo, hi),
    {
        if self.records.len() == 0 {
            return None;
        }
        let start = if lo == 0 {
            0
        } else {
            match self.search(lo - 1) {
                Ok(i) => i,
                Err(i) => i,
            }
        };
        let end = match self.search(hi) {
            Ok(i) => i,
            Err(i) => i,
        };
        proof {
            lemma_between_slice(self@, lo, hi, start as int, end as int);
        }
        let mut out: Vec<Record> = Vec::new();
        let mut i: usize = start;
        while i < end
            invariant
                start <= i <= self@.len(),
                end <= self@.len(),
                start < end ==> i <= end,
                end <= start ==> i == start,
                out@ == self@.subrange(start as int, i as int),
            decreases end - i,
        {
            out.push(self.records[i]);
            i += 1;
            assert(out@ =~= self@.subrange(start as int, i as int));
        }
        assert(out@ =~= (if end <= start {
            Seq::<Record>::empty()
        } else {
            self@.subrange(start as int, end as int)
        }));
        Some(out)
    }
    /// The windows of width `interval` that hold records, in time order,
    /// each as the slice of the records in it; `None` when the series is
    /// empty. Window `k` is `[k * interval, (k + 1) * interval)`: windows run
    /// from the first record's timestamp rounded down to a multiple of
    /// `interval` up to the last one's, every record counts in exactly one,
    /// and windows without records are skipped.
    pub fn window_bounds(&self, interval: u128) -> (r: Option<Vec<(usize, usize)>>)
        requires
            self.wf(),
            interval > 0,
        ensures
            r is None <==> self@.len() == 0,
            r matches Some(w) ==> windows_upto(self@, interval, w@, self@.len() as int),
    {
        if self.records.len() == 0 {
            return None;
        }
        proof {
            reveal(windows_upto);
        }
        let n = self.records.len();
        let mut w: Vec<(usize, usize)> = Vec::new();
        let mut i: usize = 0;
        while i < n
            invariant
                self.wf(),
                interval > 0,
                n == self@.len(),
                i <= n,
                windows_upto(self@, interval, w@, i as int),
                forall|k: int| #![trigger w@[k]] 0 <= k < w@.len() ==> w@[k].0 < w@[k].1 <= i,
            decreases n - i,
        {
            let ghost s = self@;
            let key = self.records[i].timestamp / interval;
            let len = w.len();
            if len > 0 && self.records[w[len - 1].0].timestamp / interval == key {
                let first = w[len - 1].0;
                proof {
                    lemma_windows_extend(s, interval, w@, i as int);
                }
                w.set(len - 1, (first, i + 1));
            } else {
                proof {
                    lemma_windows_open(s, interval, w@, i as int);
                }
                w.push((i, i + 1));
            }
            i += 1;
        }
        Some(w)
    }
}

} // verus!
