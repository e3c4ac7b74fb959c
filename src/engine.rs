//! The storage engine: the set of named series that the service holds.
//!
//! Series are created and deleted explicitly; nothing is created by a
//! write. Points are stamped by the caller's clock reading `now`: every
//! value of one batch gets that same timestamp, and a point stamped earlier
//! than points already held is placed at its sorted position.

use vstd::prelude::*;
use crate::protocol::{Command, CommandView, Query};
use crate::timeseries::{
    Record, TimeSeries, lemma_split_unique, records_between, splits_at, values_of, windows_upto,
};

verus! {

/// Why a storage operation did not take place.
#[derive(Debug, Clone, Copy, PartialEq, Eq, Structural)]
pub enum StorageError {
    /// No series has the name given.
    NotFound,
    /// A series with the name given exists already.
    AlreadyExists,
    /// The series holds no record to aggregate.
    EmptyAggregate,
    /// A window width of zero was asked for.
    ZeroInterval,
}

/// Whether some series of `s` is named `name`.
pub open spec fn holds(s: Seq<TimeSeries>, name: Seq<char>) -> bool {
    exists|i: int| 0 <= i < s.len() && (#[trigger] s[i]).spec_name() == name
}

/// Whether no two series of `s` share a name.
pub open spec fn names_distinct(s: Seq<TimeSeries>) -> bool {
    forall|i: int, j: int|
        0 <= i < s.len() && 0 <= j < s.len() && i != j ==> (#[trigger] s[i]).spec_name()
            != (#[trigger] s[j]).spec_name()
}

/// `new` is `old` with the records `added` (stamped alike at `t`) placed
/// after every record stamped at or before `t`; name, retention and
/// creation time are kept.
pub open spec fn inserted_run(old: TimeSeries, new: TimeSeries, t: u128, added: Seq<Record>) -> bool {
    &&& new.wf()
    &&& new.spec_name() == old.spec_name()
    &&& new.spec_retention() == old.spec_retention()
    &&& new.spec_ctime() == old.spec_ctime()
    &&& exists|i: int|
        splits_at(old@, i, t) && new@ == old@.subrange(0, i) + added + old@.subrange(
            i,
            old@.len() as int,
        )
}

/// The records that a batch of values becomes when all are stamped `t`.
pub open spec fn stamped(values: Seq<u64>, t: u128) -> Seq<Record> {
    values.map_values(|v: u64| Record { timestamp: t, value: v })
}

/// `new` is `old` with one more series at the end: named `name`, empty,
/// with the retention given and created at `now`.
pub open spec fn created(old: Seq<TimeSeries>, new: Seq<TimeSeries>, name: Seq<char>, retention: Option<i64>, now: u128) -> bool {
    &&& new == old.push(new.last())
    &&& new.last().spec_name() == name
    &&& new.last()@ == Seq::<Record>::empty()
    &&& new.last().spec_retention() == retention
    &&& new.last().spec_ctime() == now
}

/// `new` is `old` without the series named `name`.
pub open spec fn deleted(old: Seq<TimeSeries>, new: Seq<TimeSeries>, name: Seq<char>) -> bool {
    exists|i: int| 0 <= i < old.len() && old[i].spec_name() == name && new == old.remove(i)
}

/// `new` is `old` with `values`, stamped `now`, added to the series named
/// `name`; every other series is kept as it was.
pub open spec fn appended(old: Seq<TimeSeries>, new: Seq<TimeSeries>, name: Seq<char>, values: Seq<u64>, now: u128) -> bool {
    &&& new.len() == old.len()
    &&& forall|j: int| 0 <= j < old.len() && (#[trigger] old[j]).spec_name() != name ==> new[j] == old[j]
    &&& forall|j: int|
        0 <= j < old.len() && (#[trigger] old[j]).spec_name() == name ==> inserted_run(
            old[j],
            new[j],
            now,
            stamped(values, now),
        )
}

/// What the engine answers to a command. Aggregates come back as the
/// values to fold, for the caller to do the floating-point arithmetic.
#[derive(Debug, PartialEq)]
pub enum Reply {
    /// The change asked for was made.
    Done,
    /// Nothing was changed, for the reason given.
    Failed(StorageError),
    /// The records a range query selected.
    Records(Vec<Record>),
    /// The values of a non-empty series, for a mean, minimum or maximum.
    Aggregate { query: Query, values: Vec<u64> },
    /// The values of each window of a windowed query, in time order.
    Windows(Vec<Vec<u64>>),
}

/// `groups` holds, for each window of `w` in turn, the values of the
/// records of `s` in it.
pub open spec fn window_values(s: Seq<Record>, w: Seq<(usize, usize)>, groups: Seq<Vec<u64>>) -> bool {
    &&& groups.len() == w.len()
    &&& forall|k: int|
        0 <= k < w.len() ==> (#[trigger] groups[k])@ == values_of(
            s.subrange(w[k].0 as int, w[k].1 as int),
        )
}

/// What a query on a series with records `s` answers.
pub open spec fn query_answer(s: Seq<Record>, q: Query, r: Reply) -> bool {
    match q {
        Query::Windowed { interval } => if interval == 0 {
            r == Reply::Failed(StorageError::ZeroInterval)
        } else if s.len() == 0 {
            r == Reply::Failed(StorageError::EmptyAggregate)
        } else {
            r matches Reply::Windows(groups) && exists|w: Seq<(usize, usize)>|
                windows_upto(s, interval, w, s.len() as int) && window_values(s, w, groups@)
        },
        Query::Range { lo, hi } => if s.len() == 0 {
            r == Reply::Failed(StorageError::EmptyAggregate)
        } else {
            r matches Reply::Records(v) && v@ == records_between(s, lo, hi)
        },
        _ => if s.len() == 0 {
            r == Reply::Failed(StorageError::EmptyAggregate)
        } else {
            r matches Reply::Aggregate { query, values } && query == q && values@ == values_of(s)
        },
    }
}

/// Deleting a series frees its name: no series left carries it, so a query
/// on it then fails with `NotFound`, and creating it again succeeds with an
/// empty series created at the new time (see [`Engine::create`]).
pub proof fn lemma_delete_frees_name(before: Seq<TimeSeries>, after: Seq<TimeSeries>, name: Seq<char>)
    requires
        names_distinct(before),
        deleted(before, after, name),
    ensures
        !holds(after, name),
{
    let i = choose|i: int| 0 <= i < before.len() && before[i].spec_name() == name && after == before.remove(i);
    assert forall|j: int| 0 <= j < after.len() implies (#[trigger] after[j]).spec_name() != name by {
        if j < i {
            assert(after[j] == before[j]);
        } else {
            assert(after[j] == before[j + 1]);
        }
    }
}

/// Keeping the records stamped at or after `cutoff` keeps the suffix from
/// `k`, when the records before `k` are the ones stamped earlier.
proof fn lemma_filter_suffix(s: Seq<Record>, cutoff: u128, k: int)
    requires
        0 <= k <= s.len(),
        forall|j: int| 0 <= j < k ==> s[j].timestamp < cutoff,
        forall|j: int| k <= j < s.len() ==> s[j].timestamp >= cutoff,
    ensures
        s.filter(|x: Record| x.timestamp >= cutoff) == s.subrange(k, s.len() as int),
    decreases s.len(),
{
    let p = |x: Record| x.timestamp >= cutoff;
    reveal(Seq::filter);
    if s.len() == 0 {
        assert(s.subrange(k, 0) =~= s);
    } else if k == s.len() {
        lemma_filter_suffix(s.drop_last(), cutoff, k - 1);
        assert(s.drop_last().subrange(k - 1, k - 1) =~= s.subrange(k, k));
    } else {
        lemma_filter_suffix(s.drop_last(), cutoff, k);
        assert(s.drop_last().subrange(k, s.len() - 1).push(s.last()) =~= s.subrange(k, s.len() as int));
    }
}

/// The named series that the service holds, in order of creation.
pub struct Engine {
    series: Vec<TimeSeries>,
}

impl View for Engine {
    type V = Seq<TimeSeries>;

    closed spec fn view(&self) -> Seq<TimeSeries> {
        self.series@
    }
}

impl Engine {
    /// Well-formedness: names are unique and every series is sorted.
    pub open spec fn wf(&self) -> bool {
        &&& names_distinct(self@)
        &&& forall|i: int| 0 <= i < self@.len() ==> (#[trigger] self@[i]).wf()
    }

    /// An engine that holds no series.
    pub fn new() -> (r: Engine)
        ensures
            r.wf(),
            r@ == Seq::<TimeSeries>::empty(),
    {
        Engine { series: Vec::new() }
    }

    /// The number of series held.
    pub fn len(&self) -> (r: usize)
        ensures
            r == self@.len(),
    {
        self.series.len()
    }

    /// The position of the series named `name`, if there is one.
    pub fn find(&self, name: &String) -> (r: Option<usize>)
        requires
            self.wf(),
        ensures
            r is None <==> !holds(self@, name@),
            r matches Some(i) ==> i < self@.len() && self@[i as int].spec_name() == name@,
    {
        let mut i: usize = 0;
        while i < self.series.len()
            invariant
                i <= self@.len(),
                forall|j: int| 0 <= j < i ==> (#[trigger] self@[j]).spec_name() != name@,
            decreases self@.len() - i,
        {
            if self.series[i].has_name(name) {
                return Some(i);
            }
            i += 1;
        }
        None
    }

    /// The series named `name`, if there is one.
    pub fn get(&self, name: &String) -> (r: Option<&TimeSeries>)
        requires
            self.wf(),
        ensures
            r is None <==> !holds(self@, name@),
            r matches Some(ts) ==> ts.spec_name() == name@ && ts.wf() && exists|i: int|
                0 <= i < self@.len() && self@[i] == *ts,
    {
        match self.find(name) {
            Some(i) => Some(&self.series[i]),
            None => None,
        }
    }

    /// Adds an empty series named `name`, created at `now`; fails when the
    /// name is taken.
    pub fn create(&mut self, name: String, retention: Option<i64>, now: u128) -> (r: Result<(), StorageError>)
        requires
            old(self).wf(),
        ensures
            final(self).wf(),
            holds(old(self)@, name@) ==> r == Err::<(), StorageError>(StorageError::AlreadyExists)
                && final(self)@ == old(self)@,
            !holds(old(self)@, name@) ==> r is Ok && created(old(self)@, final(self)@, name@, retention, now),
    {
        if self.find(&name).is_some() {
            return Err(StorageError::AlreadyExists);
        }
        let ts = TimeSeries::created_at(name, retention, now);
        self.series.push(ts);
        Ok(())
    }

    /// Removes the series named `name` with all its records; fails when
    /// there is none.
    pub fn delete(&mut self, name: &String) -> (r: Result<(), StorageError>)
        requires
            old(self).wf(),
        ensures
            final(self).wf(),
            !holds(old(self)@, name@) ==> r == Err::<(), StorageError>(StorageError::NotFound)
                && final(self)@ == old(self)@,
            holds(old(self)@, name@) ==> r is Ok && deleted(old(self)@, final(self)@, name@),
            !holds(final(self)@, name@),
    {
        match self.find(name) {
            None => Err(StorageError::NotFound),
            Some(i) => {
                self.series.remove(i);
                assert forall|j: int| 0 <= j < self@.len() implies (#[trigger] self@[j]).spec_name()
                    != name@ by {
                    if j < i {
                        assert(old(self)@[j] == self@[j]);
                    } else {
                        assert(old(self)@[j + 1] == self@[j]);
                    }
                }
                Ok(())
            }
        }
    }
    /// Appends `values` to the series named `name`, every one stamped
    /// `now`: they go, in the order given, after every record stamped at or
    /// before `now`. Fails, changing nothing, when there is no such series.
    pub fn add_points(&mut self, name: &String, values: &Vec<u64>, now: u128) -> (r: Result<(), StorageError>)
        requires
            old(self).wf(),
        ensures
            final(self).wf(),
            !holds(old(self)@, name@) ==> r == Err::<(), StorageError>(StorageError::NotFound)
                && final(self)@ == old(self)@,
            holds(old(self)@, name@) ==> r is Ok,
            appended(old(self)@, final(self)@, name@, values@, now),
    {
        let pos = self.find(name);
        if pos.is_none() {
            return Err(StorageError::NotFound);
        }
        let i = pos.unwrap();
        let mut ts = self.series.remove(i);
        let ghost orig = ts;
        let start = match ts.search(now) {
            Ok(x) => x,
            Err(x) => x,
        };
        let ghost pre = orig@.subrange(0, start as int);
        let ghost post = orig@.subrange(start as int, orig@.len() as int);
        assert(orig@ =~= pre + stamped(values@.subrange(0, 0), now) + post);
        let mut k: usize = 0;
        while k < values.len()
            invariant
                orig.wf(),
                splits_at(orig@, start as int, now),
                pre == orig@.subrange(0, start as int),
                post == orig@.subrange(start as int, orig@.len() as int),
                k <= values@.len(),
                ts.wf(),
                ts.spec_name() == orig.spec_name(),
                ts.spec_retention() == orig.spec_retention(),
                ts.spec_ctime() == orig.spec_ctime(),
                ts@ == pre + stamped(values@.subrange(0, k as int), now) + post,
            decreases values@.len() - k,
        {
            let ghost before = ts@;
            let ghost run = stamped(values@.subrange(0, k as int), now);
            let rec = Record::at(now, values[k]);
            assert(splits_at(before, start + k, now)) by {
                assert forall|j: int| 0 <= j < start + k implies before[j].timestamp <= now by {
                    if j < start {
                        assert(before[j] == orig@[j]);
                    } else {
                        assert(before[j] == run[j - start]);
                    }
                }
                assert forall|j: int| start + k <= j < before.len() implies before[j].timestamp > now by {
                    assert(before[j] == orig@[j - k]);
                }
            }
            ts.add_point(rec);
            proof {
                let j = choose|j: int| splits_at(before, j, now) && ts@ == before.insert(j, rec);
                lemma_split_unique(before, now, j, start + k);
                assert(values@.subrange(0, k + 1) =~= values@.subrange(0, k as int).push(values@[k as int]));
                assert(ts@ =~= pre + stamped(values@.subrange(0, k + 1), now) + post);
            }
            k += 1;
        }
        assert(values@.subrange(0, values@.len() as int) =~= values@);
        assert(inserted_run(orig, ts, now, stamped(values@, now)));
        self.series.insert(i, ts);
        assert forall|j: int| 0 <= j < self@.len() implies (#[trigger] self@[j]).wf() by {
            if j != i {
                assert(self@[j] == old(self)@[j]);
            }
        }
        assert forall|a: int, b: int|
            0 <= a < self@.len() && 0 <= b < self@.len() && a != b implies (#[trigger] self@[a]).spec_name()
                != (#[trigger] self@[b]).spec_name() by {
            assert(self@[a].spec_name() == old(self)@[a].spec_name());
            assert(self@[b].spec_name() == old(self)@[b].spec_name());
        }
        Ok(())
    }
    /// Drops the records stamped before `cutoff` from the series named
    /// `name`, for a retention policy to call; fails, changing nothing,
    /// when there is no such series.
    pub fn drop_before(&mut self, name: &String, cutoff: u128) -> (r: Result<(), StorageError>)
        requires
            old(self).wf(),
        ensures
            final(self).wf(),
            !holds(old(self)@, name@) ==> r == Err::<(), StorageError>(StorageError::NotFound)
                && final(self)@ == old(self)@,
            holds(old(self)@, name@) ==> r is Ok,
            final(self)@.len() == old(self)@.len(),
            forall|j: int|
                0 <= j < old(self)@.len() && (#[trigger] old(self)@[j]).spec_name() != name@
                    ==> final(self)@[j] == old(self)@[j],
            forall|j: int|
                0 <= j < old(self)@.len() && (#[trigger] old(self)@[j]).spec_name() == name@
                    ==> final(self)@[j]@ == old(self)@[j]@.filter(|x: Record| x.timestamp >= cutoff),
    {
        let pos = self.find(name);
        if pos.is_none() {
            return Err(StorageError::NotFound);
        }
        let i = pos.unwrap();
        let mut ts = self.series.remove(i);
        let ghost before = ts@;
        ts.drop_before(cutoff);
        proof {
            let k = choose|k: int|
                0 <= k <= before.len() && (forall|j: int| 0 <= j < k ==> before[j].timestamp < cutoff)
                    && (forall|j: int| k <= j < before.len() ==> before[j].timestamp >= cutoff)
                    && ts@ == before.subrange(k, before.len() as int);
            lemma_filter_suffix(before, cutoff, k);
        }
        self.series.insert(i, ts);
        assert forall|j: int| 0 <= j < self@.len() implies (#[trigger] self@[j]).wf() by {
            if j != i {
                assert(self@[j] == old(self)@[j]);
            }
        }
        assert forall|a: int, b: int|
            0 <= a < self@.len() && 0 <= b < self@.len() && a != b implies (#[trigger] self@[a]).spec_name()
                != (#[trigger] self@[b]).spec_name() by {
            assert(self@[a].spec_name() == old(self)@[a].spec_name());
            assert(self@[b].spec_name() == old(self)@[b].spec_name());
        }
        proof {
            assert forall|j: int| 0 <= j < old(self)@.len() && (#[trigger] old(self)@[j]).spec_name() == name@ implies j == i by {
                if j != i {
                    assert(old(self)@[j].spec_name() != old(self)@[i as int].spec_name());
                }
            }
        }
        Ok(())
    }

    /// Answers a query on the series named `name`.
    pub fn query(&self, name: &String, q: Query) -> (r: Reply)
        requires
            self.wf(),
        ensures
            !holds(self@, name@) ==> r == Reply::Failed(StorageError::NotFound),
            forall|i: int|
                0 <= i < self@.len() && (#[trigger] self@[i]).spec_name() == name@ ==> query_answer(
                    self@[i]@,
                    q,
                    r,
                ),
    {
        let pos = self.find(name);
        if pos.is_none() {
            return Reply::Failed(StorageError::NotFound);
        }
        let i = pos.unwrap();
        let ts = &self.series[i];
        proof {
            assert forall|j: int| 0 <= j < self@.len() && (#[trigger] self@[j]).spec_name() == name@ implies j
                == i by {
                if j != i {
                    assert(self@[j].spec_name() != self@[i as int].spec_name());
                }
            }
        }
        let r = match q {
            Query::Windowed { interval } => {
                if interval == 0 {
                    return Reply::Failed(StorageError::ZeroInterval);
                }
                match ts.window_bounds(interval) {
                    None => Reply::Failed(StorageError::EmptyAggregate),
                    Some(w) => {
                        proof {
                            reveal(windows_upto);
                        }
                        let mut groups: Vec<Vec<u64>> = Vec::new();
                        let mut k: usize = 0;
                        while k < w.len()
                            invariant
                                ts.wf(),
                                k <= w@.len(),
                                windows_upto(ts@, interval, w@, ts@.len() as int),
                                forall|j: int| #![trigger w@[j]] 0 <= j < w@.len() ==> w@[j].0 <= w@[j].1 <= ts@.len(),
                                window_values(ts@, w@.subrange(0, k as int), groups@),
                            decreases w@.len() - k,
                        {
                            let (start, end) = w[k];
                            let vals = ts.values_in(start, end);
                            groups.push(vals);
                            k += 1;
                            assert forall|j: int| 0 <= j < k implies (#[trigger] groups@[j])@ == values_of(
                                ts@.subrange(w@.subrange(0, k as int)[j].0 as int, w@.subrange(0, k as int)[j].1 as int),
                            ) by {
                                if j < k - 1 {
                                    assert(w@.subrange(0, k - 1)[j] == w@.subrange(0, k as int)[j]);
                                }
                            }
                        }
                        assert(w@.subrange(0, w@.len() as int) =~= w@);
                        assert(windows_upto(ts@, interval, w@, ts@.len() as int) && window_values(ts@, w@, groups@));
                        let ghost gv = groups@;
                        let r = Reply::Windows(groups);
                        assert(r matches Reply::Windows(g) && g@ == gv);
                        assert(exists|x: Seq<(usize, usize)>| windows_upto(ts@, interval, x, ts@.len() as int) && window_values(ts@, x, gv));
                        assert(query_answer(ts@, q, r));
                        r
                    },
                }
            },
            Query::Range { lo, hi } => match ts.range(lo, hi) {
                None => Reply::Failed(StorageError::EmptyAggregate),
                Some(v) => {
                    let r = Reply::Records(v);
                    assert(query_answer(ts@, q, r));
                    r
                },
            },
            _ => {
                let n = ts.len();
                if n == 0 {
                    return Reply::Failed(StorageError::EmptyAggregate);
                }
                let values = ts.values_in(0, n);
                assert(ts@.subrange(0, n as int) =~= ts@);
                let r = Reply::Aggregate { query: q, values };
                assert(query_answer(ts@, q, r));
                r
            },
        };
        assert(query_answer(ts@, q, r));
        r
    }

    /// Carries out a command received at time `now`.
    pub fn execute(&mut self, cmd: Command, now: u128) -> (r: Reply)
        requires
            old(self).wf(),
        ensures
            final(self).wf(),
            match cmd@ {
                CommandView::Create { name, retention } => if holds(old(self)@, name) {
                    r == Reply::Failed(StorageError::AlreadyExists) && final(self)@ == old(self)@
                } else {
                    r == Reply::Done && created(old(self)@, final(self)@, name, Some(retention as i64), now)
                },
                CommandView::Delete { name } => if holds(old(self)@, name) {
                    r == Reply::Done && deleted(old(self)@, final(self)@, name)
                } else {
                    r == Reply::Failed(StorageError::NotFound) && final(self)@ == old(self)@
                },
                CommandView::AddPoint { name, value } => if holds(old(self)@, name) {
                    r == Reply::Done && appended(old(self)@, final(self)@, name, seq![value], now)
                } else {
                    r == Reply::Failed(StorageError::NotFound) && final(self)@ == old(self)@
                },
                CommandView::MultiAddPoint { name, values } => if holds(old(self)@, name) {
                    r == Reply::Done && appended(old(self)@, final(self)@, name, values, now)
                } else {
                    r == Reply::Failed(StorageError::NotFound) && final(self)@ == old(self)@
                },
                CommandView::Query { name, query } => final(self)@ == old(self)@ && (!holds(
                    old(self)@,
                    name,
                ) ==> r == Reply::Failed(StorageError::NotFound)) && forall|i: int|
                    0 <= i < old(self)@.len() && (#[trigger] old(self)@[i]).spec_name() == name
                        ==> query_answer(old(self)@[i]@, query, r),
            },
    {
        match cmd {
            Command::Create { name, retention } => match self.create(name, Some(retention as i64), now) {
                Ok(()) => Reply::Done,
                Err(e) => Reply::Failed(e),
            },
            Command::Delete { name } => match self.delete(&name) {
                Ok(()) => Reply::Done,
                Err(e) => Reply::Failed(e),
            },
            Command::AddPoint { name, value } => {
                let values = vec![value];
                assert(values@ =~= seq![value]);
                match self.add_points(&name, &values, now) {
                    Ok(()) => Reply::Done,
                    Err(e) => Reply::Failed(e),
                }
            },
            Command::MultiAddPoint { name, values } => match self.add_points(&name, &values, now) {
                Ok(()) => Reply::Done,
                Err(e) => Reply::Failed(e),
            },
            Command::Query { name, query } => self.query(&name, query),
        }
    }
}

} // verus!
