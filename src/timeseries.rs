//! A front-loaded series of timestamped records, newest first.
use crate::clock::Timespec;
use std::collections::VecDeque;
use vstd::prelude::*;

verus! {

/// A record that carries the instant it happened.
pub trait WithTime {
    spec fn time_spec(&self) -> Timespec;

    fn get_time(&self) -> (r: Timespec)
        ensures
            r == self.time_spec(),
    ;
}

/// Records with a parallel series of their timestamps, newest at the front.
pub struct Timeseries<D> {
    pub data: VecDeque<D>,
    timestamps: VecDeque<Timespec>,
}

/// No timestamp is later than one before it.
pub open spec fn newest_first(ts: Seq<Timespec>) -> bool {
    forall|i: int, j: int| 0 <= i <= j < ts.len() ==> !(#[trigger] ts[i]).spec_before(#[trigger] ts[j])
}

/// How many records remain when those at the back that are older than
/// `until` are dropped, stopping at the first that is not.
pub open spec fn kept_until(ts: Seq<Timespec>, until: Timespec) -> nat
    decreases ts.len(),
{
    if ts.len() == 0 {
        0
    } else if ts.last().spec_before(until) {
        kept_until(ts.drop_last(), until)
    } else {
        ts.len()
    }
}

/// How many records at the front are newer than `after`, stopping at the
/// first that is not.
pub open spec fn newer_than(ts: Seq<Timespec>, after: Timespec) -> nat
    decreases ts.len(),
{
    if ts.len() == 0 {
        0
    } else if after.spec_before(ts[0]) {
        1 + newer_than(ts.skip(1), after)
    } else {
        0
    }
}

proof fn lemma_kept_until_le(ts: Seq<Timespec>, until: Timespec)
    ensures
        kept_until(ts, until) <= ts.len(),
    decreases ts.len(),
{
    if ts.len() > 0 {
        lemma_kept_until_le(ts.drop_last(), until);
    }
}

pub proof fn lemma_newer_than_le(ts: Seq<Timespec>, after: Timespec)
    ensures
        newer_than(ts, after) <= ts.len(),
    decreases ts.len(),
{
    if ts.len() > 0 {
        lemma_newer_than_le(ts.skip(1), after);
    }
}

impl<D: WithTime> Timeseries<D> {
    /// The records, newest first.
    pub closed spec fn records(&self) -> Seq<D> {
        self.data@
    }

    pub closed spec fn timestamps_spec(&self) -> Seq<Timespec> {
        self.timestamps@
    }

    /// A series holds one timestamp per record, that record's own, newest first.
    pub proof fn lemma_timestamps_len(&self)
        requires
            self.wf(),
        ensures
            self.timestamps_spec().len() == self.records().len(),
            forall|i: int|
                0 <= i < self.records().len() ==> #[trigger] self.timestamps_spec()[i]
                    == self.records()[i].time_spec(),
            newest_first(self.timestamps_spec()),
    {
    }

    /// The two series have one timestamp per record, that record's own,
    /// and the timestamps never grow from front to back.
    pub closed spec fn wf(&self) -> bool {
        &&& self.data@.len() == self.timestamps@.len()
        &&& forall|i: int|
            0 <= i < self.data@.len() ==> #[trigger] self.timestamps@[i]
                == self.data@[i].time_spec()
        &&& newest_first(self.timestamps@)
    }

    /// The timestamp of the newest record, if any.
    pub fn newest(&self) -> (r: Option<Timespec>)
        requires
            self.wf(),
        ensures
            match r {
                Some(t) => self.records().len() > 0 && t == self.timestamps_spec()[0],
                None => self.records().len() == 0,
            },
    {
        if self.timestamps.len() > 0 {
            Some(self.timestamps[0])
        } else {
            None
        }
    }

    pub fn new() -> (r: Self)
        ensures
            r.wf(),
            r.records() == Seq::<D>::empty(),
    {
        Timeseries { data: VecDeque::new(), timestamps: VecDeque::new() }
    }

    /// The number of timestamps, always that of the records.
    pub fn timestamps_len(&self) -> (r: usize)
        requires
            self.wf(),
        ensures
            r == self.records().len(),
    {
        self.timestamps.len()
    }

    /// Puts a record at the front.
    pub fn add(&mut self, rec: D)
        requires
            old(self).wf(),
            old(self).records().len() > 0 ==> !rec.time_spec().spec_before(
                old(self).timestamps_spec()[0],
            ),
        ensures
            final(self).wf(),
            final(self).records() == seq![rec] + old(self).records(),
            final(self).timestamps_spec() == seq![rec.time_spec()] + old(self).timestamps_spec(),
    {
        let timestamp = rec.get_time();
        self.data.push_front(rec);
        self.timestamps.push_front(timestamp);
        proof {
            assert forall|i: int| 0 <= i < self.data@.len() implies #[trigger] self.timestamps@[i]
                == self.data@[i].time_spec() by {
                if i > 0 {
                    assert(self.timestamps@[i] == old(self).timestamps@[i - 1]);
                    assert(self.data@[i] == old(self).data@[i - 1]);
                }
            }
        }
    }

    /// Drops the records at the back that are older than `until`, up to the
    /// first that is not.
    pub fn drain_until(&mut self, until: Timespec)
        requires
            old(self).wf(),
        ensures
            final(self).wf(),
            final(self).records() == old(self).records().take(
                kept_until(old(self).timestamps_spec(), until) as int,
            ),
            final(self).timestamps_spec() == old(self).timestamps_spec().take(
                kept_until(old(self).timestamps_spec(), until) as int,
            ),
    {
        let ghost ts0 = self.timestamps@;
        let ghost d0 = self.data@;
        proof {
            lemma_kept_until_le(ts0, until);
        }
        let mut done = false;
        while !done && self.timestamps.len() > 0
            invariant
                self.wf(),
                self.timestamps@ == ts0.take(self.timestamps@.len() as int),
                self.data@ == d0.take(self.data@.len() as int),
                self.timestamps@.len() <= ts0.len(),
                d0.len() == ts0.len(),
                kept_until(self.timestamps@, until) == kept_until(ts0, until),
                done ==> self.timestamps@.len() > 0 && !self.timestamps@.last().spec_before(until),
            decreases self.timestamps@.len() + if done { 0int } else { 1int },
        {
            let n = self.timestamps.len();
            let last = self.timestamps[n - 1];
            if !last.before(until) {
                done = true;
            } else {
                let ghost ts = self.timestamps@;
                self.timestamps.pop_back();
                self.data.pop_back();
                proof {
                    assert(ts.drop_last() =~= self.timestamps@);
                    assert(self.timestamps@ =~= ts0.take(self.timestamps@.len() as int));
                    assert(self.data@ =~= d0.take(self.data@.len() as int));
                    assert forall|i: int| 0 <= i < self.data@.len() implies #[trigger] self.timestamps@[i]
                        == self.data@[i].time_spec() by {
                        assert(self.timestamps@[i] == ts[i]);
                    }
                }
            }
        }
    }

    /// The records at the front that are newer than `after`, up to the
    /// first that is not.
    pub fn vec_after(&self, after: Timespec) -> (r: Vec<&D>)
        requires
            self.wf(),
        ensures
            r@.len() == newer_than(self.timestamps_spec(), after),
            forall|i: int| 0 <= i < r@.len() ==> *#[trigger] r@[i] == self.records()[i],
    {
        let mut items: Vec<&D> = Vec::new();
        let n = self.timestamps.len();
        let mut i: usize = 0;
        let ghost ts = self.timestamps@;
        proof {
            lemma_newer_than_le(ts, after);
        }
        assert(ts.skip(0) =~= ts);
        let mut done = false;
        while !done && i < n
            invariant
                self.wf(),
                n == ts.len(),
                ts == self.timestamps@,
                i <= n,
                items@.len() == i,
                forall|j: int| 0 <= j < i ==> *#[trigger] items@[j] == self.data@[j],
                newer_than(ts, after) == i + newer_than(ts.skip(i as int), after),
                done ==> i < n && !after.spec_before(ts[i as int]),
            decreases n - i + if done { 0int } else { 1int },
        {
            let t = self.timestamps[i];
            if !after.before(t) {
                done = true;
            } else {
                items.push(&self.data[i]);
                proof {
                    assert(ts.skip(i as int)[0] == t);
                    assert(ts.skip(i as int).skip(1) =~= ts.skip(i as int + 1));
                }
                i = i + 1;
            }
        }
        proof {
            if i < n {
                assert(ts.skip(i as int)[0] == ts[i as int]);
            }
            assert(newer_than(ts.skip(i as int), after) == 0);
        }
        items
    }
}

} // verus!
