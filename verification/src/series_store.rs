//! Series in the store: which buckets a series is written to, how a stored
//! bucket takes up new points, and how buckets read newest first are put
//! together again.

use vstd::prelude::*;
use crate::calendar::MAX_TIMESTAMP;
use crate::clock::unix_now;
use crate::db::{DatabaseError, DB, MAX_FUTURE_SECONDS};
use crate::keys::{bucket_key, key_lt, key_starts_with, lemma_key_names_hour, lex_lt, starts_with, to_bucket_key};
use crate::metric::{encoded, lemma_binary_round_trip, storable, MetricTimeSeries, MetricValue, TimeseriesSerializationError};
use crate::models::TenantId;
use crate::timeseries::{ascending, hour_index, joined, map_of, within, TimeSeries};

verus! {

/// One entry of the store: a key and the value stored under it.
pub type Entry = (Vec<u8>, Vec<u8>);

/// The series that bytes are the binary form of, if they are the binary form
/// of one.
pub open spec fn decoded(data: Seq<u8>) -> Option<Seq<(u64, MetricValue)>> {
    if exists|pts: Seq<(u64, MetricValue)>| storable(pts) && #[trigger] encoded(pts) == data {
        Some(choose|pts: Seq<(u64, MetricValue)>| storable(pts) && #[trigger] encoded(pts) == data)
    } else {
        None
    }
}

/// The binary form of a series decodes to that series.
pub proof fn lemma_decoded(pts: Seq<(u64, MetricValue)>)
    requires
        storable(pts),
    ensures
        decoded(encoded(pts)) == Some(pts),
{
    let c = choose|c: Seq<(u64, MetricValue)>| storable(c) && #[trigger] encoded(c) == encoded(pts);
    lemma_binary_round_trip(c, pts);
}

/// Reads a stored bucket.
pub fn read_bucket(data: &[u8]) -> (r: Option<MetricTimeSeries>)
    ensures
        match r {
            Some(s) => s.wf() && decoded(data@) == Some(s.points()),
            None => decoded(data@) is None,
        },
{
    match MetricTimeSeries::from_binary(data) {
        Ok(s) => {
            proof {
                lemma_decoded(s.points());
            }
            Some(s)
        },
        Err(_) => None,
    }
}

/// The series of the buckets of a list of writes.
pub open spec fn parts_of(writes: Seq<(Vec<u8>, MetricTimeSeries)>) -> Seq<MetricTimeSeries> {
    Seq::new(writes.len(), |i: int| writes[i].1)
}

/// Whether every timestamp of a series has a key.
pub open spec fn all_have_keys(pts: Seq<(u64, MetricValue)>) -> bool {
    forall|i: int| 0 <= i < pts.len() ==> (#[trigger] pts[i]).0 <= MAX_TIMESTAMP
}

/// The error for a timestamp beyond the last one that has a key.
pub fn no_key_error() -> (r: DatabaseError)
    ensures
        r matches DatabaseError::InvalidKeyError(message) && message@ == "timestamp out of range"@,
{
    DatabaseError::InvalidKeyError("timestamp out of range".to_owned())
}

impl DB {
    /// What to write for a series: one bucket per hour that holds a point,
    /// each under the key of the series for that hour. A series with a
    /// timestamp that has no key is refused.
    pub fn _put_timeseries(key: &[u8], ts: &MetricTimeSeries) -> (r: Result<
        Vec<(Vec<u8>, MetricTimeSeries)>,
        DatabaseError,
    >)
        requires
            ts.wf(),
        ensures
            match r {
                Ok(writes) => {
                    &&& all_have_keys(ts.points())
                    &&& joined(parts_of(writes@), writes@.len()) == ts.points()
                    &&& forall|k: int|
                        0 <= k < writes@.len() ==> {
                            &&& (#[trigger] writes@[k]).1.wf()
                            &&& writes@[k].1.points().len() > 0
                            &&& writes@[k].0@ == bucket_key(key@, writes@[k].1.points()[0].0)
                            &&& forall|i: int|
                                0 <= i < writes@[k].1.points().len() ==> hour_index(
                                    (#[trigger] writes@[k].1.points()[i]).0,
                                ) == hour_index(writes@[k].1.points()[0].0)
                        }
                    &&& forall|a: int, b: int|
                        0 <= a < b < writes@.len() ==> (#[trigger] writes@[a]).0@ != (
                        #[trigger] writes@[b]).0@
                },
                Err(e) => e is InvalidKeyError && !all_have_keys(ts.points()),
            },
    {
        let n = ts.timestamps.len();
        if n > 0 && ts.timestamps[n - 1] > MAX_TIMESTAMP {
            assert(ts.points()[n - 1].0 > MAX_TIMESTAMP);
            return Err(no_key_error());
        }
        proof {
            assert forall|i: int| 0 <= i < ts.points().len() implies (#[trigger] ts.points()[i]).0
                <= MAX_TIMESTAMP by {
                if i < n - 1 {
                    assert(ts.points()[i].0 < ts.points()[n - 1].0);
                }
            }
        }
        let mut buckets = ts.buckets();
        let ghost all = buckets@;
        let total = buckets.len();
        let mut writes: Vec<(Vec<u8>, MetricTimeSeries)> = Vec::new();
        proof {
            lemma_joined_holds(all, all.len(), ts.points());
        }
        // the buckets are taken from the back and put in front
        while buckets.len() > 0
            invariant
                all_have_keys(ts.points()),
                buckets@.len() + writes@.len() == all.len(),
                buckets@ == all.take(buckets@.len() as int),
                forall|k: int|
                    0 <= k < all.len() ==> {
                        &&& (#[trigger] all[k]).wf()
                        &&& all[k].points().len() > 0
                        &&& all[k].points()[0].0 <= MAX_TIMESTAMP
                    },
                forall|k: int|
                    0 <= k < writes@.len() ==> (#[trigger] writes@[k]).1 == all[buckets@.len() + k]
                        && writes@[k].0@ == bucket_key(key@, writes@[k].1.points()[0].0),
            decreases buckets@.len(),
        {
            let ghost before = writes@;
            let bucket = buckets.pop().unwrap();
            assert(bucket == all[buckets@.len() as int]);
            let first = bucket.timestamps[0];
            assert(first == bucket.points()[0].0);
            let full_key = to_bucket_key(key, first);
            writes.insert(0, (full_key, bucket));
            assert forall|k: int| 0 <= k < writes@.len() implies (#[trigger] writes@[k]).1
                == all[buckets@.len() + k] && writes@[k].0@ == bucket_key(
                key@,
                writes@[k].1.points()[0].0,
            ) by {
                if k > 0 {
                    assert(writes@[k] == before[k - 1]);
                }
            }
        }
        proof {
            assert(parts_of(writes@) =~= all);
            assert forall|a: int, b: int| 0 <= a < b < writes@.len() implies (#[trigger] writes@[a]).0@
                != (#[trigger] writes@[b]).0@ by {
                let ta = all[a].points()[0].0;
                let tb = all[b].points()[0].0;
                lemma_hours_grow(all, a, b);
                lemma_bucket_keys_differ(key@, ta, tb);
            }
        }
        Ok(writes)
    }

    /// What to write for one value of a metric of a device, measured at
    /// time `now`: a series of one point, in the bucket of its hour.
    pub fn put_metric_at(
        tenant_id: &TenantId,
        device_id: &str,
        metric_name: &str,
        value: MetricValue,
        now: u64,
    ) -> (r: Result<Vec<(Vec<u8>, MetricTimeSeries)>, DatabaseError>)
        ensures
            match r {
                Ok(writes) => {
                    &&& now <= MAX_TIMESTAMP
                    &&& writes@.len() == 1
                    &&& writes@[0].0@ == bucket_key(
                        crate::db::metric_key(tenant_id@, device_id@, metric_name@),
                        now,
                    )
                    &&& writes@[0].1.points() == seq![(now, value)]
                },
                Err(e) => e is InvalidKeyError && now > MAX_TIMESTAMP,
            },
    {
        let key = DB::_to_metric_key(tenant_id, device_id, metric_name);
        let series = value.as_timeseries(now);
        assert(series.points()[0] == (now, value));
        let r = DB::_put_timeseries(key.as_slice(), &series);
        proof {
            if r is Ok {
                let writes = r->Ok_0;
                let parts = parts_of(writes@);
                lemma_single_point(parts, writes@.len(), (now, value));
                assert(parts[0] == writes@[0].1);
            }
        }
        r
    }
}

impl DB {
    /// What to write for one value of a metric of a device, measured now.
    /// Whatever the clock returned, the outcome is that of
    /// [`DB::put_metric_at`] for some time.
    pub fn put_metric(tenant_id: &TenantId, device_id: &str, metric_name: &str, value: MetricValue) -> (r:
        Result<Vec<(Vec<u8>, MetricTimeSeries)>, DatabaseError>)
        ensures
            match r {
                Ok(writes) => exists|now: u64|
                    {
                        &&& now <= MAX_TIMESTAMP
                        &&& writes@.len() == 1
                        &&& writes@[0].0@ == #[trigger] bucket_key(
                            crate::db::metric_key(tenant_id@, device_id@, metric_name@),
                            now,
                        )
                        &&& writes@[0].1.points() == seq![(now, value)]
                    },
                Err(e) => e is InvalidKeyError,
            },
    {
        let now = unix_now();
        let r = DB::put_metric_at(tenant_id, device_id, metric_name, value, now);
        proof {
            if r is Ok {
                assert(r->Ok_0@[0].0@ == bucket_key(
                    crate::db::metric_key(tenant_id@, device_id@, metric_name@),
                    now,
                ));
            }
        }
        r
    }
}

/// Buckets of different hours have different keys.
pub proof fn lemma_bucket_keys_differ(base: Seq<u8>, ta: u64, tb: u64)
    requires
        ta <= MAX_TIMESTAMP,
        tb <= MAX_TIMESTAMP,
        hour_index(ta) != hour_index(tb),
    ensures
        bucket_key(base, ta) != bucket_key(base, tb),
{
    if bucket_key(base, ta) == bucket_key(base, tb) {
        crate::keys::lemma_key_fields(ta);
        crate::keys::lemma_key_fields(tb);
        assert(crate::keys::key_bytes(ta) =~= bucket_key(base, ta).skip((base.len() + 1) as int));
        assert(crate::keys::key_bytes(tb) =~= bucket_key(base, tb).skip((base.len() + 1) as int));
        lemma_key_names_hour(ta, tb);
    }
}

proof fn lemma_single_point(parts: Seq<MetricTimeSeries>, n: nat, p: (u64, MetricValue))
    requires
        n == parts.len(),
        joined(parts, n) == seq![p],
        forall|k: int| 0 <= k < parts.len() ==> (#[trigger] parts[k]).points().len() > 0,
    ensures
        n == 1,
        parts[0].points() == seq![p],
{
    if n == 0 {
        assert(joined(parts, 0).len() == 0);
    } else {
        lemma_joined_len(parts, (n - 1) as nat);
        assert(joined(parts, n) == joined(parts, (n - 1) as nat) + parts[n - 1].points());
        if n > 1 {
            assert(parts[0].points().len() > 0);
            assert(parts[n - 1].points().len() > 0);
        }
        assert(joined(parts, 0) =~= Seq::empty());
        assert(parts[0].points() =~= seq![p]);
    }
}

proof fn lemma_joined_len(parts: Seq<MetricTimeSeries>, n: nat)
    requires
        n <= parts.len(),
        forall|k: int| 0 <= k < parts.len() ==> (#[trigger] parts[k]).points().len() > 0,
    ensures
        joined(parts, n).len() >= n,
    decreases n,
{
    if n > 0 {
        lemma_joined_len(parts, (n - 1) as nat);
        assert(parts[n - 1].points().len() > 0);
    }
}

/// The points of the buckets of a series with keys have keys.
proof fn lemma_joined_holds(parts: Seq<MetricTimeSeries>, n: nat, pts: Seq<(u64, MetricValue)>)
    requires
        n <= parts.len(),
        all_have_keys(pts),
        joined(parts, n).len() <= pts.len(),
        forall|i: int| 0 <= i < joined(parts, n).len() ==> joined(parts, n)[i] == pts[i],
    ensures
        forall|k: int, i: int|
            0 <= k < n && 0 <= i < parts[k].points().len() ==> (#[trigger] parts[k].points()[i]).0
                <= MAX_TIMESTAMP,
    decreases n,
{
    if n > 0 {
        let pre = joined(parts, (n - 1) as nat);
        let last = parts[n - 1].points();
        assert(joined(parts, n) == pre + last);
        assert forall|i: int| 0 <= i < pre.len() implies pre[i] == pts[i] by {
            assert((pre + last)[i] == pre[i]);
        }
        lemma_joined_holds(parts, (n - 1) as nat, pts);
        assert forall|i: int| 0 <= i < last.len() implies (#[trigger] last[i]).0
            <= MAX_TIMESTAMP by {
            assert((pre + last)[pre.len() + i] == last[i]);
            assert(pts[pre.len() + i].0 <= MAX_TIMESTAMP);
        }
    }
}

/// The hours of the buckets of a series grow.
proof fn lemma_hours_grow(parts: Seq<MetricTimeSeries>, a: int, b: int)
    requires
        0 <= a < b < parts.len(),
        forall|k: int|
            0 <= k < parts.len() - 1 ==> hour_index((#[trigger] parts[k]).points()[0].0)
                < hour_index(parts[k + 1].points()[0].0),
    ensures
        hour_index(parts[a].points()[0].0) < hour_index(parts[b].points()[0].0),
    decreases b - a,
{
    if a + 1 < b {
        lemma_hours_grow(parts, a, b - 1);
        assert(hour_index(parts[b - 1].points()[0].0) < hour_index(parts[b].points()[0].0));
    } else {
        assert(hour_index(parts[a].points()[0].0) < hour_index(parts[a + 1].points()[0].0));
    }
}

/// What a stored bucket holds: the points of its binary form, or nothing
/// when there is no bucket yet; `None` when the bytes are no binary form.
pub open spec fn stored_points(existing: Option<Seq<u8>>) -> Option<Seq<(u64, MetricValue)>> {
    match existing {
        Some(data) => decoded(data),
        None => Some(Seq::empty()),
    }
}

/// The bytes of a bucket after it has taken up the points `new`: the binary
/// form of what the bucket held with the points of `new` added, those of
/// `new` winning at timestamps that both hold. `None` when the stored bytes
/// are not a bucket or the result cannot be stored.
pub open spec fn bucket_after(existing: Option<Seq<u8>>, new: Map<u64, MetricValue>) -> Option<
    Seq<u8>,
> {
    match stored_points(existing) {
        Some(old) => {
            let all = map_of(old).union_prefer_right(new);
            let merged = points_of(all);
            if storable(merged) && map_of(merged) == all {
                Some(encoded(merged))
            } else {
                None
            }
        },
        None => None,
    }
}

/// The new value of a bucket that takes up the points of `new`: what the
/// bucket held, with the points of `new` added and winning over points at
/// the same timestamps.
///
/// Fails when the stored bytes are not a bucket, and when the result cannot
/// be stored because it mixes kinds of values or has too many points.
pub fn merge_bucket(existing: Option<&[u8]>, new: &MetricTimeSeries) -> (r: Result<
    Vec<u8>,
    DatabaseError,
>)
    requires
        new.wf(),
    ensures
        match bucket_after(
            match existing {
                Some(d) => Some(d@),
                None => None,
            },
            new@,
        ) {
            Some(bytes) => r matches Ok(written) && written@ == bytes,
            None => r is Err,
        },
        match r {
            Ok(bytes) => {
                &&& stored_points(
                    match existing {
                        Some(d) => Some(d@),
                        None => None,
                    },
                ) matches Some(old)
                &&& decoded(bytes@) matches Some(merged)
                &&& map_of(merged) == map_of(old).union_prefer_right(new@)
            },
            Err(e) => match stored_points(
                match existing {
                    Some(d) => Some(d@),
                    None => None,
                },
            ) {
                None => e matches DatabaseError::TimeseriesSerializationError(
                    TimeseriesSerializationError::InvalidData,
                ),
                Some(old) => {
                    &&& e matches DatabaseError::TimeseriesSerializationError(inner) && (inner
                        == TimeseriesSerializationError::MixedValueKinds || inner
                        == TimeseriesSerializationError::TooManyPoints)
                    &&& forall|pts: Seq<(u64, MetricValue)>|
                        ascending(pts) && #[trigger] map_of(pts) == map_of(old).union_prefer_right(
                            new@,
                        ) ==> !storable(pts)
                },
            },
        },
{
    let mut series = match existing {
        Some(data) => match read_bucket(data) {
            Some(s) => s,
            None => {
                return Err(
                    DatabaseError::TimeseriesSerializationError(
                        TimeseriesSerializationError::InvalidData,
                    ),
                );
            },
        },
        None => TimeSeries::new(),
    };
    let ghost old = series.points();
    series.merge(new);
    proof {
        lemma_points_of(&series);
    }
    match series.to_binary() {
        Ok(bytes) => {
            proof {
                lemma_decoded(series.points());
            }
            Ok(bytes)
        },
        Err(e) => {
            proof {
                assert forall|pts: Seq<(u64, MetricValue)>|
                    ascending(pts) && #[trigger] map_of(pts) == map_of(old).union_prefer_right(
                        new@,
                    ) implies !storable(pts) by {
                    crate::timeseries::lemma_map_of_injective(pts, series.points());
                }
            }
            Err(DatabaseError::TimeseriesSerializationError(e))
        },
    }
}

/// The points of the first `n` entries read, merged in the order read; `None`
/// when one of them is not a bucket.
pub open spec fn merged_upto(entries: Seq<Entry>, n: nat) -> Option<Map<u64, MetricValue>>
    decreases n,
{
    if n == 0 || n > entries.len() {
        Some(Map::empty())
    } else {
        match (merged_upto(entries, (n - 1) as nat), decoded(entries[n - 1].1@)) {
            (Some(m), Some(pts)) => Some(m.union_prefer_right(map_of(pts))),
            _ => None,
        }
    }
}

/// Whether `s` is where a range read stops: the first entry whose key sorts
/// after `min_key`, or the end of the entries.
pub open spec fn range_stop(entries: Seq<Entry>, min_key: Seq<u8>, s: nat) -> bool {
    &&& s <= entries.len()
    &&& forall|i: int| 0 <= i < s ==> !lex_lt(min_key, (#[trigger] entries[i]).0@)
    &&& s < entries.len() ==> lex_lt(min_key, entries[s as int].0@)
}

/// A read of the points of a series between two timestamps, fed with the
/// entries that a forward iterator yields from the seek key on.
pub struct RangeScan {
    pub min_key: Vec<u8>,
    pub min_ts: u64,
    pub max_ts: u64,
    pub merged: MetricTimeSeries,
}

impl RangeScan {
    /// Starts a read of `[min_ts, max_ts]` and tells where to seek: the key
    /// of the bucket of `max_ts`, which is the newest bucket that can hold a
    /// point of the range.
    pub fn start(key: &[u8], min_ts: u64, max_ts: u64) -> (r: (RangeScan, Vec<u8>))
        requires
            min_ts <= MAX_TIMESTAMP,
            max_ts <= MAX_TIMESTAMP,
        ensures
            r.0.min_key@ == bucket_key(key@, min_ts),
            r.0.min_ts == min_ts,
            r.0.max_ts == max_ts,
            r.0.merged.wf(),
            r.0.merged@ == Map::<u64, MetricValue>::empty(),
            r.1@ == bucket_key(key@, max_ts),
    {
        let scan = RangeScan {
            min_key: to_bucket_key(key, min_ts),
            min_ts,
            max_ts,
            merged: TimeSeries::new(),
        };
        (scan, to_bucket_key(key, max_ts))
    }

    /// Takes the next entry. An entry whose key sorts after the key of the
    /// oldest bucket of the range ends the read (`Ok(false)`); any other entry
    /// is merged into what was read so far (`Ok(true)`), unless its value is
    /// not a bucket.
    pub fn accept(&mut self, key: &[u8], value: &[u8]) -> (r: Result<bool, DatabaseError>)
        requires
            old(self).merged.wf(),
        ensures
            final(self).merged.wf(),
            final(self).min_key == old(self).min_key,
            final(self).min_ts == old(self).min_ts,
            final(self).max_ts == old(self).max_ts,
            match r {
                Ok(true) => {
                    &&& !lex_lt(old(self).min_key@, key@)
                    &&& decoded(value@) matches Some(pts)
                    &&& final(self).merged@ == old(self).merged@.union_prefer_right(map_of(pts))
                },
                Ok(false) => lex_lt(old(self).min_key@, key@) && final(self).merged == old(
                    self,
                ).merged,
                Err(e) => {
                    &&& !lex_lt(old(self).min_key@, key@)
                    &&& decoded(value@) is None
                    &&& final(self).merged == old(self).merged
                    &&& e matches DatabaseError::TimeseriesSerializationError(
                        TimeseriesSerializationError::InvalidData,
                    )
                },
            },
    {
        if key_lt(self.min_key.as_slice(), key) {
            return Ok(false);
        }
        match read_bucket(value) {
            Some(bucket) => {
                self.merged.merge(&bucket);
                Ok(true)
            },
            None => Err(
                DatabaseError::TimeseriesSerializationError(
                    TimeseriesSerializationError::InvalidData,
                ),
            ),
        }
    }

    /// Ends the read: what was merged, cut to the range.
    pub fn finish(self) -> (r: MetricTimeSeries)
        requires
            self.merged.wf(),
        ensures
            r.wf(),
            r@ == self.merged@.restrict(Set::new(|ts: u64| self.min_ts <= ts <= self.max_ts)),
            r.points() == within(self.merged.points(), self.min_ts, self.max_ts),
    {
        let mut out = self.merged;
        out.trim(self.min_ts, self.max_ts);
        out
    }
}

/// A read of the newest points of a series, fed with the entries that a
/// forward iterator yields from the seek key on.
pub struct LastScan {
    pub prefix: Vec<u8>,
    pub limit: u64,
    pub count: u64,
    pub merged: MetricTimeSeries,
}

/// The time from which a last-N read looks back: a year after `now`, but
/// not later than the last timestamp with a key.
pub open spec fn horizon(now: u64) -> u64 {
    if now + MAX_FUTURE_SECONDS > MAX_TIMESTAMP {
        MAX_TIMESTAMP
    } else {
        (now + MAX_FUTURE_SECONDS) as u64
    }
}

impl LastScan {
    /// Starts a read of the `limit` newest points of the series under
    /// `prefix` and tells where to seek: the key of the bucket a year after
    /// `now`.
    pub fn start(prefix: &[u8], now: u64, limit: u64) -> (r: (LastScan, Vec<u8>))
        ensures
            r.0.prefix@ == prefix@,
            r.0.limit == limit,
            r.0.count == 0,
            r.0.merged.wf(),
            r.0.merged.points().len() == 0,
            r.0.merged@ == Map::<u64, MetricValue>::empty(),
            r.1@ == bucket_key(prefix@, horizon(now)),
    {
        let max_ts = if now > MAX_TIMESTAMP - MAX_FUTURE_SECONDS {
            MAX_TIMESTAMP
        } else {
            now + MAX_FUTURE_SECONDS
        };
        let mut copy: Vec<u8> = Vec::new();
        crate::db::append_bytes(&mut copy, prefix);
        assert(copy@ =~= prefix@);
        let scan = LastScan { prefix: copy, limit, count: 0, merged: TimeSeries::new() };
        (scan, to_bucket_key(prefix, max_ts))
    }

    /// Starts a read as [`LastScan::start`] does, looking back from a year
    /// after the current time. Whatever the clock returned, the seek key is
    /// that of some time.
    pub fn start_now(prefix: &[u8], limit: u64) -> (r: (LastScan, Vec<u8>))
        ensures
            r.0.prefix@ == prefix@,
            r.0.limit == limit,
            r.0.count == 0,
            r.0.merged.wf(),
            r.0.merged.points().len() == 0,
            r.0.merged@ == Map::<u64, MetricValue>::empty(),
            exists|now: u64| r.1@ == #[trigger] bucket_key(prefix@, horizon(now)),
    {
        let now = unix_now();
        let r = LastScan::start(prefix, now, limit);
        assert(r.1@ == bucket_key(prefix@, horizon(now)));
        r
    }

    /// Takes the next entry. An entry whose key does not begin with the
    /// prefix ends the read and is not merged. Any other entry is merged,
    /// unless its value is not a bucket; the count is then the number of
    /// points merged so far, and the read goes on (`Ok(true)`) while the
    /// count is below the limit.
    pub fn accept(&mut self, key: &[u8], value: &[u8]) -> (r: Result<bool, DatabaseError>)
        requires
            old(self).merged.wf(),
        ensures
            final(self).merged.wf(),
            final(self).prefix == old(self).prefix,
            final(self).limit == old(self).limit,
            if !starts_with(key@, old(self).prefix@) {
                &&& r == Ok::<bool, DatabaseError>(false)
                &&& final(self).merged == old(self).merged
                &&& final(self).count == old(self).count
            } else {
                match decoded(value@) {
                    Some(pts) => {
                        &&& final(self).merged@ == old(self).merged@.union_prefer_right(map_of(pts))
                        &&& final(self).count == final(self).merged.points().len()
                        &&& r == Ok::<bool, DatabaseError>(final(self).count < old(self).limit)
                    },
                    None => {
                        &&& r matches Err(
                            DatabaseError::TimeseriesSerializationError(
                                TimeseriesSerializationError::InvalidData,
                            ),
                        )
                        &&& final(self).merged == old(self).merged
                        &&& final(self).count == old(self).count
                    },
                }
            },
    {
        if !key_starts_with(key, self.prefix.as_slice()) {
            return Ok(false);
        }
        match read_bucket(value) {
            Some(bucket) => {
                self.merged.merge(&bucket);
                self.count = self.merged.len() as u64;
                Ok(self.count < self.limit)
            },
            None => Err(
                DatabaseError::TimeseriesSerializationError(
                    TimeseriesSerializationError::InvalidData,
                ),
            ),
        }
    }

    /// Ends the read: the `limit` newest of the points merged.
    pub fn finish(self) -> (r: MetricTimeSeries)
        requires
            self.merged.wf(),
        ensures
            r.wf(),
            r.points() == newest(self.merged.points(), self.limit),
    {
        let mut out = self.merged;
        let len = out.len();
        let n: usize = if self.limit > usize::MAX as u64 {
            usize::MAX
        } else {
            self.limit as usize
        };
        out.keep_last(n);
        out
    }
}

/// The points of a map from timestamp to value, in ascending order.
pub open spec fn points_of(m: Map<u64, MetricValue>) -> Seq<(u64, MetricValue)> {
    choose|pts: Seq<(u64, MetricValue)>| ascending(pts) && map_of(pts) == m
}

/// The points of a series are the points of its map.
pub proof fn lemma_points_of(series: &MetricTimeSeries)
    requires
        series.wf(),
    ensures
        points_of(series@) == series.points(),
{
    let pts = series.points();
    assert(ascending(pts) && map_of(pts) == series@);
    crate::timeseries::lemma_map_of_injective(points_of(series@), pts);
}

/// Whether the first `j` entries are buckets that together hold at least
/// `limit` points.
pub open spec fn enough(entries: Seq<Entry>, limit: u64, j: nat) -> bool {
    merged_upto(entries, j) matches Some(m) && points_of(m).len() >= limit
}

/// Whether `s` is where the entries under a prefix end: the first entry
/// whose key does not begin with the prefix, or the end of the entries.
pub open spec fn prefix_stop(entries: Seq<Entry>, prefix: Seq<u8>, s: nat) -> bool {
    &&& s <= entries.len()
    &&& forall|i: int| 0 <= i < s ==> starts_with((#[trigger] entries[i]).0@, prefix)
    &&& s < entries.len() ==> !starts_with(entries[s as int].0@, prefix)
}

/// Whether `k` is the number of entries that a last-N read takes: entries
/// under the prefix, up to and with the first one with which the points
/// merged reach the limit.
pub open spec fn last_stop(entries: Seq<Entry>, prefix: Seq<u8>, limit: u64, k: nat) -> bool {
    &&& k <= entries.len()
    &&& forall|i: int| 0 <= i < k ==> starts_with((#[trigger] entries[i]).0@, prefix)
    &&& forall|j: nat| 1 <= j < k ==> !#[trigger] enough(entries, limit, j)
    &&& (k == entries.len() || !starts_with(entries[k as int].0@, prefix) || (k >= 1 && enough(
        entries,
        limit,
        k,
    )))
}

/// Whether every point of `pts` is older than every point of `m`.
pub open spec fn older_than(pts: Seq<(u64, MetricValue)>, m: Map<u64, MetricValue>) -> bool {
    forall|b: int, t: u64|
        0 <= b < pts.len() && #[trigger] m.contains_key(t) ==> (#[trigger] pts[b]).0 < t
}

/// Whether the first `s` entries come newest first: each bucket holds only
/// points that are older than all points of the buckets before it.
pub open spec fn newest_first(entries: Seq<Entry>, s: nat) -> bool {
    forall|j: nat|
        j < s ==> match (#[trigger] merged_upto(entries, j), decoded(entries[j as int].1@)) {
            (Some(m), Some(pts)) => older_than(pts, m),
            _ => true,
        }
}

/// The `limit` newest points of a list.
pub open spec fn newest(pts: Seq<(u64, MetricValue)>, limit: u64) -> Seq<(u64, MetricValue)> {
    if pts.len() <= limit {
        pts
    } else {
        pts.skip(pts.len() - limit)
    }
}

impl DB {
    /// The points of a series between `min_ts` and `max_ts`, from the entries
    /// that a forward iterator yields when it is seeded at the key of the
    /// bucket of `max_ts`.
    ///
    /// The entries are merged until one sorts after the key of the bucket of
    /// `min_ts`; the result is what was merged, cut to the range. A value that
    /// is not a bucket fails the read.
    pub fn _get_timeseries(entries: &Vec<Entry>, key: &[u8], min_ts: u64, max_ts: u64) -> (r:
        Result<MetricTimeSeries, DatabaseError>)
        requires
            min_ts <= MAX_TIMESTAMP,
            max_ts <= MAX_TIMESTAMP,
        ensures
            exists|s: nat|
                {
                    &&& #[trigger] range_stop(entries@, bucket_key(key@, min_ts), s)
                    &&& match r {
                        Ok(series) => {
                            &&& series.wf()
                            &&& merged_upto(entries@, s) matches Some(m)
                            &&& series@ == m.restrict(Set::new(|ts: u64| min_ts <= ts <= max_ts))
                        },
                        Err(e) => {
                            &&& merged_upto(entries@, s) is None
                            &&& e matches DatabaseError::TimeseriesSerializationError(
                                TimeseriesSerializationError::InvalidData,
                            )
                        },
                    }
                },
    {
        let started = RangeScan::start(key, min_ts, max_ts);
        let mut scan = started.0;
        let ghost min_key = bucket_key(key@, min_ts);
        let mut i: usize = 0;
        while i < entries.len()
            invariant
                i <= entries@.len(),
                scan.merged.wf(),
                min_key == bucket_key(key@, min_ts),
                scan.min_key@ == min_key,
                scan.min_ts == min_ts,
                scan.max_ts == max_ts,
                forall|k: int| 0 <= k < i ==> !lex_lt(min_key, (#[trigger] entries@[k]).0@),
                merged_upto(entries@, i as nat) == Some(scan.merged@),
            decreases entries@.len() - i,
        {
            let ghost before = scan.merged@;
            match scan.accept(entries[i].0.as_slice(), entries[i].1.as_slice()) {
                Ok(go_on) => {
                    if !go_on {
                        let series = scan.finish();
                        proof {
                            assert(range_stop(entries@, min_key, i as nat));
                            assert(merged_upto(entries@, i as nat) == Some(before));
                            assert(series@ == before.restrict(
                                Set::new(|ts: u64| min_ts <= ts <= max_ts),
                            ));
                        }
                        return Ok(series);
                    }
                },
                Err(e) => {
                    proof {
                        assert(decoded(entries@[i as int].1@) is None);
                        assert(!lex_lt(min_key, entries@[i as int].0@));
                        lemma_merged_upto_fails(entries@, (i + 1) as nat, min_key);
                    }
                    return Err(e);
                },
            }
            i += 1;
        }
        let ghost all = scan.merged@;
        let series = scan.finish();
        proof {
            assert(range_stop(entries@, min_key, i as nat));
            assert(merged_upto(entries@, i as nat) == Some(all));
        }
        Ok(series)
    }

    /// The `limit` newest points of the series whose keys begin with
    /// `key_prefix`, from the entries that a forward iterator yields when it
    /// is seeded at the key of the bucket a year after the current time.
    ///
    /// The entries are merged while their keys begin with the prefix, until
    /// the points merged reach the limit; the result is the `limit` newest of
    /// the points merged. Where the entries come newest first, that is the
    /// `limit` newest of all points under the prefix. A value that is not a
    /// bucket fails the read.
    pub fn _get_timeseries_last(entries: &Vec<Entry>, key_prefix: &[u8], limit: u64) -> (r: Result<
        MetricTimeSeries,
        DatabaseError,
    >)
        ensures
            exists|k: nat|
                {
                    &&& #[trigger] last_stop(entries@, key_prefix@, limit, k)
                    &&& match r {
                        Ok(series) => {
                            &&& series.wf()
                            &&& merged_upto(entries@, k) matches Some(m)
                            &&& series.points() == newest(points_of(m), limit)
                        },
                        Err(e) => {
                            &&& merged_upto(entries@, k) is None
                            &&& e matches DatabaseError::TimeseriesSerializationError(
                                TimeseriesSerializationError::InvalidData,
                            )
                        },
                    }
                },
            forall|s: nat|
                #[trigger] prefix_stop(entries@, key_prefix@, s) && newest_first(entries@, s)
                    && merged_upto(entries@, s) is Some ==> {
                    &&& r matches Ok(series)
                    &&& series.points() == newest(
                        points_of(merged_upto(entries@, s)->Some_0),
                        limit,
                    )
                },
    {
        let r = scan_last(entries, key_prefix, limit);
        proof {
            let k = choose|k: nat|
                {
                    &&& #[trigger] last_stop(entries@, key_prefix@, limit, k)
                    &&& match r {
                        Ok(series) => {
                            &&& series.wf()
                            &&& merged_upto(entries@, k) matches Some(m)
                            &&& series.points() == newest(points_of(m), limit)
                        },
                        Err(e) => {
                            &&& merged_upto(entries@, k) is None
                            &&& e matches DatabaseError::TimeseriesSerializationError(
                                TimeseriesSerializationError::InvalidData,
                            )
                        },
                    }
                };
            assert forall|s: nat|
                #[trigger] prefix_stop(entries@, key_prefix@, s) && newest_first(entries@, s)
                    && merged_upto(entries@, s) is Some implies {
                &&& r matches Ok(series)
                &&& series.points() == newest(points_of(merged_upto(entries@, s)->Some_0), limit)
            } by {
                lemma_last_n_direct(entries@, key_prefix@, limit, k, s);
            }
        }
        r
    }
}

/// Merges the entries of a last-N read and keeps the newest points.
fn scan_last(entries: &Vec<Entry>, key_prefix: &[u8], limit: u64) -> (r: Result<
    MetricTimeSeries,
    DatabaseError,
>)
    ensures
        exists|k: nat|
            {
                &&& #[trigger] last_stop(entries@, key_prefix@, limit, k)
                &&& match r {
                    Ok(series) => {
                        &&& series.wf()
                        &&& merged_upto(entries@, k) matches Some(m)
                        &&& series.points() == newest(points_of(m), limit)
                    },
                    Err(e) => {
                        &&& merged_upto(entries@, k) is None
                        &&& e matches DatabaseError::TimeseriesSerializationError(
                            TimeseriesSerializationError::InvalidData,
                        )
                    },
                }
            },
{
    let started = LastScan::start(key_prefix, 0, limit);
    let mut scan = started.0;
    let mut i: usize = 0;
    while i < entries.len()
        invariant
            i <= entries@.len(),
            scan.merged.wf(),
            scan.prefix@ == key_prefix@,
            scan.limit == limit,
            merged_upto(entries@, i as nat) == Some(scan.merged@),
            forall|x: int| 0 <= x < i ==> starts_with((#[trigger] entries@[x]).0@, key_prefix@),
            forall|j: nat| 1 <= j <= i ==> !#[trigger] enough(entries@, limit, j),
        decreases entries@.len() - i,
    {
        let ghost before = scan.merged@;
        proof {
            lemma_points_of(&scan.merged);
        }
        let ghost before_points = scan.merged.points();
        match scan.accept(entries[i].0.as_slice(), entries[i].1.as_slice()) {
            Ok(go_on) => {
                proof {
                    lemma_points_of(&scan.merged);
                }
                if !go_on {
                    let ghost under = starts_with(entries@[i as int].0@, key_prefix@);
                    let ghost merged = scan.merged@;
                    let series = scan.finish();
                    proof {
                        if under {
                            assert(merged_upto(entries@, (i + 1) as nat) == Some(merged));
                            assert(enough(entries@, limit, (i + 1) as nat));
                            assert(last_stop(entries@, key_prefix@, limit, (i + 1) as nat));
                        } else {
                            assert(merged == before);
                            assert(last_stop(entries@, key_prefix@, limit, i as nat));
                        }
                    }
                    return Ok(series);
                }
                proof {
                    assert(merged_upto(entries@, (i + 1) as nat) == Some(scan.merged@));
                    assert(!enough(entries@, limit, (i + 1) as nat));
                }
            },
            Err(e) => {
                proof {
                    let k = prefix_end(entries@, key_prefix@, (i + 1) as nat);
                    lemma_prefix_end(entries@, key_prefix@, (i + 1) as nat);
                    lemma_merged_none(entries@, (i + 1) as nat, k);
                    assert forall|j: nat| 1 <= j < k implies !#[trigger] enough(
                        entries@,
                        limit,
                        j,
                    ) by {
                        if j > i {
                            lemma_merged_none(entries@, (i + 1) as nat, j);
                        }
                    }
                    assert(last_stop(entries@, key_prefix@, limit, k));
                }
                return Err(e);
            },
        }
        i += 1;
    }
    proof {
        lemma_points_of(&scan.merged);
    }
    let series = scan.finish();
    proof {
        assert(last_stop(entries@, key_prefix@, limit, i as nat));
    }
    Ok(series)
}

/// The end of the run of entries under the prefix that begins at `from`.
pub open spec fn prefix_end(entries: Seq<Entry>, prefix: Seq<u8>, from: nat) -> nat
    decreases entries.len() - from,
{
    if from >= entries.len() || !starts_with(entries[from as int].0@, prefix) {
        from
    } else {
        prefix_end(entries, prefix, from + 1)
    }
}

proof fn lemma_prefix_end(entries: Seq<Entry>, prefix: Seq<u8>, from: nat)
    requires
        from <= entries.len(),
    ensures
        from <= prefix_end(entries, prefix, from) <= entries.len(),
        forall|i: int|
            from <= i < prefix_end(entries, prefix, from) ==> starts_with(
                (#[trigger] entries[i]).0@,
                prefix,
            ),
        prefix_end(entries, prefix, from) < entries.len() ==> !starts_with(
            entries[prefix_end(entries, prefix, from) as int].0@,
            prefix,
        ),
    decreases entries.len() - from,
{
    if from >= entries.len() || !starts_with(entries[from as int].0@, prefix) {
    } else {
        lemma_prefix_end(entries, prefix, from + 1);
    }
}

/// Points that are all older go in front: the list stays ascending and
/// stands for the union of the two maps.
pub proof fn lemma_older_in_front(pts: Seq<(u64, MetricValue)>, cur: Seq<(u64, MetricValue)>)
    requires
        ascending(pts),
        ascending(cur),
        older_than(pts, map_of(cur)),
    ensures
        ascending(pts + cur),
        map_of(pts + cur) == map_of(cur).union_prefer_right(map_of(pts)),
{
    let all = pts + cur;
    let n = pts.len() as int;
    assert forall|b: int| 0 <= b < cur.len() implies #[trigger] map_of(cur).contains_key(cur[b].0) by {
        crate::timeseries::lemma_map_of_point(cur, b);
    }
    assert forall|a: int, b: int| 0 <= a < b < all.len() implies (#[trigger] all[a]).0 < (
    #[trigger] all[b]).0 by {
        if b < n {
            assert(pts[a].0 < pts[b].0);
        } else if a >= n {
            assert(cur[a - n].0 < cur[b - n].0);
        } else {
            assert(map_of(cur).contains_key(cur[b - n].0));
            assert(pts[a].0 < cur[b - n].0);
        }
    }
    let joined_map = map_of(cur).union_prefer_right(map_of(pts));
    assert forall|t: u64| map_of(all).contains_key(t) == joined_map.contains_key(t) by {
        if crate::timeseries::has_point(all, t) {
            let i = choose|i: int| 0 <= i < all.len() && (#[trigger] all[i]).0 == t;
            if i < n {
                assert(pts[i].0 == t);
            } else {
                assert(cur[i - n].0 == t);
            }
        }
        if crate::timeseries::has_point(pts, t) {
            let i = choose|i: int| 0 <= i < pts.len() && (#[trigger] pts[i]).0 == t;
            assert(all[i].0 == t);
        }
        if crate::timeseries::has_point(cur, t) {
            let i = choose|i: int| 0 <= i < cur.len() && (#[trigger] cur[i]).0 == t;
            assert(all[i + n].0 == t);
        }
    }
    assert forall|t: u64| map_of(all).contains_key(t) implies map_of(all)[t] == joined_map[t] by {
        let i = choose|i: int| 0 <= i < all.len() && (#[trigger] all[i]).0 == t;
        crate::timeseries::lemma_map_of_point(all, i);
        if i < n {
            assert(all[i] == pts[i]);
            crate::timeseries::lemma_map_of_point(pts, i);
        } else {
            assert(all[i] == cur[i - n]);
            crate::timeseries::lemma_map_of_point(cur, i - n);
            if crate::timeseries::has_point(pts, t) {
                let b = choose|b: int| 0 <= b < pts.len() && (#[trigger] pts[b]).0 == t;
                assert(map_of(cur).contains_key(t));
                assert(pts[b].0 < t);
            }
        }
    }
    assert(map_of(all) =~= joined_map);
}

/// Where the entries come newest first, the points merged from them are the
/// points of each bucket in front of the points of the buckets before it.
pub proof fn lemma_merged_points(entries: Seq<Entry>, j: nat, s: nat)
    requires
        j <= s <= entries.len(),
        newest_first(entries, s),
        merged_upto(entries, j) is Some,
    ensures
        ascending(points_of(merged_upto(entries, j)->Some_0)),
        map_of(points_of(merged_upto(entries, j)->Some_0)) == merged_upto(entries, j)->Some_0,
        j >= 1 ==> points_of(merged_upto(entries, j)->Some_0) == decoded(
            entries[j - 1].1@,
        )->Some_0 + points_of(merged_upto(entries, (j - 1) as nat)->Some_0),
    decreases j,
{
    let m = merged_upto(entries, j)->Some_0;
    if j == 0 {
        let none = Seq::<(u64, MetricValue)>::empty();
        assert(map_of(none) =~= m);
        assert(ascending(none) && map_of(none) == m);
    } else {
        lemma_merged_points(entries, (j - 1) as nat, s);
        let m0 = merged_upto(entries, (j - 1) as nat)->Some_0;
        let pts = decoded(entries[j - 1].1@)->Some_0;
        let cur = points_of(m0);
        assert(storable(pts));
        assert(older_than(pts, m0)) by {
            assert(merged_upto(entries, (j - 1) as nat) is Some);
        }
        lemma_older_in_front(pts, cur);
        let all = pts + cur;
        assert(ascending(all) && map_of(all) == m);
        crate::timeseries::lemma_map_of_injective(points_of(m), all);
    }
}

/// The newest points of a list do not change when older points go in front
/// of at least as many points as are asked for.
pub proof fn lemma_newest_behind(
    pts: Seq<(u64, MetricValue)>,
    cur: Seq<(u64, MetricValue)>,
    limit: u64,
)
    requires
        cur.len() >= limit,
    ensures
        newest(pts + cur, limit) == newest(cur, limit),
{
    assert(newest(pts + cur, limit) =~= newest(cur, limit));
}

/// Where the entries come newest first, entries beyond those that hold
/// enough points do not change which points are the newest.
pub proof fn lemma_newest_stable(entries: Seq<Entry>, limit: u64, k: nat, s: nat)
    requires
        k <= s <= entries.len(),
        newest_first(entries, s),
        merged_upto(entries, s) is Some,
        enough(entries, limit, k),
    ensures
        points_of(merged_upto(entries, s)->Some_0).len() >= limit,
        newest(points_of(merged_upto(entries, k)->Some_0), limit) == newest(
            points_of(merged_upto(entries, s)->Some_0),
            limit,
        ),
    decreases s,
{
    if k < s {
        assert(merged_upto(entries, (s - 1) as nat) is Some);
        assert(newest_first(entries, (s - 1) as nat));
        lemma_newest_stable(entries, limit, k, (s - 1) as nat);
        lemma_merged_points(entries, s, s);
        lemma_newest_behind(
            decoded(entries[s - 1].1@)->Some_0,
            points_of(merged_upto(entries, (s - 1) as nat)->Some_0),
            limit,
        );
    }
}

/// What a last-N read returns is the `limit` newest of all points under the
/// prefix, where the entries come newest first.
pub proof fn lemma_last_n_direct(
    entries: Seq<Entry>,
    prefix: Seq<u8>,
    limit: u64,
    k: nat,
    s: nat,
)
    requires
        last_stop(entries, prefix, limit, k),
        prefix_stop(entries, prefix, s),
        newest_first(entries, s),
        merged_upto(entries, s) is Some,
    ensures
        k <= s,
        merged_upto(entries, k) is Some,
        newest(points_of(merged_upto(entries, k)->Some_0), limit) == newest(
            points_of(merged_upto(entries, s)->Some_0),
            limit,
        ),
{
    if k > s {
        assert(starts_with(entries[s as int].0@, prefix));
    }
    lemma_merged_some(entries, k, s);
    if k < s {
        assert(starts_with(entries[k as int].0@, prefix));
        lemma_newest_stable(entries, limit, k, s);
    }
}

proof fn lemma_merged_some(entries: Seq<Entry>, k: nat, s: nat)
    requires
        k <= s <= entries.len(),
        merged_upto(entries, s) is Some,
    ensures
        merged_upto(entries, k) is Some,
    decreases s,
{
    if k < s {
        lemma_merged_some(entries, k, (s - 1) as nat);
    }
}

proof fn lemma_merged_upto_fails(entries: Seq<Entry>, n: nat, min_key: Seq<u8>)
    requires
        1 <= n <= entries.len(),
        decoded(entries[n - 1].1@) is None,
        forall|k: int| 0 <= k < n ==> !lex_lt(min_key, (#[trigger] entries[k]).0@),
    ensures
        exists|s: nat| #[trigger] range_stop(entries, min_key, s) && merged_upto(entries, s) is None,
{
    let s = stop_from(entries, min_key, n);
    lemma_stop_from(entries, min_key, n);
    lemma_merged_none(entries, n, s);
}

/// The first position from `from` on whose key sorts after `min_key`.
pub open spec fn stop_from(entries: Seq<Entry>, min_key: Seq<u8>, from: nat) -> nat
    decreases entries.len() - from,
{
    if from >= entries.len() || lex_lt(min_key, entries[from as int].0@) {
        from
    } else {
        stop_from(entries, min_key, from + 1)
    }
}

proof fn lemma_stop_from(entries: Seq<Entry>, min_key: Seq<u8>, from: nat)
    requires
        from <= entries.len(),
        forall|k: int| 0 <= k < from ==> !lex_lt(min_key, (#[trigger] entries[k]).0@),
    ensures
        range_stop(entries, min_key, stop_from(entries, min_key, from)),
        from <= stop_from(entries, min_key, from),
    decreases entries.len() - from,
{
    if from >= entries.len() || lex_lt(min_key, entries[from as int].0@) {
    } else {
        lemma_stop_from(entries, min_key, from + 1);
    }
}

proof fn lemma_merged_none(entries: Seq<Entry>, n: nat, s: nat)
    requires
        1 <= n <= s <= entries.len(),
        decoded(entries[n - 1].1@) is None,
    ensures
        merged_upto(entries, s) is None,
    decreases s,
{
    if n < s {
        lemma_merged_none(entries, n, (s - 1) as nat);
    }
}


/// Whether an entry is a bucket of the series `base` as it is written: a
/// bucket with at least one point, all points in one hour, under the key of
/// that hour.
pub open spec fn bucket_at(entry: Entry, base: Seq<u8>) -> bool {
    &&& decoded(entry.1@) matches Some(pts)
    &&& pts.len() > 0
    &&& all_have_keys(pts)
    &&& entry.0@ == bucket_key(base, pts[0].0)
    &&& forall|b: int|
        0 <= b < pts.len() ==> hour_index((#[trigger] pts[b]).0) == hour_index(pts[0].0)
}

/// Whether the first `s` entries are buckets of the series `base` in the
/// order of their keys, as a forward iterator yields them.
pub open spec fn buckets_in_key_order(entries: Seq<Entry>, base: Seq<u8>, s: nat) -> bool {
    &&& s <= entries.len()
    &&& forall|i: int| 0 <= i < s ==> bucket_at(#[trigger] entries[i], base)
    &&& forall|i: int, j: int|
        0 <= i < j < s ==> lex_lt((#[trigger] entries[i]).0@, (#[trigger] entries[j]).0@)
}

/// Every point merged from entries is a point of one of them.
proof fn lemma_merged_source(entries: Seq<Entry>, j: nat, t: u64)
    requires
        j <= entries.len(),
        merged_upto(entries, j) matches Some(m) && m.contains_key(t),
    ensures
        exists|i: int|
            0 <= i < j && decoded((#[trigger] entries[i]).1@) is Some
                && crate::timeseries::has_point(decoded(entries[i].1@)->Some_0, t),
    decreases j,
{
    if j > 0 {
        let m0 = merged_upto(entries, (j - 1) as nat)->Some_0;
        let pts = decoded(entries[j - 1].1@)->Some_0;
        if map_of(pts).contains_key(t) {
            assert(decoded(entries[j - 1].1@) is Some && crate::timeseries::has_point(pts, t));
        } else {
            assert(m0.contains_key(t));
            lemma_merged_source(entries, (j - 1) as nat, t);
        }
    }
}

/// Of two buckets of one series, the one with the smaller key holds the
/// later hour.
proof fn lemma_smaller_key_later_hour(base: Seq<u8>, t1: u64, t2: u64)
    requires
        t1 <= MAX_TIMESTAMP,
        t2 <= MAX_TIMESTAMP,
        lex_lt(bucket_key(base, t1), bucket_key(base, t2)),
    ensures
        hour_index(t2) < hour_index(t1),
{
    let head = base + seq![crate::keys::SEPARATOR];
    let k1 = crate::keys::key_bytes(t1);
    let k2 = crate::keys::key_bytes(t2);
    crate::keys::lemma_lex_lt_prefix(head, k1, k2);
    assert(lex_lt(k1, k2));
    crate::keys::lemma_lex_lt_asymmetric(k1, k2);
    if hour_index(t1) < hour_index(t2) {
        crate::keys::lemma_key_reverses_order(t1, t2);
    } else if hour_index(t1) == hour_index(t2) {
        // one hour has one key
        assert(t1 as int / crate::calendar::DAY as int == t2 as int / crate::calendar::DAY as int);
        assert((t1 as int % crate::calendar::DAY as int) / crate::calendar::HOUR as int == (t2 as int
            % crate::calendar::DAY as int) / crate::calendar::HOUR as int);
        assert(k1 == k2);
    }
}

/// The buckets of a series come newest first in the order of their keys.
pub proof fn lemma_key_order_is_newest_first(entries: Seq<Entry>, base: Seq<u8>, s: nat)
    requires
        buckets_in_key_order(entries, base, s),
    ensures
        newest_first(entries, s),
{
    assert forall|j: nat| j < s implies match (
        #[trigger] merged_upto(entries, j),
        decoded(entries[j as int].1@),
    ) {
        (Some(m), Some(pts)) => older_than(pts, m),
        _ => true,
    } by {
        if merged_upto(entries, j) is Some && decoded(entries[j as int].1@) is Some {
            let m = merged_upto(entries, j)->Some_0;
            let pts = decoded(entries[j as int].1@)->Some_0;
            assert(bucket_at(entries[j as int], base));
            assert forall|b: int, t: u64|
                0 <= b < pts.len() && #[trigger] m.contains_key(t) implies (#[trigger] pts[b]).0
                < t by {
                lemma_merged_source(entries, j, t);
                let i = choose|i: int|
                    0 <= i < j && decoded((#[trigger] entries[i]).1@) is Some
                        && crate::timeseries::has_point(decoded(entries[i].1@)->Some_0, t);
                let pi = decoded(entries[i].1@)->Some_0;
                assert(bucket_at(entries[i], base));
                let a = choose|a: int| 0 <= a < pi.len() && (#[trigger] pi[a]).0 == t;
                assert(hour_index(pi[a].0) == hour_index(pi[0].0));
                assert(hour_index(pts[b].0) == hour_index(pts[0].0));
                assert(lex_lt(entries[i].0@, entries[j as int].0@));
                assert(pi[0].0 <= MAX_TIMESTAMP);
                assert(pts[0].0 <= MAX_TIMESTAMP);
                lemma_smaller_key_later_hour(base, pi[0].0, pts[0].0);
            }
        }
    }
}

} // verus!
