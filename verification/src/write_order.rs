//! The order of writes: series that share no timestamp leave the same
//! buckets behind in whichever order they are written.

use vstd::prelude::*;
use crate::metric::{MetricTimeSeries, MetricValue};
use crate::series_store::{bucket_after, lemma_decoded, stored_points};
use crate::timeseries::{has_point, joined, map_of};

verus! {

/// The buckets of a store: its values by key.
pub type Buckets = Map<Seq<u8>, Seq<u8>>;

/// One write: the key of a bucket and the points to merge into it.
pub type Write = (Seq<u8>, Map<u64, MetricValue>);

/// What is stored under a key, if anything.
pub open spec fn stored(store: Buckets, key: Seq<u8>) -> Option<Seq<u8>> {
    if store.contains_key(key) {
        Some(store[key])
    } else {
        None
    }
}

/// The store after the first `n` writes, each merged into the bucket under
/// its key; `None` when one of them fails.
pub open spec fn store_after(store: Buckets, writes: Seq<Write>, n: nat) -> Option<Buckets>
    decreases n,
{
    if n == 0 || n > writes.len() {
        Some(store)
    } else {
        match store_after(store, writes, (n - 1) as nat) {
            Some(before) => match bucket_after(stored(before, writes[n - 1].0), writes[n - 1].1) {
                Some(bytes) => Some(before.insert(writes[n - 1].0, bytes)),
                None => None,
            },
            None => None,
        }
    }
}

/// Whether no two writes go to the same key.
pub open spec fn keys_differ(writes: Seq<Write>) -> bool {
    forall|i: int, j: int|
        0 <= i < j < writes.len() ==> (#[trigger] writes[i]).0 != (#[trigger] writes[j]).0
}

/// Whether writes of the two lists that go to the same key share no
/// timestamp.
pub open spec fn share_no_timestamp(a: Seq<Write>, b: Seq<Write>) -> bool {
    forall|i: int, j: int|
        0 <= i < a.len() && 0 <= j < b.len() && (#[trigger] a[i]).0 == (#[trigger] b[j]).0
            ==> a[i].1.dom().disjoint(b[j].1.dom())
}

/// The writes of a list of buckets with their keys, as values.
pub open spec fn writes_of(list: Seq<(Vec<u8>, MetricTimeSeries)>) -> Seq<Write> {
    Seq::new(list.len(), |i: int| (list[i].0@, list[i].1@))
}

/// Key by key, writes to different keys leave under the key of each write the
/// bucket merged with its points, and every other key as it was.
pub proof fn lemma_store_after_lookup(store: Buckets, writes: Seq<Write>, n: nat, k: Seq<u8>)
    requires
        n <= writes.len(),
        keys_differ(writes),
        store_after(store, writes, n) is Some,
    ensures
        forall|i: int|
            0 <= i < n && (#[trigger] writes[i]).0 == k ==> stored(
                store_after(store, writes, n)->Some_0,
                k,
            ) == bucket_after(stored(store, k), writes[i].1) && bucket_after(
                stored(store, k),
                writes[i].1,
            ) is Some,
        (forall|i: int| 0 <= i < n ==> (#[trigger] writes[i]).0 != k) ==> stored(
            store_after(store, writes, n)->Some_0,
            k,
        ) == stored(store, k),
    decreases n,
{
    if n > 0 {
        lemma_store_after_lookup(store, writes, (n - 1) as nat, k);
        lemma_store_after_lookup(store, writes, (n - 1) as nat, writes[n - 1].0);
        let before = store_after(store, writes, (n - 1) as nat)->Some_0;
        let after = store_after(store, writes, n)->Some_0;
        assert forall|i: int| 0 <= i < n - 1 implies (#[trigger] writes[i]).0 != writes[n - 1].0 by {}
        assert(stored(before, writes[n - 1].0) == stored(store, writes[n - 1].0));
        assert forall|i: int| 0 <= i < n && (#[trigger] writes[i]).0 == k implies stored(after, k)
            == bucket_after(stored(store, k), writes[i].1) && bucket_after(
            stored(store, k),
            writes[i].1,
        ) is Some by {
            if i < n - 1 {
                assert(writes[i].0 != writes[n - 1].0);
            }
        }
    }
}

/// Two writes to one bucket that share no timestamp leave the same bytes in
/// either order.
pub proof fn lemma_bucket_after_commutes(
    existing: Option<Seq<u8>>,
    a: Map<u64, MetricValue>,
    b: Map<u64, MetricValue>,
)
    requires
        a.dom().disjoint(b.dom()),
        bucket_after(existing, a) is Some,
        bucket_after(existing, b) is Some,
        bucket_after(bucket_after(existing, a), b) is Some,
        bucket_after(bucket_after(existing, b), a) is Some,
    ensures
        bucket_after(bucket_after(existing, a), b) == bucket_after(bucket_after(existing, b), a),
{
    let old = stored_points(existing)->Some_0;
    let with_a = map_of(old).union_prefer_right(a);
    let with_b = map_of(old).union_prefer_right(b);
    let pa = crate::series_store::points_of(with_a);
    let pb = crate::series_store::points_of(with_b);
    lemma_decoded(pa);
    lemma_decoded(pb);
    assert(with_a.union_prefer_right(b) =~= with_b.union_prefer_right(a));
}

/// Two lists of writes, each to different keys, that share no timestamp
/// under any key leave the same store in either order.
pub proof fn lemma_writes_commute(store: Buckets, a: Seq<Write>, b: Seq<Write>)
    requires
        keys_differ(a),
        keys_differ(b),
        share_no_timestamp(a, b),
        store_after(store, a, a.len()) matches Some(first) && store_after(first, b, b.len())
            is Some,
        store_after(store, b, b.len()) matches Some(first) && store_after(first, a, a.len())
            is Some,
    ensures
        store_after(store_after(store, a, a.len())->Some_0, b, b.len()) == store_after(
            store_after(store, b, b.len())->Some_0,
            a,
            a.len(),
        ),
{
    let sa = store_after(store, a, a.len())->Some_0;
    let sb = store_after(store, b, b.len())->Some_0;
    let sab = store_after(sa, b, b.len())->Some_0;
    let sba = store_after(sb, a, a.len())->Some_0;
    assert forall|k: Seq<u8>| stored(sab, k) == stored(sba, k) by {
        lemma_store_after_lookup(store, a, a.len(), k);
        lemma_store_after_lookup(store, b, b.len(), k);
        lemma_store_after_lookup(sa, b, b.len(), k);
        lemma_store_after_lookup(sb, a, a.len(), k);
        let in_a = exists|i: int| 0 <= i < a.len() && (#[trigger] a[i]).0 == k;
        let in_b = exists|j: int| 0 <= j < b.len() && (#[trigger] b[j]).0 == k;
        if in_a && in_b {
            let i = choose|i: int| 0 <= i < a.len() && (#[trigger] a[i]).0 == k;
            let j = choose|j: int| 0 <= j < b.len() && (#[trigger] b[j]).0 == k;
            assert(a[i].1.dom().disjoint(b[j].1.dom()));
            lemma_bucket_after_commutes(stored(store, k), a[i].1, b[j].1);
        } else if in_a {
            let i = choose|i: int| 0 <= i < a.len() && (#[trigger] a[i]).0 == k;
        } else if in_b {
            let j = choose|j: int| 0 <= j < b.len() && (#[trigger] b[j]).0 == k;
        }
    }
    assert(sab =~= sba) by {
        assert forall|k: Seq<u8>| sab.contains_key(k) == sba.contains_key(k) by {
            assert(stored(sab, k) == stored(sba, k));
        }
        assert forall|k: Seq<u8>| sab.contains_key(k) implies sab[k] == sba[k] by {
            assert(stored(sab, k) == stored(sba, k));
        }
    }
}

/// Every point of a bucket of a series is a point of the series.
pub proof fn lemma_part_in_series(parts: Seq<MetricTimeSeries>, n: nat, k: int, t: u64)
    requires
        0 <= k < n <= parts.len(),
        has_point(parts[k].points(), t),
    ensures
        has_point(joined(parts, n), t),
    decreases n,
{
    let before = joined(parts, (n - 1) as nat);
    let last = parts[n - 1].points();
    let all = joined(parts, n);
    assert(all == before + last);
    if k < n - 1 {
        lemma_part_in_series(parts, (n - 1) as nat, k, t);
        let i = choose|i: int| 0 <= i < before.len() && (#[trigger] before[i]).0 == t;
        assert(all[i].0 == t);
    } else {
        let i = choose|i: int| 0 <= i < last.len() && (#[trigger] last[i]).0 == t;
        assert(all[before.len() + i].0 == t);
    }
}

/// The bucket writes of two series that share no timestamp share no
/// timestamp under any key.
pub proof fn lemma_series_writes_share_no_timestamp(
    a: MetricTimeSeries,
    b: MetricTimeSeries,
    wa: Seq<(Vec<u8>, MetricTimeSeries)>,
    wb: Seq<(Vec<u8>, MetricTimeSeries)>,
)
    requires
        a@.dom().disjoint(b@.dom()),
        joined(crate::series_store::parts_of(wa), wa.len()) == a.points(),
        joined(crate::series_store::parts_of(wb), wb.len()) == b.points(),
    ensures
        share_no_timestamp(writes_of(wa), writes_of(wb)),
{
    let pa = crate::series_store::parts_of(wa);
    let pb = crate::series_store::parts_of(wb);
    assert forall|i: int, j: int|
        0 <= i < wa.len() && 0 <= j < wb.len() implies (#[trigger] writes_of(wa)[i]).1.dom().disjoint(
        (#[trigger] writes_of(wb)[j]).1.dom(),
    ) by {
        assert forall|t: u64|
            !(writes_of(wa)[i].1.dom().contains(t) && writes_of(wb)[j].1.dom().contains(t)) by {
            if wa[i].1@.contains_key(t) && wb[j].1@.contains_key(t) {
                assert(pa[i] == wa[i].1);
                assert(pb[j] == wb[j].1);
                lemma_part_in_series(pa, wa.len(), i, t);
                lemma_part_in_series(pb, wb.len(), j, t);
                assert(a@.contains_key(t));
                assert(b@.contains_key(t));
            }
        }
    }
}


/// Writing two series that share no timestamp leaves the same store in
/// either order: the bucket writes of the one, then those of the other, or
/// the other way round.
pub proof fn lemma_series_writes_commute(
    store: Buckets,
    a: MetricTimeSeries,
    b: MetricTimeSeries,
    wa: Seq<(Vec<u8>, MetricTimeSeries)>,
    wb: Seq<(Vec<u8>, MetricTimeSeries)>,
)
    requires
        a@.dom().disjoint(b@.dom()),
        joined(crate::series_store::parts_of(wa), wa.len()) == a.points(),
        joined(crate::series_store::parts_of(wb), wb.len()) == b.points(),
        forall|i: int, j: int| 0 <= i < j < wa.len() ==> (#[trigger] wa[i]).0@ != (#[trigger] wa[j]).0@,
        forall|i: int, j: int| 0 <= i < j < wb.len() ==> (#[trigger] wb[i]).0@ != (#[trigger] wb[j]).0@,
        store_after(store, writes_of(wa), wa.len()) matches Some(first) && store_after(
            first,
            writes_of(wb),
            wb.len(),
        ) is Some,
        store_after(store, writes_of(wb), wb.len()) matches Some(first) && store_after(
            first,
            writes_of(wa),
            wa.len(),
        ) is Some,
    ensures
        store_after(
            store_after(store, writes_of(wa), wa.len())->Some_0,
            writes_of(wb),
            wb.len(),
        ) == store_after(
            store_after(store, writes_of(wb), wb.len())->Some_0,
            writes_of(wa),
            wa.len(),
        ),
{
    lemma_series_writes_share_no_timestamp(a, b, wa, wb);
    assert(keys_differ(writes_of(wa))) by {
        assert forall|i: int, j: int| 0 <= i < j < writes_of(wa).len() implies (
        #[trigger] writes_of(wa)[i]).0 != (#[trigger] writes_of(wa)[j]).0 by {
            assert(wa[i].0@ != wa[j].0@);
        }
    }
    assert(keys_differ(writes_of(wb))) by {
        assert forall|i: int, j: int| 0 <= i < j < writes_of(wb).len() implies (
        #[trigger] writes_of(wb)[i]).0 != (#[trigger] writes_of(wb)[j]).0 by {
            assert(wb[i].0@ != wb[j].0@);
        }
    }
    lemma_writes_commute(store, writes_of(wa), writes_of(wb));
}

} // verus!
