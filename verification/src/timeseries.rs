//! Time series: values indexed by strictly ascending timestamps.

use vstd::prelude::*;
use vstd::string::{is_ascii_spec_bytes, StringExecFns, StringSliceAdditionalSpecFns};
use crate::calendar::{HOUR, MAX_TIMESTAMP};
use crate::keys::{key_bytes, key_digits, key_text, lemma_key_fields, parse_key_digits, KEY_WIDTH};
use crate::metric::TimeseriesSerializationError;

verus! {

/// The one-character text of an ASCII decimal digit.
fn digit_text(d: u8) -> (r: &'static str)
    requires
        48 <= d <= 57,
    ensures
        r@ == seq![d as char],
{
    proof {
        reveal_strlit("0");
        reveal_strlit("1");
        reveal_strlit("2");
        reveal_strlit("3");
        reveal_strlit("4");
        reveal_strlit("5");
        reveal_strlit("6");
        reveal_strlit("7");
        reveal_strlit("8");
        reveal_strlit("9");
    }
    let r = if d == 48 {
        "0"
    } else if d == 49 {
        "1"
    } else if d == 50 {
        "2"
    } else if d == 51 {
        "3"
    } else if d == 52 {
        "4"
    } else if d == 53 {
        "5"
    } else if d == 54 {
        "6"
    } else if d == 55 {
        "7"
    } else if d == 56 {
        "8"
    } else {
        "9"
    };
    assert(r@ =~= seq![d as char]);
    r
}

/// Number of seconds covered by one stored bucket.
pub const BUCKET_SECONDS: u64 = HOUR;

/// Index of the one-hour window that contains `ts`.
pub open spec fn hour_index(ts: u64) -> int {
    ts as int / BUCKET_SECONDS as int
}

/// Whether the timestamps of a list of points grow strictly.
pub open spec fn ascending<T>(pts: Seq<(u64, T)>) -> bool {
    forall|i: int, j: int| 0 <= i < j < pts.len() ==> (#[trigger] pts[i]).0 < (#[trigger] pts[j]).0
}

/// Whether some point of the list carries the timestamp `ts`.
pub open spec fn has_point<T>(pts: Seq<(u64, T)>, ts: u64) -> bool {
    exists|i: int| 0 <= i < pts.len() && (#[trigger] pts[i]).0 == ts
}

/// The map from timestamp to value that a list of points stands for.
pub open spec fn map_of<T>(pts: Seq<(u64, T)>) -> Map<u64, T> {
    Map::new(
        |ts: u64| has_point(pts, ts),
        |ts: u64| pts[choose|i: int| 0 <= i < pts.len() && (#[trigger] pts[i]).0 == ts].1,
    )
}

/// The points of a list whose timestamps lie in `[min, max]`, in order.
pub open spec fn within<T>(pts: Seq<(u64, T)>, min: u64, max: u64) -> Seq<(u64, T)> {
    pts.filter(|p: (u64, T)| min <= p.0 <= max)
}

/// In an ascending list every point is the one that the map holds under its
/// timestamp.
pub proof fn lemma_map_of_point<T>(pts: Seq<(u64, T)>, i: int)
    requires
        ascending(pts),
        0 <= i < pts.len(),
    ensures
        map_of(pts).contains_key(pts[i].0),
        map_of(pts)[pts[i].0] == pts[i].1,
{
    let ts = pts[i].0;
    let c = choose|k: int| 0 <= k < pts.len() && (#[trigger] pts[k]).0 == ts;
    if c < i {
        assert(pts[c].0 < pts[i].0);
    }
    if i < c {
        assert(pts[i].0 < pts[c].0);
    }
}

/// Two ascending lists that stand for the same map are the same list.
pub proof fn lemma_map_of_injective<T>(a: Seq<(u64, T)>, b: Seq<(u64, T)>)
    requires
        ascending(a),
        ascending(b),
        map_of(a) == map_of(b),
    ensures
        a == b,
    decreases a.len(),
{
    if a.len() == 0 {
        if b.len() > 0 {
            lemma_map_of_point(b, 0);
            assert(has_point(a, b[0].0));
        }
        assert(a =~= b);
    } else {
        let la = a.len() - 1;
        lemma_map_of_point(a, la);
        assert(has_point(b, a[la].0));
        let lb = b.len() - 1;
        lemma_map_of_point(b, lb);
        assert(has_point(a, b[lb].0));
        let ia = choose|i: int| 0 <= i < a.len() && (#[trigger] a[i]).0 == b[lb].0;
        let ib = choose|i: int| 0 <= i < b.len() && (#[trigger] b[i]).0 == a[la].0;
        if ia < la {
            assert(a[ia].0 < a[la].0);
        }
        if ib < lb {
            assert(b[ib].0 < b[lb].0);
        }
        assert(a[la].0 == b[lb].0);
        assert(a[la].1 == b[lb].1);
        let a0 = a.drop_last();
        let b0 = b.drop_last();
        assert(ascending(a0));
        assert(ascending(b0));
        assert forall|ts: u64| has_point(a0, ts) == has_point(b0, ts) by {
            if has_point(a0, ts) {
                let i = choose|i: int| 0 <= i < a0.len() && (#[trigger] a0[i]).0 == ts;
                assert(a[i].0 == ts);
                assert(a[i].0 < a[la].0);
                lemma_map_of_point(a, i);
                assert(has_point(b, ts));
                let j = choose|j: int| 0 <= j < b.len() && (#[trigger] b[j]).0 == ts;
                assert(j != lb);
                assert(b0[j].0 == ts);
            }
            if has_point(b0, ts) {
                let i = choose|i: int| 0 <= i < b0.len() && (#[trigger] b0[i]).0 == ts;
                assert(b[i].0 == ts);
                assert(b[i].0 < b[lb].0);
                lemma_map_of_point(b, i);
                assert(has_point(a, ts));
                let j = choose|j: int| 0 <= j < a.len() && (#[trigger] a[j]).0 == ts;
                assert(j != la);
                assert(a0[j].0 == ts);
            }
        }
        assert forall|ts: u64| has_point(a0, ts) implies map_of(a0)[ts] == map_of(b0)[ts] by {
            let i = choose|i: int| 0 <= i < a0.len() && (#[trigger] a0[i]).0 == ts;
            lemma_map_of_point(a0, i);
            assert(a[i] == a0[i]);
            lemma_map_of_point(a, i);
            let j = choose|j: int| 0 <= j < b0.len() && (#[trigger] b0[j]).0 == ts;
            lemma_map_of_point(b0, j);
            assert(b[j] == b0[j]);
            lemma_map_of_point(b, j);
        }
        assert(map_of(a0) =~= map_of(b0));
        lemma_map_of_injective(a0, b0);
        assert(a =~= a0.push(a[la]));
        assert(b =~= b0.push(b[lb]));
    }
}

/// Putting a point between the smaller and the larger timestamps of an
/// ascending list keeps it ascending and adds the point to the map.
pub proof fn lemma_map_of_insert<T>(pts: Seq<(u64, T)>, i: int, ts: u64, v: T)
    requires
        ascending(pts),
        0 <= i <= pts.len(),
        forall|k: int| 0 <= k < i ==> (#[trigger] pts[k]).0 < ts,
        forall|k: int| i <= k < pts.len() ==> ts < (#[trigger] pts[k]).0,
    ensures
        ascending(pts.insert(i, (ts, v))),
        map_of(pts.insert(i, (ts, v))) == map_of(pts).insert(ts, v),
{
    let r = pts.insert(i, (ts, v));
    assert forall|a: int, b: int| 0 <= a < b < r.len() implies (#[trigger] r[a]).0 < (
    #[trigger] r[b]).0 by {
        let pa = if a < i { a } else { a - 1 };
        let pb = if b < i { b } else { b - 1 };
        if a != i && b != i {
            assert(pts[pa].0 < pts[pb].0);
        } else if a == i {
            assert(ts < pts[pb].0);
        } else {
            assert(pts[pa].0 < ts);
        }
    }
    assert forall|t: u64| has_point(r, t) == (t == ts || has_point(pts, t)) by {
        if has_point(r, t) {
            let k = choose|k: int| 0 <= k < r.len() && (#[trigger] r[k]).0 == t;
            if k != i {
                let pk = if k < i { k } else { k - 1 };
                assert(pts[pk].0 == t);
            }
        }
        if t == ts {
            assert(r[i].0 == ts);
        }
        if has_point(pts, t) {
            let k = choose|k: int| 0 <= k < pts.len() && (#[trigger] pts[k]).0 == t;
            let rk = if k < i { k } else { k + 1 };
            assert(r[rk].0 == t);
        }
    }
    assert forall|t: u64| has_point(r, t) implies map_of(r)[t] == map_of(pts).insert(ts, v)[t] by {
        let k = choose|k: int| 0 <= k < r.len() && (#[trigger] r[k]).0 == t;
        lemma_map_of_point(r, k);
        if k != i {
            let pk = if k < i { k } else { k - 1 };
            assert(pts[pk] == r[k]);
            lemma_map_of_point(pts, pk);
        }
    }
    assert(map_of(r) =~= map_of(pts).insert(ts, v));
}

/// Replacing the value of a point of an ascending list keeps it ascending and
/// replaces the value in the map.
pub proof fn lemma_map_of_update<T>(pts: Seq<(u64, T)>, i: int, v: T)
    requires
        ascending(pts),
        0 <= i < pts.len(),
    ensures
        ascending(pts.update(i, (pts[i].0, v))),
        map_of(pts.update(i, (pts[i].0, v))) == map_of(pts).insert(pts[i].0, v),
{
    let ts = pts[i].0;
    let r = pts.update(i, (ts, v));
    assert forall|a: int, b: int| 0 <= a < b < r.len() implies (#[trigger] r[a]).0 < (
    #[trigger] r[b]).0 by {
        assert(pts[a].0 < pts[b].0);
    }
    assert forall|t: u64| has_point(r, t) == has_point(pts, t) by {
        if has_point(r, t) {
            let k = choose|k: int| 0 <= k < r.len() && (#[trigger] r[k]).0 == t;
            assert(pts[k].0 == t);
        }
        if has_point(pts, t) {
            let k = choose|k: int| 0 <= k < pts.len() && (#[trigger] pts[k]).0 == t;
            assert(r[k].0 == t);
        }
    }
    assert(has_point(pts, ts));
    assert forall|t: u64| has_point(r, t) implies map_of(r)[t] == map_of(pts).insert(ts, v)[t] by {
        let k = choose|k: int| 0 <= k < r.len() && (#[trigger] r[k]).0 == t;
        lemma_map_of_point(r, k);
        if k != i {
            assert(pts[k] == r[k]);
            lemma_map_of_point(pts, k);
        }
    }
    assert(map_of(r) =~= map_of(pts).insert(ts, v));
}

/// A series of values indexed by time: two parallel columns, the timestamps
/// strictly ascending.
#[derive(Debug)]
pub struct TimeSeries<T> {
    pub timestamps: Vec<u64>,
    pub values: Vec<T>,
}

impl<T> TimeSeries<T> {
    /// The points of the series in storage order.
    pub open spec fn points(&self) -> Seq<(u64, T)> {
        Seq::new(self.timestamps@.len(), |i: int| (self.timestamps@[i], self.values@[i]))
    }

    /// Whether the two columns have the same length and the timestamps grow
    /// strictly.
    pub open spec fn wf(&self) -> bool {
        &&& self.timestamps@.len() == self.values@.len()
        &&& ascending(self.points())
    }
}

impl<T> View for TimeSeries<T> {
    type V = Map<u64, T>;

    open spec fn view(&self) -> Map<u64, T> {
        map_of(self.points())
    }
}

/// The points of the first `n` series of a list, one series after the other.
pub open spec fn joined<T>(parts: Seq<TimeSeries<T>>, n: nat) -> Seq<(u64, T)>
    decreases n,
{
    if n == 0 || n > parts.len() {
        Seq::empty()
    } else {
        joined(parts, (n - 1) as nat) + parts[n - 1].points()
    }
}

impl<T: Copy> TimeSeries<T> {
    /// The time field of the key of the bucket that holds `ts`: ten decimal
    /// digits that grow as time goes back.
    pub fn ts_to_key(ts: u64) -> (r: String)
        requires
            ts <= MAX_TIMESTAMP,
        ensures
            r@ == key_text(ts),
    {
        let digits = key_digits(ts);
        proof {
            lemma_key_fields(ts);
        }
        let mut out = String::new();
        let mut i: usize = 0;
        while i < KEY_WIDTH
            invariant
                i <= KEY_WIDTH,
                digits@ == key_bytes(ts),
                digits@.len() == KEY_WIDTH,
                crate::keys::is_digits(digits@),
                out@ == Seq::new(i as nat, |j: int| digits@[j] as char),
            decreases KEY_WIDTH - i,
        {
            let d = digits[i];
            let ghost before = out@;
            out.append(digit_text(d));
            assert(out@ =~= Seq::new((i + 1) as nat, |j: int| digits@[j] as char));
            i += 1;
        }
        assert(out@ =~= key_text(ts));
        out
    }

    /// The first second of the hour that a time field names.
    pub fn key_to_ts(key: &str) -> (r: Result<u64, TimeseriesSerializationError>)
        ensures
            match r {
                Ok(ts) => ts <= MAX_TIMESTAMP && ts % HOUR == 0 && key@ == key_text(ts),
                Err(e) => {
                    &&& e == TimeseriesSerializationError::InvalidKey
                    &&& forall|ts: u64| ts <= MAX_TIMESTAMP ==> key@ != #[trigger] key_text(ts)
                },
            },
    {
        if !key.is_ascii() {
            proof {
                assert forall|ts: u64| ts <= MAX_TIMESTAMP implies key@ != #[trigger] key_text(
                    ts,
                ) by {
                    lemma_key_fields(ts);
                    if key@ == key_text(ts) {
                        assert forall|i: int| 0 <= i < key@.len() implies '\0' <= #[trigger] key@[i]
                            <= '\u{7f}' by {
                            assert(48 <= key_bytes(ts)[i] <= 57);
                        }
                    }
                }
            }
            return Err(TimeseriesSerializationError::InvalidKey);
        }
        let bytes = key.as_bytes();
        proof {
            is_ascii_spec_bytes(key);
            vstd::utf8::is_ascii_chars_nat_bound(key@);
        }
        match parse_key_digits(bytes) {
            Some(ts) => {
                proof {
                    lemma_key_fields(ts);
                    assert(key@ =~= key_text(ts)) by {
                        assert forall|i: int| 0 <= i < key@.len() implies key@[i] == key_text(
                            ts,
                        )[i] by {
                            assert(bytes@[i] == key@[i] as u8);
                            assert(48 <= key_bytes(ts)[i] <= 57);
                        }
                    }
                }
                Ok(ts)
            },
            None => {
                proof {
                    assert forall|ts: u64| ts <= MAX_TIMESTAMP implies key@ != #[trigger] key_text(
                        ts,
                    ) by {
                        lemma_key_fields(ts);
                        if key@ == key_text(ts) {
                            assert(bytes@ =~= key_bytes(ts)) by {
                                assert forall|i: int| 0 <= i < bytes@.len() implies bytes@[i]
                                    == key_bytes(ts)[i] by {
                                    assert(bytes@[i] == key@[i] as u8);
                                    assert(48 <= key_bytes(ts)[i] <= 57);
                                }
                            }
                        }
                    }
                }
                Err(TimeseriesSerializationError::InvalidKey)
            },
        }
    }

    /// An empty series.
    pub fn new() -> (r: Self)
        ensures
            r.wf(),
            r.points() == Seq::<(u64, T)>::empty(),
            r@ == Map::<u64, T>::empty(),
    {
        let r = TimeSeries { timestamps: Vec::new(), values: Vec::new() };
        assert(r.points() =~= Seq::<(u64, T)>::empty());
        assert(r@ =~= Map::<u64, T>::empty());
        r
    }

    /// The number of points.
    pub fn len(&self) -> (r: usize)
        ensures
            r == self.timestamps@.len(),
    {
        self.timestamps.len()
    }

    /// Whether the series has no point.
    pub fn is_empty(&self) -> (r: bool)
        ensures
            r == (self.timestamps@.len() == 0),
    {
        self.timestamps.len() == 0
    }

    /// Removes all points.
    pub fn clear(&mut self)
        ensures
            final(self).wf(),
            final(self).points() == Seq::<(u64, T)>::empty(),
            final(self)@ == Map::<u64, T>::empty(),
    {
        self.timestamps.clear();
        self.values.clear();
        assert(self.points() =~= Seq::<(u64, T)>::empty());
        assert(self@ =~= Map::<u64, T>::empty());
    }

    /// The smallest timestamp, if there is a point.
    pub fn first_timestamp(&self) -> (r: Option<u64>)
        requires
            self.wf(),
        ensures
            r == if self.points().len() == 0 {
                None
            } else {
                Some(self.points()[0].0)
            },
    {
        if self.timestamps.len() == 0 {
            None
        } else {
            Some(self.timestamps[0])
        }
    }

    /// The point with the largest timestamp, if there is a point.
    pub fn latest(&self) -> (r: Option<(u64, T)>)
        requires
            self.wf(),
        ensures
            r == if self.points().len() == 0 {
                None
            } else {
                Some(self.points().last())
            },
    {
        let n = self.timestamps.len();
        if n == 0 {
            None
        } else {
            Some((self.timestamps[n - 1], self.values[n - 1]))
        }
    }

    /// The position of the first point whose timestamp is at least `ts`.
    fn lower_bound(&self, ts: u64) -> (i: usize)
        requires
            self.wf(),
        ensures
            i <= self.timestamps@.len(),
            forall|k: int| 0 <= k < i ==> (#[trigger] self.points()[k]).0 < ts,
            forall|k: int| i <= k < self.timestamps@.len() ==> ts <= (#[trigger] self.points()[k]).0,
    {
        let mut i: usize = 0;
        while i < self.timestamps.len() && self.timestamps[i] < ts
            invariant
                self.wf(),
                i <= self.timestamps@.len(),
                forall|k: int| 0 <= k < i ==> (#[trigger] self.points()[k]).0 < ts,
            decreases self.timestamps@.len() - i,
        {
            i += 1;
        }
        assert forall|k: int| i <= k < self.timestamps@.len() implies ts <= (
        #[trigger] self.points()[k]).0 by {
            if i < k {
                assert(self.points()[i as int].0 < self.points()[k].0);
            }
        }
        i
    }

    /// The value recorded at `ts`, if any.
    pub fn get_value_for_timestamp(&self, ts: u64) -> (r: Option<&T>)
        requires
            self.wf(),
        ensures
            match r {
                Some(v) => self@.contains_key(ts) && *v == self@[ts],
                None => !self@.contains_key(ts),
            },
    {
        let i = self.lower_bound(ts);
        if i < self.timestamps.len() && self.timestamps[i] == ts {
            proof {
                lemma_map_of_point(self.points(), i as int);
            }
            Some(&self.values[i])
        } else {
            proof {
                if has_point(self.points(), ts) {
                    let k = choose|k: int|
                        0 <= k < self.points().len() && (#[trigger] self.points()[k]).0 == ts;
                    if k < i {
                        assert(self.points()[k].0 < ts);
                    } else {
                        assert(self.points()[i as int].0 <= self.points()[k].0);
                        if k > i {
                            assert(self.points()[i as int].0 < self.points()[k].0);
                        }
                    }
                }
            }
            None
        }
    }

    /// Records `value` at `ts`. A value already recorded at `ts` is replaced.
    pub fn add_point(&mut self, ts: u64, value: T)
        requires
            old(self).wf(),
        ensures
            final(self).wf(),
            final(self)@ == old(self)@.insert(ts, value),
    {
        let i = self.lower_bound(ts);
        let ghost before = self.points();
        if i < self.timestamps.len() && self.timestamps[i] == ts {
            self.values.set(i, value);
            proof {
                lemma_map_of_update(before, i as int, value);
                assert(self.points() =~= before.update(i as int, (ts, value)));
            }
        } else {
            proof {
                assert forall|k: int| i <= k < before.len() implies ts < (#[trigger] before[k]).0 by {
                    if k > i {
                        assert(before[i as int].0 < before[k].0);
                    }
                }
                lemma_map_of_insert(before, i as int, ts, value);
            }
            self.timestamps.insert(i, ts);
            self.values.insert(i, value);
            assert(self.points() =~= before.insert(i as int, (ts, value)));
        }
    }

    /// Adds all points of `other`. Where both series have a point at the same
    /// timestamp, the value of `other` is kept.
    pub fn merge(&mut self, other: &TimeSeries<T>)
        requires
            old(self).wf(),
            other.wf(),
        ensures
            final(self).wf(),
            final(self)@ == old(self)@.union_prefer_right(other@),
    {
        let ghost start = self@;
        let mut i: usize = 0;
        assert(map_of(other.points().take(0)) =~= Map::<u64, T>::empty());
        assert(start.union_prefer_right(Map::<u64, T>::empty()) =~= start);
        while i < other.timestamps.len()
            invariant
                self.wf(),
                other.wf(),
                i <= other.timestamps@.len(),
                self@ == start.union_prefer_right(map_of(other.points().take(i as int))),
            decreases other.timestamps@.len() - i,
        {
            let ghost pre = other.points().take(i as int);
            let ghost next = other.points().take(i + 1);
            proof {
                assert(ascending(pre));
                assert(next =~= pre.insert(i as int, other.points()[i as int]));
                lemma_map_of_insert(pre, i as int, other.points()[i as int].0, other.points()[i as int].1);
                assert(start.union_prefer_right(map_of(pre)).insert(
                    other.points()[i as int].0,
                    other.points()[i as int].1,
                ) =~= start.union_prefer_right(map_of(next)));
            }
            self.add_point(other.timestamps[i], other.values[i]);
            i += 1;
        }
        assert(other.points().take(i as int) =~= other.points());
    }

    /// All points in storage order.
    pub fn iter(&self) -> (r: Vec<(u64, T)>)
        requires
            self.wf(),
        ensures
            r@ == self.points(),
    {
        let mut out: Vec<(u64, T)> = Vec::new();
        let mut i: usize = 0;
        while i < self.timestamps.len()
            invariant
                self.wf(),
                i <= self.timestamps@.len(),
                out@ == self.points().take(i as int),
            decreases self.timestamps@.len() - i,
        {
            out.push((self.timestamps[i], self.values[i]));
            assert(out@ =~= self.points().take(i + 1));
            i += 1;
        }
        assert(self.points().take(i as int) =~= self.points());
        out
    }

    /// The points whose timestamps lie in `[min, max]`, in ascending order.
    pub fn range(&self, min: u64, max: u64) -> (r: Vec<(u64, T)>)
        requires
            self.wf(),
        ensures
            r@ == within(self.points(), min, max),
    {
        let mut out: Vec<(u64, T)> = Vec::new();
        let mut i: usize = 0;
        let ghost keep = |p: (u64, T)| min <= p.0 <= max;
        assert(self.points().take(0).filter(keep) =~= Seq::empty()) by {
            assert(self.points().take(0) =~= Seq::empty());
        }
        while i < self.timestamps.len()
            invariant
                self.wf(),
                i <= self.timestamps@.len(),
                keep == |p: (u64, T)| min <= p.0 <= max,
                out@ == self.points().take(i as int).filter(keep),
            decreases self.timestamps@.len() - i,
        {
            let ts = self.timestamps[i];
            proof {
                let pre = self.points().take(i as int);
                let next = self.points().take(i + 1);
                assert(next =~= pre.push(self.points()[i as int]));
                lemma_filter_push(pre, self.points()[i as int], keep);
            }
            if min <= ts && ts <= max {
                out.push((ts, self.values[i]));
            }
            i += 1;
        }
        assert(self.points().take(i as int) =~= self.points());
        out
    }

    /// Keeps only the points whose timestamps lie in `[min, max]`.
    pub fn trim(&mut self, min: u64, max: u64)
        requires
            old(self).wf(),
        ensures
            final(self).wf(),
            final(self).points() == within(old(self).points(), min, max),
            final(self)@ == old(self)@.restrict(Set::new(|ts: u64| min <= ts <= max)),
    {
        let kept = self.range(min, max);
        let ghost before = self.points();
        proof {
            lemma_within(before, min, max);
        }
        let mut timestamps: Vec<u64> = Vec::new();
        let mut values: Vec<T> = Vec::new();
        let mut i: usize = 0;
        while i < kept.len()
            invariant
                i <= kept@.len(),
                timestamps@.len() == i,
                values@.len() == i,
                forall|k: int| 0 <= k < i ==> kept@[k] == (#[trigger] timestamps@[k], values@[k]),
            decreases kept@.len() - i,
        {
            timestamps.push(kept[i].0);
            values.push(kept[i].1);
            i += 1;
        }
        self.timestamps = timestamps;
        self.values = values;
        assert(self.points() =~= kept@);
    }

    /// Keeps only the `n` points with the largest timestamps.
    pub fn keep_last(&mut self, n: usize)
        requires
            old(self).wf(),
        ensures
            final(self).wf(),
            final(self).points() == if old(self).points().len() <= n {
                old(self).points()
            } else {
                old(self).points().skip(old(self).points().len() - n)
            },
    {
        let len = self.timestamps.len();
        if len > n {
            let ghost before = self.points();
            let drop = len - n;
            let mut timestamps: Vec<u64> = Vec::new();
            let mut values: Vec<T> = Vec::new();
            let mut i: usize = drop;
            while i < len
                invariant
                    self.wf(),
                    len == self.timestamps@.len(),
                    drop <= i <= len,
                    timestamps@.len() == i - drop,
                    values@.len() == i - drop,
                    forall|k: int|
                        0 <= k < i - drop ==> (#[trigger] timestamps@[k]) == self.timestamps@[k
                            + drop] && values@[k] == self.values@[k + drop],
                decreases len - i,
            {
                timestamps.push(self.timestamps[i]);
                values.push(self.values[i]);
                i += 1;
            }
            self.timestamps = timestamps;
            self.values = values;
            assert(self.points() =~= before.skip(before.len() - n));
            assert forall|a: int, b: int| 0 <= a < b < self.points().len() implies (
            #[trigger] self.points()[a]).0 < (#[trigger] self.points()[b]).0 by {
                assert(before[a + drop].0 < before[b + drop].0);
            }
        }
    }

    /// Splits the series into one series per one-hour window that holds a
    /// point, in ascending order of time.
    pub fn buckets(&self) -> (r: Vec<TimeSeries<T>>)
        requires
            self.wf(),
        ensures
            joined(r@, r@.len()) == self.points(),
            forall|k: int|
                0 <= k < r@.len() ==> {
                    &&& (#[trigger] r@[k]).wf()
                    &&& r@[k].points().len() > 0
                    &&& forall|i: int|
                        0 <= i < r@[k].points().len() ==> hour_index(
                            (#[trigger] r@[k].points()[i]).0,
                        ) == hour_index(r@[k].points()[0].0)
                },
            forall|k: int|
                0 <= k < r@.len() - 1 ==> hour_index((#[trigger] r@[k]).points()[0].0) < hour_index(
                    r@[k + 1].points()[0].0,
                ),
    {
        let mut out: Vec<TimeSeries<T>> = Vec::new();
        let n = self.timestamps.len();
        if n == 0 {
            assert(self.points() =~= Seq::empty());
            return out;
        }
        let mut current: TimeSeries<T> = TimeSeries { timestamps: Vec::new(), values: Vec::new() };
        current.timestamps.push(self.timestamps[0]);
        current.values.push(self.values[0]);
        let mut i: usize = 1;
        assert(current.points() =~= self.points().take(1));
        assert(joined(out@, 0) + current.points() =~= self.points().take(1));
        while i < n
            invariant
                self.wf(),
                n == self.timestamps@.len(),
                1 <= i <= n,
                current.timestamps@.len() == current.values@.len(),
                current.points().len() > 0,
                current.points().len() <= i,
                current.points() == self.points().subrange(i - current.points().len(), i as int),
                joined(out@, out@.len()) + current.points() == self.points().take(i as int),
                forall|j: int|
                    0 <= j < current.points().len() ==> hour_index(
                        (#[trigger] current.points()[j]).0,
                    ) == hour_index(current.points()[0].0),
                forall|k: int|
                    0 <= k < out@.len() ==> {
                        &&& (#[trigger] out@[k]).wf()
                        &&& out@[k].points().len() > 0
                        &&& forall|j: int|
                            0 <= j < out@[k].points().len() ==> hour_index(
                                (#[trigger] out@[k].points()[j]).0,
                            ) == hour_index(out@[k].points()[0].0)
                    },
                forall|k: int|
                    0 <= k < out@.len() - 1 ==> hour_index((#[trigger] out@[k]).points()[0].0)
                        < hour_index(out@[k + 1].points()[0].0),
                out@.len() > 0 ==> hour_index(out@.last().points()[0].0) < hour_index(
                    current.points()[0].0,
                ),
            decreases n - i,
        {
            let ts = self.timestamps[i];
            let ghost cur_pts = current.points();
            let ghost clen = cur_pts.len();
            assert(cur_pts[0] == self.points()[i - clen]);
            assert(cur_pts[clen - 1] == self.points()[i - 1]);
            if ts / BUCKET_SECONDS == current.timestamps[0] / BUCKET_SECONDS {
                current.timestamps.push(ts);
                current.values.push(self.values[i]);
                assert(current.points() =~= cur_pts.push(self.points()[i as int]));
                assert(current.points() =~= self.points().subrange(i - clen, i + 1));
                assert(self.points().take(i + 1) =~= self.points().take(i as int).push(
                    self.points()[i as int],
                ));
            } else {
                proof {
                    // timestamps grow, so a new window is a later window
                    assert(self.points()[i - clen].0 < self.points()[i as int].0);
                    assert(hour_index(cur_pts[0].0) < hour_index(ts)) by {
                        assert(cur_pts[0].0 < ts);
                        assert(cur_pts[0].0 as int / 3600 <= ts as int / 3600) by (nonlinear_arith)
                            requires
                                cur_pts[0].0 < ts,
                        ;
                    }
                    assert(ascending(cur_pts)) by {
                        assert forall|a: int, b: int| 0 <= a < b < cur_pts.len() implies (
                        #[trigger] cur_pts[a]).0 < (#[trigger] cur_pts[b]).0 by {
                            assert(self.points()[a + i - clen].0 < self.points()[b + i - clen].0);
                        }
                    }
                }
                let ghost done = out@;
                let mut fresh: TimeSeries<T> = TimeSeries {
                    timestamps: Vec::new(),
                    values: Vec::new(),
                };
                fresh.timestamps.push(ts);
                fresh.values.push(self.values[i]);
                std::mem::swap(&mut current, &mut fresh);
                out.push(fresh);
                proof {
                    assert(out@ == done.push(fresh));
                    lemma_joined_push(done, fresh);
                    assert(current.points() =~= seq![self.points()[i as int]]);
                    assert(current.points() =~= self.points().subrange(i as int, i + 1));
                    assert(self.points().take(i + 1) =~= self.points().take(i as int)
                        + current.points());
                    assert forall|k: int| 0 <= k < out@.len() - 1 implies hour_index(
                        (#[trigger] out@[k]).points()[0].0,
                    ) < hour_index(out@[k + 1].points()[0].0) by {
                        if k < done.len() - 1 {
                            assert(out@[k] == done[k]);
                            assert(out@[k + 1] == done[k + 1]);
                        } else {
                            assert(out@[k] == done.last());
                        }
                    }
                }
            }
            i += 1;
        }
        proof {
            let ghost cur_pts = current.points();
            let ghost clen = cur_pts.len();
            assert forall|a: int, b: int| 0 <= a < b < cur_pts.len() implies (#[trigger] cur_pts[a]).0
                < (#[trigger] cur_pts[b]).0 by {
                assert(self.points()[a + i - clen].0 < self.points()[b + i - clen].0);
            }
            lemma_joined_push(out@, current);
            assert(self.points().take(i as int) =~= self.points());
        }
        let ghost done = out@;
        out.push(current);
        proof {
            assert forall|k: int| 0 <= k < out@.len() - 1 implies hour_index(
                (#[trigger] out@[k]).points()[0].0,
            ) < hour_index(out@[k + 1].points()[0].0) by {
                if k < done.len() - 1 {
                    assert(out@[k] == done[k]);
                    assert(out@[k + 1] == done[k + 1]);
                } else {
                    assert(out@[k] == done.last());
                }
            }
        }
        out
    }
}

/// Filtering a list with one more point filters the list and then decides
/// on the point.
pub proof fn lemma_filter_push<A>(s: Seq<A>, a: A, keep: spec_fn(A) -> bool)
    ensures
        s.push(a).filter(keep) == if keep(a) {
            s.filter(keep).push(a)
        } else {
            s.filter(keep)
        },
{
    reveal(Seq::filter);
    assert(s.push(a).drop_last() =~= s);
}

/// The points of an ascending list that lie in a window are ascending, and
/// stand for the map restricted to the window.
pub proof fn lemma_within<T>(pts: Seq<(u64, T)>, min: u64, max: u64)
    requires
        ascending(pts),
    ensures
        ascending(within(pts, min, max)),
        map_of(within(pts, min, max)) == map_of(pts).restrict(Set::new(|ts: u64| min <= ts <= max)),
    decreases pts.len(),
{
    let keep = |p: (u64, T)| min <= p.0 <= max;
    let window = Set::new(|ts: u64| min <= ts <= max);
    if pts.len() == 0 {
        reveal(Seq::filter);
        assert(within(pts, min, max) =~= Seq::empty());
        assert(map_of(within(pts, min, max)) =~= map_of(pts).restrict(window));
    } else {
        let pre = pts.drop_last();
        let last = pts.last();
        assert(ascending(pre));
        lemma_within(pre, min, max);
        assert(pts =~= pre.push(last));
        lemma_filter_push(pre, last, keep);
        let fpre = within(pre, min, max);
        assert forall|k: int| 0 <= k < fpre.len() implies (#[trigger] fpre[k]).0 < last.0 by {
            assert(fpre.contains(fpre[k]));
            pre.lemma_filter_contains_rev(keep, fpre[k]);
            assert(pre.contains(fpre[k]));
            let j = choose|j: int| 0 <= j < pre.len() && pre[j] == fpre[k];
            assert(pts[j].0 < pts[pts.len() - 1].0);
        }
        lemma_map_of_insert(pre, pre.len() as int, last.0, last.1);
        assert(pts =~= pre.insert(pre.len() as int, last));
        if keep(last) {
            lemma_map_of_insert(fpre, fpre.len() as int, last.0, last.1);
            assert(fpre.push(last) =~= fpre.insert(fpre.len() as int, last));
            assert(map_of(pre).restrict(window).insert(last.0, last.1) =~= map_of(pre).insert(
                last.0,
                last.1,
            ).restrict(window));
        } else {
            assert(map_of(pre).restrict(window) =~= map_of(pre).insert(last.0, last.1).restrict(
                window,
            ));
        }
    }
}

/// Joining one more series appends its points.
pub proof fn lemma_joined_push<T>(parts: Seq<TimeSeries<T>>, part: TimeSeries<T>)
    ensures
        joined(parts.push(part), parts.len() + 1) == joined(parts, parts.len()) + part.points(),
{
    lemma_joined_prefix(parts, part, parts.len());
}

proof fn lemma_joined_prefix<T>(parts: Seq<TimeSeries<T>>, part: TimeSeries<T>, n: nat)
    requires
        n <= parts.len(),
    ensures
        joined(parts.push(part), n) == joined(parts, n),
    decreases n,
{
    if n > 0 {
        lemma_joined_prefix(parts, part, (n - 1) as nat);
        assert(parts.push(part)[n - 1] == parts[n - 1]);
    }
}

/// Merging two series that share no timestamp gives the same series in
/// either order.
pub proof fn lemma_merge_commutes<T>(
    a: TimeSeries<T>,
    b: TimeSeries<T>,
    ab: TimeSeries<T>,
    ba: TimeSeries<T>,
)
    requires
        ab.wf(),
        ba.wf(),
        a@.dom().disjoint(b@.dom()),
        ab@ == a@.union_prefer_right(b@),
        ba@ == b@.union_prefer_right(a@),
    ensures
        ab.points() == ba.points(),
        ab.timestamps@ == ba.timestamps@,
        ab.values@ == ba.values@,
{
    assert(a@.union_prefer_right(b@) =~= b@.union_prefer_right(a@));
    lemma_map_of_injective(ab.points(), ba.points());
    assert(ab.timestamps@ =~= ba.timestamps@) by {
        assert forall|i: int| 0 <= i < ab.timestamps@.len() implies ab.timestamps@[i]
            == ba.timestamps@[i] by {
            assert(ab.points()[i] == ba.points()[i]);
        }
    }
    assert(ab.values@ =~= ba.values@) by {
        assert forall|i: int| 0 <= i < ab.values@.len() implies ab.values@[i] == ba.values@[i] by {
            assert(ab.points()[i] == ba.points()[i]);
        }
    }
}


/// A key read back names the start of the hour of the timestamp it was
/// written for.
pub proof fn lemma_key_round_trip(ts: u64, back: u64)
    requires
        ts <= MAX_TIMESTAMP,
        back <= MAX_TIMESTAMP,
        back % HOUR == 0,
        key_text(back) == key_text(ts),
    ensures
        back == ts - ts % HOUR,
{
    lemma_key_fields(ts);
    lemma_key_fields(back);
    assert(key_bytes(back) =~= key_bytes(ts)) by {
        assert forall|i: int| 0 <= i < KEY_WIDTH implies key_bytes(back)[i] == key_bytes(ts)[i] by {
            assert(key_text(back)[i] == key_text(ts)[i]);
            assert(48 <= key_bytes(ts)[i] <= 57);
            assert(48 <= key_bytes(back)[i] <= 57);
            assert(key_text(ts)[i] as u8 == key_bytes(ts)[i]);
            assert(key_text(back)[i] as u8 == key_bytes(back)[i]);
        }
    }
    crate::keys::lemma_key_names_hour(back, ts);
}

} // verus!
