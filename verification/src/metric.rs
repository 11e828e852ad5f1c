//! Metric values, series of them, and the binary form in which a bucket of a
//! series is stored.

use vstd::prelude::*;
use vstd::bytes::{
    lemma_auto_spec_u32_to_from_le_bytes, lemma_auto_spec_u64_to_from_le_bytes,
    spec_u32_from_le_bytes, spec_u32_to_le_bytes, spec_u64_from_le_bytes, spec_u64_to_le_bytes,
    u32_from_le_bytes, u32_to_le_bytes, u64_from_le_bytes, u64_to_le_bytes,
};
use vstd::slice::slice_subrange;
use crate::float::{float_from_i64, float_of_int, float_to_i64, float_truncated};
use crate::timeseries::{ascending, TimeSeries};

verus! {

/// A position on the globe. Latitude and longitude are doubles, held as their
/// IEEE-754 bit patterns.
#[derive(Clone, Copy, Debug, PartialEq, Eq, Structural)]
pub struct LatLong {
    pub lat: u64,
    pub lon: u64,
}

impl LatLong {
    /// The position with the given latitude and longitude.
    pub fn new(lat: u64, lon: u64) -> (r: Self)
        ensures
            r == (LatLong { lat, lon }),
    {
        LatLong { lat, lon }
    }
}

/// A value of a metric: a double (held as its IEEE-754 bit pattern), an
/// integer or a position.
#[derive(Clone, Copy, Debug, PartialEq, Eq, Structural)]
pub enum MetricValue {
    Float(u64),
    Int(i64),
    Location(LatLong),
}

/// A series of metric values.
pub type MetricTimeSeries = TimeSeries<MetricValue>;

/// The forms in which a series can be asked for.
#[derive(Clone, Copy, Debug, PartialEq, Eq, Structural)]
pub enum SerializationFormat {
    Binary,
    Json,
}

/// Why a series could not be written or read.
#[derive(Clone, Copy, Debug, PartialEq, Eq, Structural)]
pub enum TimeseriesSerializationError {
    /// The form asked for is not one in which buckets are stored.
    UnsupportedFormat,
    /// The series holds values of more than one kind.
    MixedValueKinds,
    /// The series has more points than the count field can hold.
    TooManyPoints,
    /// The bytes are not the binary form of any series.
    InvalidData,
    /// The text is not the time field of any key.
    InvalidKey,
}

impl TimeseriesSerializationError {
    /// The description of the error.
    pub open spec fn to_string_spec(self) -> Seq<char> {
        match self {
            TimeseriesSerializationError::UnsupportedFormat => "Unsupported format"@,
            TimeseriesSerializationError::MixedValueKinds => "Mixed value kinds"@,
            TimeseriesSerializationError::TooManyPoints => "Too many points"@,
            TimeseriesSerializationError::InvalidData => "Invalid data"@,
            TimeseriesSerializationError::InvalidKey => "Invalid key"@,
        }
    }

    /// A description of the error.
    pub fn to_string(&self) -> (r: String)
        ensures
            r@ == self.to_string_spec(),
    {
        match self {
            TimeseriesSerializationError::UnsupportedFormat => "Unsupported format".to_owned(),
            TimeseriesSerializationError::MixedValueKinds => "Mixed value kinds".to_owned(),
            TimeseriesSerializationError::TooManyPoints => "Too many points".to_owned(),
            TimeseriesSerializationError::InvalidData => "Invalid data".to_owned(),
            TimeseriesSerializationError::InvalidKey => "Invalid key".to_owned(),
        }
    }
}

/// The first word of every stored bucket: format and version.
pub const MAGIC: u32 = 0x54530001;

/// Length of the header: magic, kind and count.
pub const HEADER_LEN: usize = 9;

/// Kind byte of a series of doubles, and of the empty series.
pub const KIND_FLOAT: u8 = 0;

/// Kind byte of a series of integers.
pub const KIND_INT: u8 = 1;

/// Kind byte of a series of positions.
pub const KIND_LOCATION: u8 = 2;

/// The kind byte of a value.
pub open spec fn kind_of(v: MetricValue) -> u8 {
    match v {
        MetricValue::Float(_) => KIND_FLOAT,
        MetricValue::Int(_) => KIND_INT,
        MetricValue::Location(_) => KIND_LOCATION,
    }
}

/// The number of bytes that a value of the given kind takes.
pub open spec fn value_size(kind: u8) -> nat {
    if kind == KIND_LOCATION {
        16
    } else {
        8
    }
}

/// The kind byte of a series: that of its first value, or that of doubles
/// when it is empty.
pub open spec fn series_kind(pts: Seq<(u64, MetricValue)>) -> u8 {
    if pts.len() == 0 {
        KIND_FLOAT
    } else {
        kind_of(pts[0].1)
    }
}

/// Whether all values of a series are of one kind.
pub open spec fn homogeneous(pts: Seq<(u64, MetricValue)>) -> bool {
    forall|i: int| 0 <= i < pts.len() ==> kind_of((#[trigger] pts[i]).1) == series_kind(pts)
}

/// Whether a series can be stored: ascending, of one kind, and short enough
/// for the count field.
pub open spec fn storable(pts: Seq<(u64, MetricValue)>) -> bool {
    &&& ascending(pts)
    &&& homogeneous(pts)
    &&& pts.len() <= u32::MAX
}

/// The bytes of a value: a double or an integer as eight little-endian bytes,
/// a position as latitude then longitude.
pub open spec fn value_bytes(v: MetricValue) -> Seq<u8> {
    match v {
        MetricValue::Float(bits) => spec_u64_to_le_bytes(bits),
        MetricValue::Int(i) => spec_u64_to_le_bytes(i as u64),
        MetricValue::Location(p) => spec_u64_to_le_bytes(p.lat) + spec_u64_to_le_bytes(p.lon),
    }
}

/// The value that the bytes of a value of the given kind denote.
pub open spec fn value_from(kind: u8, bytes: Seq<u8>) -> MetricValue {
    if kind == KIND_LOCATION {
        MetricValue::Location(
            LatLong {
                lat: spec_u64_from_le_bytes(bytes.subrange(0, 8)),
                lon: spec_u64_from_le_bytes(bytes.subrange(8, 16)),
            },
        )
    } else if kind == KIND_INT {
        MetricValue::Int(spec_u64_from_le_bytes(bytes) as i64)
    } else {
        MetricValue::Float(spec_u64_from_le_bytes(bytes))
    }
}

/// The header of a stored bucket.
pub open spec fn header(kind: u8, count: nat) -> Seq<u8> {
    spec_u32_to_le_bytes(MAGIC) + seq![kind] + spec_u32_to_le_bytes(count as u32)
}

/// The timestamps of the first `n` points, eight little-endian bytes each.
pub open spec fn stamp_bytes(pts: Seq<(u64, MetricValue)>, n: nat) -> Seq<u8>
    decreases n,
{
    if n == 0 || n > pts.len() {
        Seq::empty()
    } else {
        stamp_bytes(pts, (n - 1) as nat) + spec_u64_to_le_bytes(pts[n - 1].0)
    }
}

/// The values of the first `n` points, one after the other.
pub open spec fn payload_bytes(pts: Seq<(u64, MetricValue)>, n: nat) -> Seq<u8>
    decreases n,
{
    if n == 0 || n > pts.len() {
        Seq::empty()
    } else {
        payload_bytes(pts, (n - 1) as nat) + value_bytes(pts[n - 1].1)
    }
}

/// The binary form of a series: header, timestamps, values.
pub open spec fn encoded(pts: Seq<(u64, MetricValue)>) -> Seq<u8> {
    header(series_kind(pts), pts.len()) + stamp_bytes(pts, pts.len()) + payload_bytes(
        pts,
        pts.len(),
    )
}

proof fn lemma_value_bytes(v: MetricValue)
    ensures
        value_bytes(v).len() == value_size(kind_of(v)),
        value_from(kind_of(v), value_bytes(v)) == v,
{
    lemma_auto_spec_u64_to_from_le_bytes();
    match v {
        MetricValue::Float(bits) => {},
        MetricValue::Int(i) => {
            assert((i as u64) as i64 == i) by (bit_vector);
        },
        MetricValue::Location(p) => {
            let a = spec_u64_to_le_bytes(p.lat);
            let b = spec_u64_to_le_bytes(p.lon);
            assert((a + b).subrange(0, 8) =~= a);
            assert((a + b).subrange(8, 16) =~= b);
        },
    }
}

proof fn lemma_value_from(kind: u8, bytes: Seq<u8>)
    requires
        kind <= KIND_LOCATION,
        bytes.len() == value_size(kind),
    ensures
        kind_of(value_from(kind, bytes)) == kind,
        value_bytes(value_from(kind, bytes)) == bytes,
{
    lemma_auto_spec_u64_to_from_le_bytes();
    if kind == KIND_LOCATION {
        let a = bytes.subrange(0, 8);
        let b = bytes.subrange(8, 16);
        assert(spec_u64_to_le_bytes(spec_u64_from_le_bytes(a)) == a);
        assert(spec_u64_to_le_bytes(spec_u64_from_le_bytes(b)) == b);
        assert(a + b =~= bytes);
    } else if kind == KIND_INT {
        let u = spec_u64_from_le_bytes(bytes);
        assert((u as i64) as u64 == u) by (bit_vector);
        assert(spec_u64_to_le_bytes(u) == bytes);
    } else {
        assert(spec_u64_to_le_bytes(spec_u64_from_le_bytes(bytes)) == bytes);
    }
}

/// Where the parts of the binary form of a storable series lie, and what
/// they hold.
proof fn lemma_encoded_layout(pts: Seq<(u64, MetricValue)>, n: nat)
    requires
        homogeneous(pts),
        n <= pts.len(),
    ensures
        stamp_bytes(pts, n).len() == 8 * n,
        payload_bytes(pts, n).len() == value_size(series_kind(pts)) * n,
        forall|k: int|
            0 <= k < n ==> #[trigger] stamp_bytes(pts, n).subrange(8 * k, 8 * k + 8)
                == spec_u64_to_le_bytes(pts[k].0),
        forall|k: int|
            0 <= k < n ==> #[trigger] payload_bytes(pts, n).subrange(
                value_size(series_kind(pts)) * k,
                value_size(series_kind(pts)) * k + value_size(series_kind(pts)),
            ) == value_bytes(pts[k].1),
    decreases n,
{
    lemma_auto_spec_u64_to_from_le_bytes();
    let size = value_size(series_kind(pts));
    if n > 0 {
        lemma_encoded_layout(pts, (n - 1) as nat);
        let sp = stamp_bytes(pts, (n - 1) as nat);
        let pp = payload_bytes(pts, (n - 1) as nat);
        let s = stamp_bytes(pts, n);
        let p = payload_bytes(pts, n);
        lemma_value_bytes(pts[n - 1].1);
        assert(kind_of(pts[n - 1].1) == series_kind(pts));
        assert(size * n == size * (n - 1) + size) by (nonlinear_arith);
        assert forall|k: int| 0 <= k < n implies #[trigger] s.subrange(8 * k, 8 * k + 8)
            == spec_u64_to_le_bytes(pts[k].0) by {
            if k < n - 1 {
                assert(s.subrange(8 * k, 8 * k + 8) =~= sp.subrange(8 * k, 8 * k + 8));
            } else {
                assert(s.subrange(8 * k, 8 * k + 8) =~= spec_u64_to_le_bytes(pts[k].0));
            }
        }
        assert forall|k: int| 0 <= k < n implies #[trigger] p.subrange(size * k, size * k + size)
            == value_bytes(pts[k].1) by {
            if k < n - 1 {
                assert(size * k + size <= size * (n - 1)) by (nonlinear_arith)
                    requires
                        0 <= k < n - 1,
                        size >= 0,
                ;
                assert(0 <= size * k) by (nonlinear_arith)
                    requires
                        0 <= k,
                        size >= 0,
                ;
                assert(p.subrange(size * k, size * k + size) =~= pp.subrange(
                    size * k,
                    size * k + size,
                ));
            } else {
                assert(p.subrange(size * k, size * k + size) =~= value_bytes(pts[k].1));
            }
        }
    }
}

/// What a reader finds in the binary form of a storable series.
proof fn lemma_encoded_facts(pts: Seq<(u64, MetricValue)>)
    requires
        storable(pts),
    ensures
        encoded(pts).len() == HEADER_LEN + (8 + value_size(series_kind(pts))) * pts.len(),
        encoded(pts).subrange(0, 4) == spec_u32_to_le_bytes(MAGIC),
        encoded(pts)[4] == series_kind(pts),
        series_kind(pts) <= KIND_LOCATION,
        spec_u32_from_le_bytes(encoded(pts).subrange(5, 9)) == pts.len(),
        forall|k: int|
            0 <= k < pts.len() ==> spec_u64_from_le_bytes(
                #[trigger] encoded(pts).subrange(HEADER_LEN + 8 * k, HEADER_LEN + 8 * k + 8),
            ) == pts[k].0,
{
    lemma_auto_spec_u32_to_from_le_bytes();
    lemma_auto_spec_u64_to_from_le_bytes();
    let n = pts.len();
    let size = value_size(series_kind(pts));
    lemma_encoded_layout(pts, n);
    let e = encoded(pts);
    let h = header(series_kind(pts), n);
    assert(h.len() == 9);
    assert((8 + size) * n == 8 * n + size * n) by (nonlinear_arith);
    assert(e.subrange(0, 4) =~= spec_u32_to_le_bytes(MAGIC));
    assert(e.subrange(5, 9) =~= spec_u32_to_le_bytes(n as u32));
    assert forall|k: int| 0 <= k < n implies spec_u64_from_le_bytes(
        #[trigger] e.subrange(HEADER_LEN + 8 * k, HEADER_LEN + 8 * k + 8),
    ) == pts[k].0 by {
        assert(e.subrange(HEADER_LEN + 8 * k, HEADER_LEN + 8 * k + 8) =~= stamp_bytes(
            pts,
            n,
        ).subrange(8 * k, 8 * k + 8));
    }
}

impl MetricValue {
    /// The kind byte of the value.
    pub fn kind(&self) -> (r: u8)
        ensures
            r == kind_of(*self),
    {
        match self {
            MetricValue::Float(_) => KIND_FLOAT,
            MetricValue::Int(_) => KIND_INT,
            MetricValue::Location(_) => KIND_LOCATION,
        }
    }

    /// The value as a double: a double as it is, an integer as the nearest
    /// double, a position as nothing.
    pub fn into_float(self) -> (r: Option<u64>)
        ensures
            r == match self {
                MetricValue::Float(bits) => Some(bits),
                MetricValue::Int(i) => Some(float_of_int(i as int)),
                MetricValue::Location(_) => None::<u64>,
            },
    {
        match self {
            MetricValue::Float(bits) => Some(bits),
            MetricValue::Int(i) => Some(float_from_i64(i)),
            MetricValue::Location(_) => None,
        }
    }

    /// The value as an integer: an integer as it is, a double with its
    /// fraction cut off, a position as nothing.
    pub fn into_int(self) -> (r: Option<i64>)
        ensures
            match self {
                MetricValue::Float(bits) => r is Some && r->Some_0 == float_truncated(bits),
                MetricValue::Int(i) => r == Some(i),
                MetricValue::Location(_) => r is None,
            },
    {
        match self {
            MetricValue::Float(bits) => Some(float_to_i64(bits)),
            MetricValue::Int(i) => Some(i),
            MetricValue::Location(_) => None,
        }
    }

    /// The position, if the value is one.
    pub fn into_location(self) -> (r: Option<LatLong>)
        ensures
            r == match self {
                MetricValue::Location(p) => Some(p),
                _ => None::<LatLong>,
            },
    {
        match self {
            MetricValue::Location(p) => Some(p),
            _ => None,
        }
    }

    /// The series that holds this value at `ts` and nothing else.
    pub fn as_timeseries(self, ts: u64) -> (r: MetricTimeSeries)
        ensures
            r.wf(),
            r.points() == seq![(ts, self)],
            r@ == Map::<u64, MetricValue>::empty().insert(ts, self),
    {
        let mut r: MetricTimeSeries = TimeSeries::new();
        r.add_point(ts, self);
        proof {
            crate::timeseries::lemma_map_of_insert(Seq::<(u64, MetricValue)>::empty(), 0, ts, self);
            assert(Seq::<(u64, MetricValue)>::empty().insert(0, (ts, self)) =~= seq![(ts, self)]);
            crate::timeseries::lemma_map_of_injective(r.points(), seq![(ts, self)]);
        }
        r
    }
}

impl TimeSeries<MetricValue> {
    /// Whether all values are of one kind.
    pub fn is_homogeneous(&self) -> (r: bool)
        requires
            self.wf(),
        ensures
            r == homogeneous(self.points()),
    {
        if self.values.len() == 0 {
            return true;
        }
        let kind = self.values[0].kind();
        let mut i: usize = 1;
        while i < self.values.len()
            invariant
                self.wf(),
                1 <= i <= self.values@.len(),
                kind == series_kind(self.points()),
                forall|k: int| 0 <= k < i ==> kind_of((#[trigger] self.points()[k]).1) == kind,
            decreases self.values@.len() - i,
        {
            if self.values[i].kind() != kind {
                assert(kind_of(self.points()[i as int].1) != kind);
                return false;
            }
            i += 1;
        }
        true
    }

    /// Writes the series in its binary form.
    pub fn to_binary(&self) -> (r: Result<Vec<u8>, TimeseriesSerializationError>)
        requires
            self.wf(),
        ensures
            match r {
                Ok(bytes) => storable(self.points()) && bytes@ == encoded(self.points()),
                Err(e) => {
                    &&& !storable(self.points())
                    &&& e == if !homogeneous(self.points()) {
                        TimeseriesSerializationError::MixedValueKinds
                    } else {
                        TimeseriesSerializationError::TooManyPoints
                    }
                },
            },
    {
        if !self.is_homogeneous() {
            return Err(TimeseriesSerializationError::MixedValueKinds);
        }
        let n = self.timestamps.len();
        if n > u32::MAX as usize {
            return Err(TimeseriesSerializationError::TooManyPoints);
        }
        let kind = if n == 0 {
            KIND_FLOAT
        } else {
            self.values[0].kind()
        };
        let ghost pts = self.points();
        let mut out = u32_to_le_bytes(MAGIC);
        out.push(kind);
        let mut count = u32_to_le_bytes(n as u32);
        out.append(&mut count);
        assert(out@ =~= header(kind, n as nat));
        let mut i: usize = 0;
        while i < n
            invariant
                self.wf(),
                pts == self.points(),
                n == pts.len(),
                i <= n,
                out@ == header(kind, n as nat) + stamp_bytes(pts, i as nat),
            decreases n - i,
        {
            let mut b = u64_to_le_bytes(self.timestamps[i]);
            out.append(&mut b);
            assert(out@ =~= header(kind, n as nat) + stamp_bytes(pts, (i + 1) as nat));
            i += 1;
        }
        let mut j: usize = 0;
        assert(out@ =~= header(kind, n as nat) + stamp_bytes(pts, n as nat) + payload_bytes(pts, 0));
        while j < n
            invariant
                self.wf(),
                pts == self.points(),
                n == pts.len(),
                j <= n,
                out@ == header(kind, n as nat) + stamp_bytes(pts, n as nat) + payload_bytes(
                    pts,
                    j as nat,
                ),
            decreases n - j,
        {
            match self.values[j] {
                MetricValue::Float(bits) => {
                    let mut b = u64_to_le_bytes(bits);
                    out.append(&mut b);
                },
                MetricValue::Int(v) => {
                    let mut b = u64_to_le_bytes(#[verifier::truncate] (v as u64));
                    out.append(&mut b);
                },
                MetricValue::Location(p) => {
                    let mut b = u64_to_le_bytes(p.lat);
                    out.append(&mut b);
                    let mut c = u64_to_le_bytes(p.lon);
                    out.append(&mut c);
                },
            }
            assert(out@ =~= header(kind, n as nat) + stamp_bytes(pts, n as nat) + payload_bytes(
                pts,
                (j + 1) as nat,
            ));
            j += 1;
        }
        Ok(out)
    }

    /// Reads a series from its binary form.
    pub fn from_binary(data: &[u8]) -> (r: Result<MetricTimeSeries, TimeseriesSerializationError>)
        ensures
            match r {
                Ok(s) => s.wf() && storable(s.points()) && encoded(s.points()) == data@,
                Err(e) => {
                    &&& e == TimeseriesSerializationError::InvalidData
                    &&& forall|pts: Seq<(u64, MetricValue)>|
                        storable(pts) ==> #[trigger] encoded(pts) != data@
                },
            },
    {
        proof {
            lemma_auto_spec_u32_to_from_le_bytes();
            lemma_auto_spec_u64_to_from_le_bytes();
            assert forall|pts: Seq<(u64, MetricValue)>| #[trigger] storable(pts) implies {
                let e = encoded(pts);
                &&& e.len() == HEADER_LEN + (8 + value_size(series_kind(pts))) * pts.len()
                &&& e.subrange(0, 4) == spec_u32_to_le_bytes(MAGIC)
                &&& e[4] == series_kind(pts)
                &&& series_kind(pts) <= KIND_LOCATION
                &&& spec_u32_from_le_bytes(e.subrange(5, 9)) == pts.len()
            } by {
                lemma_encoded_facts(pts);
            }
        }
        if data.len() < HEADER_LEN {
            return Err(TimeseriesSerializationError::InvalidData);
        }
        let magic = u32_from_le_bytes(slice_subrange(data, 0, 4));
        if magic != MAGIC {
            return Err(TimeseriesSerializationError::InvalidData);
        }
        let kind = data[4];
        if kind > KIND_LOCATION {
            return Err(TimeseriesSerializationError::InvalidData);
        }
        let count = u32_from_le_bytes(slice_subrange(data, 5, 9)) as usize;
        let size: usize = if kind == KIND_LOCATION {
            16
        } else {
            8
        };
        if count == 0 && kind != KIND_FLOAT {
            return Err(TimeseriesSerializationError::InvalidData);
        }
        let body = data.len() - HEADER_LEN;
        if body / (8 + size) != count || body % (8 + size) != 0 {
            proof {
                assert forall|pts: Seq<(u64, MetricValue)>| storable(pts) implies #[trigger] encoded(
                    pts,
                ) != data@ by {
                    if encoded(pts) == data@ {
                        let w = (8 + size) as int;
                        let n = pts.len() as int;
                        assert(body == w * n);
                        assert((w * n) / w == n && (w * n) % w == 0) by (nonlinear_arith)
                            requires
                                w > 0,
                                n >= 0,
                        ;
                    }
                }
            }
            return Err(TimeseriesSerializationError::InvalidData);
        }
        assert(body == (8 + size) * count) by (nonlinear_arith)
            requires
                body as int / ((8 + size) as int) == count,
                body as int % ((8 + size) as int) == 0,
                8 + size > 0,
        ;
        assert((8 + size) * count == 8 * count + size * count) by (nonlinear_arith);
        let mut series: MetricTimeSeries = TimeSeries::new();
        let values_at = HEADER_LEN + 8 * count;
        let mut k: usize = 0;
        assert(header(kind, count as nat) =~= data@.subrange(0, HEADER_LEN as int)) by {
            assert(data@.subrange(0, 4) == spec_u32_to_le_bytes(MAGIC));
            assert(data@.subrange(5, 9) == spec_u32_to_le_bytes(count as u32));
            assert(header(kind, count as nat).len() == 9);
            assert forall|i: int| 0 <= i < 9 implies header(kind, count as nat)[i] == data@[i] by {
                if i < 4 {
                    assert(data@.subrange(0, 4)[i] == data@[i]);
                } else if i > 4 {
                    assert(data@.subrange(5, 9)[i - 5] == data@[i]);
                }
            }
        }
        while k < count
            invariant
                k <= count,
                kind <= KIND_LOCATION,
                size == value_size(kind),
                data@.len() <= usize::MAX,
                data@.len() == HEADER_LEN + 8 * count + size * count,
                values_at == HEADER_LEN + 8 * count,
                series.wf(),
                series.points().len() == k,
                k > 0 ==> series_kind(series.points()) == kind,
                homogeneous(series.points()),
                stamp_bytes(series.points(), k as nat) == data@.subrange(
                    HEADER_LEN as int,
                    HEADER_LEN + 8 * k,
                ),
                payload_bytes(series.points(), k as nat) == data@.subrange(
                    values_at as int,
                    values_at + size * k,
                ),
                forall|j: int|
                    0 <= j < k ==> (#[trigger] series.points()[j]).0 == spec_u64_from_le_bytes(
                        data@.subrange(HEADER_LEN + 8 * j, HEADER_LEN + 8 * j + 8),
                    ),
                forall|pts: Seq<(u64, MetricValue)>|
                    storable(pts) && #[trigger] encoded(pts) == data@ ==> pts.len() == count,
            decreases count - k,
        {
            assert(size * k + size <= size * count) by (nonlinear_arith)
                requires
                    k < count,
                    size >= 0,
            ;
            assert(0 <= size * k) by (nonlinear_arith)
                requires
                    size >= 0,
                    k >= 0,
            ;
            let ts_chunk = slice_subrange(data, HEADER_LEN + 8 * k, HEADER_LEN + 8 * k + 8);
            let ts = u64_from_le_bytes(ts_chunk);
            let at = values_at + size * k;
            let value = if kind == KIND_LOCATION {
                let lat = u64_from_le_bytes(slice_subrange(data, at, at + 8));
                let lon = u64_from_le_bytes(slice_subrange(data, at + 8, at + 16));
                MetricValue::Location(LatLong { lat, lon })
            } else if kind == KIND_INT {
                let u = u64_from_le_bytes(slice_subrange(data, at, at + 8));
                MetricValue::Int(#[verifier::truncate] (u as i64))
            } else {
                MetricValue::Float(u64_from_le_bytes(slice_subrange(data, at, at + 8)))
            };
            let ghost chunk = data@.subrange(at as int, at + size);
            proof {
                lemma_auto_spec_u64_to_from_le_bytes();
                assert(chunk.subrange(0, 8) =~= data@.subrange(at as int, at + 8));
                if kind == KIND_LOCATION {
                    assert(chunk.subrange(8, 16) =~= data@.subrange(at + 8, at + 16));
                } else {
                    assert(chunk =~= data@.subrange(at as int, at + 8));
                }
                assert(value == value_from(kind, chunk));
                lemma_value_from(kind, chunk);
            }
            let ghost before = series.points();
            if k > 0 {
                let last = series.timestamps[k - 1];
                if last >= ts {
                    proof {
                        assert(before[k - 1].0 == last);
                        assert forall|pts: Seq<(u64, MetricValue)>| storable(pts) implies #[trigger] encoded(
                            pts,
                        ) != data@ by {
                            if encoded(pts) == data@ {
                                lemma_encoded_facts(pts);
                                assert(encoded(pts).subrange(
                                    HEADER_LEN + 8 * (k - 1),
                                    HEADER_LEN + 8 * (k - 1) + 8,
                                ) == data@.subrange(
                                    HEADER_LEN + 8 * (k - 1),
                                    HEADER_LEN + 8 * (k - 1) + 8,
                                ));
                                assert(encoded(pts).subrange(
                                    HEADER_LEN + 8 * k,
                                    HEADER_LEN + 8 * k + 8,
                                ) == data@.subrange(HEADER_LEN + 8 * k, HEADER_LEN + 8 * k + 8));
                                assert(pts[k - 1].0 == last);
                                assert(pts[k as int].0 == ts);
                                assert(pts[k - 1].0 < pts[k as int].0);
                            }
                        }
                    }
                    return Err(TimeseriesSerializationError::InvalidData);
                }
            }
            series.timestamps.push(ts);
            series.values.push(value);
            proof {
                let after = series.points();
                assert(after =~= before.push((ts, value)));
                assert forall|a: int, b: int| 0 <= a < b < after.len() implies (#[trigger] after[a]).0
                    < (#[trigger] after[b]).0 by {
                    if b < k {
                        assert(before[a].0 < before[b].0);
                    } else if a < k - 1 {
                        assert(before[a].0 < before[k - 1].0);
                    }
                }
                lemma_stamp_bytes_prefix(before, after, k as nat);
                lemma_payload_bytes_prefix(before, after, k as nat);
                assert(stamp_bytes(after, (k + 1) as nat) =~= data@.subrange(
                    HEADER_LEN as int,
                    HEADER_LEN + 8 * (k + 1),
                )) by {
                    assert(spec_u64_to_le_bytes(ts) == ts_chunk@);
                }
                assert(size * (k + 1) == size * k + size) by (nonlinear_arith);
                assert(payload_bytes(after, (k + 1) as nat) =~= data@.subrange(
                    values_at as int,
                    values_at + size * (k + 1),
                ));
                assert forall|j: int| 0 <= j < after.len() implies kind_of((#[trigger] after[j]).1)
                    == series_kind(after) by {
                    if j < k {
                        assert(after[j] == before[j]);
                        assert(kind_of(before[j].1) == series_kind(before));
                    }
                    if k > 0 {
                        assert(after[0] == before[0]);
                    }
                }
            }
            k += 1;
        }
        proof {
            let pts = series.points();
            assert(encoded(pts) =~= data@) by {
                assert(size * count == data@.len() - values_at);
                assert(pts.len() == 0 ==> kind == KIND_FLOAT);
            }
        }
        Ok(series)
    }

    /// Writes the series in the given form. Only the binary form is one in
    /// which series are stored.
    pub fn serialize(&self, format: SerializationFormat) -> (r: Result<
        Vec<u8>,
        TimeseriesSerializationError,
    >)
        requires
            self.wf(),
        ensures
            match r {
                Ok(bytes) => format == SerializationFormat::Binary && storable(self.points())
                    && bytes@ == encoded(self.points()),
                Err(e) => e == if format != SerializationFormat::Binary {
                    TimeseriesSerializationError::UnsupportedFormat
                } else if !homogeneous(self.points()) {
                    TimeseriesSerializationError::MixedValueKinds
                } else {
                    TimeseriesSerializationError::TooManyPoints
                } && !(format == SerializationFormat::Binary && storable(self.points())),
            },
    {
        match format {
            SerializationFormat::Binary => self.to_binary(),
            SerializationFormat::Json => Err(TimeseriesSerializationError::UnsupportedFormat),
        }
    }

    /// Reads a series from the given form. Only the binary form is one in
    /// which series are stored.
    pub fn deserialize(data: &[u8], format: SerializationFormat) -> (r: Result<
        MetricTimeSeries,
        TimeseriesSerializationError,
    >)
        ensures
            match r {
                Ok(s) => format == SerializationFormat::Binary && s.wf() && storable(s.points())
                    && encoded(s.points()) == data@,
                Err(e) => if format != SerializationFormat::Binary {
                    e == TimeseriesSerializationError::UnsupportedFormat
                } else {
                    &&& e == TimeseriesSerializationError::InvalidData
                    &&& forall|pts: Seq<(u64, MetricValue)>|
                        storable(pts) ==> #[trigger] encoded(pts) != data@
                },
            },
    {
        match format {
            SerializationFormat::Binary => Self::from_binary(data),
            SerializationFormat::Json => Err(TimeseriesSerializationError::UnsupportedFormat),
        }
    }
}

/// Whether two series hold the same timestamps in the same order.
pub open spec fn same_times<A, B>(a: TimeSeries<A>, b: TimeSeries<B>) -> bool {
    a.timestamps@ == b.timestamps@ && a.values@.len() == b.values@.len()
}

impl TimeSeries<MetricValue> {
    /// The series as a series of doubles, if every value is a double.
    pub fn to_float_series(&self) -> (r: Option<TimeSeries<u64>>)
        requires
            self.wf(),
        ensures
            match r {
                Some(s) => {
                    &&& s.wf()
                    &&& same_times(s, *self)
                    &&& forall|i: int|
                        0 <= i < s.values@.len() ==> self.values@[i] == MetricValue::Float(
                            #[trigger] s.values@[i],
                        )
                },
                None => exists|i: int|
                    0 <= i < self.values@.len() && !((#[trigger] self.values@[i]) is Float),
            },
    {
        let mut out: TimeSeries<u64> = TimeSeries { timestamps: Vec::new(), values: Vec::new() };
        let mut i: usize = 0;
        while i < self.timestamps.len()
            invariant
                self.wf(),
                i <= self.timestamps@.len(),
                out.timestamps@ == self.timestamps@.take(i as int),
                out.values@.len() == i,
                forall|k: int|
                    0 <= k < i ==> self.values@[k] == MetricValue::Float(#[trigger] out.values@[k]),
            decreases self.timestamps@.len() - i,
        {
            match self.values[i] {
                MetricValue::Float(bits) => {
                    out.timestamps.push(self.timestamps[i]);
                    out.values.push(bits);
                    assert(out.timestamps@ =~= self.timestamps@.take(i + 1));
                },
                _ => {
                    return None;
                },
            }
            i += 1;
        }
        proof {
            assert(self.timestamps@.take(i as int) =~= self.timestamps@);
            assert forall|a: int, b: int| 0 <= a < b < out.points().len() implies (
            #[trigger] out.points()[a]).0 < (#[trigger] out.points()[b]).0 by {
                assert(self.points()[a].0 < self.points()[b].0);
            }
        }
        Some(out)
    }

    /// The series of doubles as a series of metric values.
    pub fn from_float_series(series: &TimeSeries<u64>) -> (r: MetricTimeSeries)
        requires
            series.wf(),
        ensures
            r.wf(),
            same_times(r, *series),
            forall|i: int|
                0 <= i < r.values@.len() ==> (#[trigger] r.values@[i]) == MetricValue::Float(
                    series.values@[i],
                ),
    {
        let mut out: MetricTimeSeries = TimeSeries { timestamps: Vec::new(), values: Vec::new() };
        let mut i: usize = 0;
        while i < series.timestamps.len()
            invariant
                series.wf(),
                i <= series.timestamps@.len(),
                out.timestamps@ == series.timestamps@.take(i as int),
                out.values@.len() == i,
                forall|k: int|
                    0 <= k < i ==> (#[trigger] out.values@[k]) == MetricValue::Float(
                        series.values@[k],
                    ),
            decreases series.timestamps@.len() - i,
        {
            out.timestamps.push(series.timestamps[i]);
            out.values.push(MetricValue::Float(series.values[i]));
            assert(out.timestamps@ =~= series.timestamps@.take(i + 1));
            i += 1;
        }
        proof {
            assert(series.timestamps@.take(i as int) =~= series.timestamps@);
            assert forall|a: int, b: int| 0 <= a < b < out.points().len() implies (
            #[trigger] out.points()[a]).0 < (#[trigger] out.points()[b]).0 by {
                assert(series.points()[a].0 < series.points()[b].0);
            }
        }
        out
    }
}

proof fn lemma_stamp_bytes_prefix(
    a: Seq<(u64, MetricValue)>,
    b: Seq<(u64, MetricValue)>,
    n: nat,
)
    requires
        n <= a.len(),
        a.len() <= b.len(),
        forall|i: int| 0 <= i < n ==> a[i] == b[i],
    ensures
        stamp_bytes(a, n) == stamp_bytes(b, n),
    decreases n,
{
    if n > 0 {
        lemma_stamp_bytes_prefix(a, b, (n - 1) as nat);
    }
}

proof fn lemma_payload_bytes_prefix(
    a: Seq<(u64, MetricValue)>,
    b: Seq<(u64, MetricValue)>,
    n: nat,
)
    requires
        n <= a.len(),
        a.len() <= b.len(),
        forall|i: int| 0 <= i < n ==> a[i] == b[i],
    ensures
        payload_bytes(a, n) == payload_bytes(b, n),
    decreases n,
{
    if n > 0 {
        lemma_payload_bytes_prefix(a, b, (n - 1) as nat);
    }
}

/// Reading what was written gives the series back.
pub proof fn lemma_binary_round_trip(a: Seq<(u64, MetricValue)>, b: Seq<(u64, MetricValue)>)
    requires
        storable(a),
        storable(b),
        encoded(a) == encoded(b),
    ensures
        a == b,
{
    lemma_auto_spec_u64_to_from_le_bytes();
    lemma_encoded_facts(a);
    lemma_encoded_facts(b);
    assert(a.len() == b.len());
    let n = a.len();
    let size = value_size(series_kind(a));
    lemma_encoded_layout(a, n);
    lemma_encoded_layout(b, n);
    assert((8 + size) * n == 8 * n + size * n) by (nonlinear_arith);
    assert forall|k: int| 0 <= k < n implies a[k] == b[k] by {
        assert(encoded(a).subrange(HEADER_LEN + 8 * k, HEADER_LEN + 8 * k + 8) == encoded(
            b,
        ).subrange(HEADER_LEN + 8 * k, HEADER_LEN + 8 * k + 8));
        assert(a[k].0 == b[k].0);
        let at = HEADER_LEN + 8 * n + size * k;
        assert(0 <= size * k && size * k + size <= size * n) by (nonlinear_arith)
            requires
                0 <= k < n,
                size >= 0,
        ;
        assert(encoded(a).subrange(at, at + size) =~= payload_bytes(a, n).subrange(
            size * k,
            size * k + size,
        ));
        assert(encoded(b).subrange(at, at + size) =~= payload_bytes(b, n).subrange(
            size * k,
            size * k + size,
        ));
        lemma_value_bytes(a[k].1);
        lemma_value_bytes(b[k].1);
        assert(kind_of(a[k].1) == series_kind(a));
        assert(kind_of(b[k].1) == series_kind(b));
    }
    assert(a =~= b);
}

} // verus!
