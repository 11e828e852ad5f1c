//! The ingest pipeline: which topic a message belongs to, which update and
//! which metrics its payload carries, what to publish after an update, and
//! which clients are connected.

use vstd::prelude::*;
use vstd::string::{StrSliceExecFns, StringExecFns};
use crate::dataconfig::{DataConfig, DataType, MetricSpec};
use crate::db::DatabaseError;
use crate::float::{float_from_i64, float_from_u64, float_of_int, float_of_nat};
use crate::json::{Json, JsonNumber, JsonValue};
use crate::metric::{LatLong, MetricValue};
use crate::models::{name_of, DefaultString, ShadowName, TenantId};
use crate::pointer::resolve;
use crate::shadow::{NestedStateDocument, Shadow, StateUpdateDocument};

verus! {

/// The settings of the pipeline.
#[derive(Debug)]
pub struct ProcessorConfig {
    /// The first level of the topics of shadows.
    pub shadow_topic_prefix: String,
}

impl Default for ProcessorConfig {
    fn default() -> (r: Self)
        ensures
            r.shadow_topic_prefix@ == "things"@,
    {
        ProcessorConfig { shadow_topic_prefix: "things".to_owned() }
    }
}

/// Whether a text has no slash, as one level of a topic.
pub open spec fn no_slash(s: Seq<char>) -> bool {
    forall|i: int| 0 <= i < s.len() ==> s[i] != '/'
}

/// The topic on which the devices of all tenants publish updates.
pub open spec fn subscribe_text(prefix: Seq<char>) -> Seq<char> {
    prefix + "/+/+/shadow/update"@
}

/// The topic on which a device publishes updates of its shadow.
pub open spec fn update_topic(prefix: Seq<char>, tenant: Seq<char>, device: Seq<char>) -> Seq<char> {
    prefix + seq!['/'] + tenant + seq!['/'] + device + "/shadow/update"@
}

/// The topic on which the delta of the shadow of a device is published.
pub open spec fn delta_topic_text(prefix: Seq<char>, tenant: Seq<char>, device: Seq<char>) -> Seq<
    char,
> {
    prefix + "/"@ + tenant + "/"@ + device + "/shadow/update/delta"@
}

/// The shadow that a topic addresses.
#[derive(Debug)]
pub struct ShadowTopic {
    pub tenant_id: TenantId,
    pub device_id: String,
    pub shadow_name: ShadowName,
}

/// The pattern to subscribe to for the updates of all devices.
pub fn subscribe_pattern(prefix: &str) -> (r: String)
    ensures
        r@ == subscribe_text(prefix@),
{
    prefix.to_owned().concat("/+/+/shadow/update")
}

/// The topic on which the delta of the shadow of a device is published.
pub fn delta_topic(prefix: &str, tenant_id: &TenantId, device_id: &str) -> (r: String)
    ensures
        r@ == delta_topic_text(prefix@, tenant_id@.text(), device_id@),
{
    prefix.to_owned().concat("/").concat(tenant_id.as_str()).concat("/").concat(device_id).concat(
        "/shadow/update/delta",
    )
}

/// The position of the first slash from `from` on.
fn find_slash(topic: &str, from: usize, n: usize) -> (r: Option<usize>)
    requires
        from <= n,
        n == topic@.len(),
    ensures
        match r {
            Some(k) => from <= k < n && topic@[k as int] == '/' && forall|j: int|
                from <= j < k ==> topic@[j] != '/',
            None => forall|j: int| from <= j < n ==> topic@[j] != '/',
        },
{
    let mut i: usize = from;
    while i < n
        invariant
            from <= i <= n,
            n == topic@.len(),
            forall|j: int| from <= j < i ==> topic@[j] != '/',
        decreases n - i,
    {
        if topic.get_char(i) == '/' {
            return Some(i);
        }
        i += 1;
    }
    None
}

/// Whether `part` stands in `text` from position `at` on.
fn holds_at(text: &str, at: usize, n: usize, part: &str) -> (r: bool)
    requires
        at <= n,
        n == text@.len(),
    ensures
        r == (at + part@.len() <= n && text@.subrange(at as int, at + part@.len()) == part@),
{
    let m = part.unicode_len();
    if m > n - at {
        return false;
    }
    let mut i: usize = 0;
    while i < m
        invariant
            i <= m,
            m == part@.len(),
            n == text@.len(),
            at + m <= n,
            forall|j: int| 0 <= j < i ==> text@[at + j] == part@[j],
        decreases m - i,
    {
        if text.get_char(at + i) != part.get_char(i) {
            assert(text@.subrange(at as int, at + m)[i as int] != part@[i as int]);
            return false;
        }
        i += 1;
    }
    assert(text@.subrange(at as int, at + m) =~= part@);
    true
}

/// Where the levels of an update topic lie.
proof fn lemma_update_topic_layout(prefix: Seq<char>, tenant: Seq<char>, device: Seq<char>)
    requires
        no_slash(tenant),
        no_slash(device),
    ensures
        ({
            let s = update_topic(prefix, tenant, device);
            let p = prefix.len() as int;
            let a = p + 1 + tenant.len();
            let b = a + 1 + device.len();
            &&& "/shadow/update"@.len() == 14
            &&& s.len() == b + 14
            &&& s.subrange(0, p) == prefix
            &&& s[p] == '/'
            &&& s.subrange(p + 1, a) == tenant
            &&& s[a] == '/'
            &&& s.subrange(a + 1, b) == device
            &&& s.subrange(b, b + 14) == "/shadow/update"@
            &&& forall|j: int| p + 1 <= j < a ==> s[j] != '/'
            &&& forall|j: int| a + 1 <= j < b ==> s[j] != '/'
        }),
{
    reveal_strlit("/shadow/update");
    let s = update_topic(prefix, tenant, device);
    let p = prefix.len() as int;
    let a = p + 1 + tenant.len();
    let b = a + 1 + device.len();
    assert(s.subrange(0, p) =~= prefix);
    assert(s.subrange(p + 1, a) =~= tenant);
    assert(s.subrange(a + 1, b) =~= device);
    assert(s.subrange(b, b + 14) =~= "/shadow/update"@);
    assert forall|j: int| p + 1 <= j < a implies s[j] != '/' by {
        assert(s[j] == tenant[j - p - 1]);
    }
    assert forall|j: int| a + 1 <= j < b implies s[j] != '/' by {
        assert(s[j] == device[j - a - 1]);
    }
}

/// Splits the topic of an update into the level of the tenant and the level
/// of the device.
pub fn split_update_topic(topic: &str, prefix: &str) -> (r: Option<(String, String)>)
    ensures
        match r {
            Some((tenant, device)) => {
                &&& no_slash(tenant@)
                &&& no_slash(device@)
                &&& topic@ == update_topic(prefix@, tenant@, device@)
            },
            None => forall|tenant: Seq<char>, device: Seq<char>|
                no_slash(tenant) && no_slash(device) ==> topic@ != #[trigger] update_topic(
                    prefix@,
                    tenant,
                    device,
                ),
        },
{
    proof {
        reveal_strlit("/shadow/update");
        reveal_strlit("/");
        assert forall|tenant: Seq<char>, device: Seq<char>|
            no_slash(tenant) && no_slash(device) && topic@ == #[trigger] update_topic(
                prefix@,
                tenant,
                device,
            ) implies {
            let p = prefix@.len() as int;
            let a = p + 1 + tenant.len();
            let b = a + 1 + device.len();
            &&& topic@.len() == b + 14
            &&& topic@.subrange(0, p) == prefix@
            &&& topic@[p] == '/'
            &&& topic@[a] == '/'
            &&& topic@.subrange(b, b + 14) == "/shadow/update"@
            &&& forall|j: int| p + 1 <= j < a ==> topic@[j] != '/'
            &&& forall|j: int| a + 1 <= j < b ==> topic@[j] != '/'
        } by {
            lemma_update_topic_layout(prefix@, tenant, device);
        }
    }
    let n = topic.unicode_len();
    let p = prefix.unicode_len();
    if !holds_at(topic, 0, n, prefix) {
        return None;
    }
    if p >= n || topic.get_char(p) != '/' {
        return None;
    }
    let a = match find_slash(topic, p + 1, n) {
        Some(a) => a,
        None => {
            return None;
        },
    };
    let b = match find_slash(topic, a + 1, n) {
        Some(b) => b,
        None => {
            proof {
                assert forall|tenant: Seq<char>, device: Seq<char>|
                    no_slash(tenant) && no_slash(device) implies topic@ != #[trigger] update_topic(
                        prefix@,
                        tenant,
                        device,
                    ) by {
                    if topic@ == update_topic(prefix@, tenant, device) {
                        let a2 = p + 1 + tenant.len();
                        if a2 < a {
                            assert(topic@[a2] != '/');
                        } else if a < a2 {
                            assert(topic@[a as int] != '/');
                        }
                        let b2 = a2 + 1 + device.len();
                        assert(topic@[b2] == '/') by {
                            assert(topic@.subrange(b2, b2 + 14)[0] == "/shadow/update"@[0]);
                        }
                    }
                }
            }
            return None;
        },
    };
    if !holds_at(topic, b, n, "/shadow/update") || n - b != 14 {
        proof {
            assert forall|tenant: Seq<char>, device: Seq<char>|
                no_slash(tenant) && no_slash(device) implies topic@ != #[trigger] update_topic(
                    prefix@,
                    tenant,
                    device,
                ) by {
                if topic@ == update_topic(prefix@, tenant, device) {
                    let a2 = p + 1 + tenant.len();
                    if a2 < a {
                        assert(topic@[a2] != '/');
                    } else if a < a2 {
                        assert(topic@[a as int] != '/');
                    }
                    let b2 = a2 + 1 + device.len();
                    assert(topic@[b2] == '/') by {
                        assert(topic@.subrange(b2, b2 + 14)[0] == "/shadow/update"@[0]);
                    }
                    if b2 < b {
                        assert(topic@[b2] != '/');
                    } else if b < b2 {
                        assert(topic@[b as int] != '/');
                    }
                }
            }
        }
        return None;
    }
    let tenant = topic.substring_char(p + 1, a).to_owned();
    let device = topic.substring_char(a + 1, b).to_owned();
    proof {
        assert(topic@ =~= update_topic(prefix@, tenant@, device@)) by {
            let s = update_topic(prefix@, tenant@, device@);
            assert(s.len() == topic@.len());
            assert forall|j: int| 0 <= j < topic@.len() implies topic@[j] == s[j] by {
                if j < p {
                    assert(topic@.subrange(0, p as int)[j] == prefix@[j]);
                } else if j >= b {
                    assert(topic@.subrange(b as int, b + 14)[j - b] == "/shadow/update"@[j - b]);
                }
            }
        }
    }
    Some((tenant, device))
}

/// The shadow that the topic of an update addresses: the tenant and the
/// device of its levels, and the default shadow of the device.
pub fn parse_update_topic(topic: &str, prefix: &str) -> (r: Option<ShadowTopic>)
    ensures
        match r {
            Some(t) => {
                &&& t.shadow_name@ is Default
                &&& no_slash(t.device_id@)
                &&& exists|tenant: Seq<char>|
                    no_slash(tenant) && topic@ == #[trigger] update_topic(
                        prefix@,
                        tenant,
                        t.device_id@,
                    ) && t.tenant_id@ == name_of(tenant)
            },
            None => forall|tenant: Seq<char>, device: Seq<char>|
                no_slash(tenant) && no_slash(device) ==> topic@ != #[trigger] update_topic(
                    prefix@,
                    tenant,
                    device,
                ),
        },
{
    match split_update_topic(topic, prefix) {
        Some((tenant, device)) => {
            let tenant_id = DefaultString::new(tenant.as_str());
            assert(topic@ == update_topic(prefix@, tenant@, device@));
            Some(ShadowTopic { tenant_id, device_id: device, shadow_name: DefaultString::Default })
        },
        None => None,
    }
}

/// The update that the payload of a message carries for the shadow that its
/// topic addresses, if the payload is the document of a state.
pub fn update_from_payload(payload: &Json, topic: &ShadowTopic) -> (r: Option<StateUpdateDocument>)
    ensures
        match r {
            Some(u) => {
                &&& payload@.member("state"@) matches Some(state)
                &&& state is Object
                &&& u.device_id@ == topic.device_id@
                &&& u.shadow_name@ == topic.shadow_name@
                &&& u.tenant_id@ == topic.tenant_id@
                &&& u.state.reported@ == crate::shadow::part_member(state, "reported"@)
                &&& u.state.desired@ == crate::shadow::part_member(state, "desired"@)
                &&& u.state.delta@ == crate::shadow::part_member(state, "delta"@)
            },
            None => !(payload@.member("state"@) matches Some(state) && state is Object),
        },
{
    match NestedStateDocument::from_value(payload) {
        Some(nested) => Some(
            StateUpdateDocument::from_nested_state(
                nested,
                topic.device_id.as_str(),
                &topic.shadow_name,
                &topic.tenant_id,
            ),
        ),
        None => None,
    }
}

/// What to publish after an update of a shadow: the delta on the delta topic
/// of the device, when the delta is an object with at least one member.
pub fn delta_publication(shadow: &Shadow, prefix: &str) -> (r: Option<(String, Json)>)
    ensures
        match r {
            Some((topic, body)) => {
                &&& shadow@.delta is Object
                &&& shadow@.delta->Object_0.len() > 0
                &&& body@ == shadow@.delta
                &&& topic@ == delta_topic_text(prefix@, shadow@.tenant_id.text(), shadow@.device_id)
            },
            None => !(shadow@.delta is Object && shadow@.delta->Object_0.len() > 0),
        },
{
    match shadow.get_delta_json() {
        Some(body) => Some(
            (delta_topic(prefix, shadow.get_tenant_id(), shadow.get_device_id().as_str()), body),
        ),
        None => None,
    }
}

/// A number as a double: a double as it is, an integer as the nearest
/// double.
pub open spec fn number_as_float(n: JsonNumber) -> u64 {
    match n {
        JsonNumber::PosInt(u) => float_of_nat(u as nat),
        JsonNumber::NegInt(i) => float_of_int(i as int),
        JsonNumber::Float(bits) => bits,
    }
}

/// A number as an integer, when it is one that fits `i64`.
pub open spec fn number_as_int(n: JsonNumber) -> Option<i64> {
    match n {
        JsonNumber::PosInt(u) => if u <= i64::MAX {
            Some(u as i64)
        } else {
            None
        },
        JsonNumber::NegInt(i) => Some(i),
        JsonNumber::Float(_) => None,
    }
}

/// The number stored under `key` as a double, if there is a number.
pub open spec fn float_member(v: JsonValue, key: Seq<char>) -> Option<u64> {
    match v.member(key) {
        Some(JsonValue::Number(n)) => Some(number_as_float(n)),
        _ => None,
    }
}

/// The value of a metric of the given type that a document stands for: a
/// number for a double, an integer number for an integer, an object with the
/// numbers `lat` and `lon` for a position. Strings are not stored as
/// metrics.
pub open spec fn metric_value(v: JsonValue, t: DataType) -> Option<MetricValue> {
    match t {
        DataType::Float => match v {
            JsonValue::Number(n) => Some(MetricValue::Float(number_as_float(n))),
            _ => None,
        },
        DataType::Int => match v {
            JsonValue::Number(n) => match number_as_int(n) {
                Some(i) => Some(MetricValue::Int(i)),
                None => None,
            },
            _ => None,
        },
        DataType::Location => match (float_member(v, "lat"@), float_member(v, "lon"@)) {
            (Some(lat), Some(lon)) => Some(MetricValue::Location(LatLong { lat, lon })),
            _ => None,
        },
        DataType::String => None,
    }
}

/// The value of a metric in the reported state, if the pointer of the metric
/// leads to a value of its type.
pub open spec fn extracted(reported: JsonValue, metric: MetricSpec) -> Option<MetricValue> {
    match resolve(reported, metric.json_pointer) {
        Some(v) => metric_value(v, metric.data_type),
        None => None,
    }
}

/// The names and values of the first `n` metrics of a configuration that the
/// reported state holds, in the order of the configuration.
pub open spec fn extracted_upto(reported: JsonValue, metrics: Seq<MetricSpec>, n: nat) -> Seq<
    (Seq<char>, MetricValue),
>
    decreases n,
{
    if n == 0 || n > metrics.len() {
        Seq::empty()
    } else {
        let before = extracted_upto(reported, metrics, (n - 1) as nat);
        match extracted(reported, metrics[n - 1]) {
            Some(v) => before.push((metrics[n - 1].name, v)),
            None => before,
        }
    }
}

impl JsonNumber {
    /// The number as a double.
    pub fn as_float(&self) -> (r: u64)
        ensures
            r == number_as_float(*self),
    {
        match self {
            JsonNumber::PosInt(u) => float_from_u64(*u),
            JsonNumber::NegInt(i) => float_from_i64(*i),
            JsonNumber::Float(bits) => *bits,
        }
    }

    /// The number as an integer, when it is one that fits `i64`.
    pub fn as_int(&self) -> (r: Option<i64>)
        ensures
            r == number_as_int(*self),
    {
        match self {
            JsonNumber::PosInt(u) => if *u <= 9223372036854775807 {
                Some(*u as i64)
            } else {
                None
            },
            JsonNumber::NegInt(i) => Some(*i),
            JsonNumber::Float(_) => None,
        }
    }
}

/// The number stored under `key` as a double, if there is a number.
fn get_float(v: &Json, key: &str) -> (r: Option<u64>)
    ensures
        r == float_member(v@, key@),
{
    match v.get_member(key) {
        Some(Json::Number(n)) => Some(n.as_float()),
        _ => None,
    }
}

/// The value of a metric of the given type that a document stands for.
pub fn to_metric_value(v: &Json, t: DataType) -> (r: Option<MetricValue>)
    ensures
        r == metric_value(v@, t),
{
    match t {
        DataType::Float => match v {
            Json::Number(n) => Some(MetricValue::Float(n.as_float())),
            _ => None,
        },
        DataType::Int => match v {
            Json::Number(n) => match n.as_int() {
                Some(i) => Some(MetricValue::Int(i)),
                None => None,
            },
            _ => None,
        },
        DataType::Location => match (get_float(v, "lat"), get_float(v, "lon")) {
            (Some(lat), Some(lon)) => Some(MetricValue::Location(LatLong { lat, lon })),
            _ => None,
        },
        DataType::String => None,
    }
}

/// The metrics of a configuration that the reported state holds: for each
/// metric whose pointer leads to a value of its type, the name of the metric
/// and the value.
pub fn extract_metrics(config: &DataConfig, reported: &Json) -> (r: Vec<(String, MetricValue)>)
    ensures
        r@.len() == extracted_upto(reported@, config@, config@.len()).len(),
        forall|i: int|
            0 <= i < r@.len() ==> ((#[trigger] r@[i]).0@, r@[i].1) == extracted_upto(
                reported@,
                config@,
                config@.len(),
            )[i],
{
    let mut out: Vec<(String, MetricValue)> = Vec::new();
    let mut i: usize = 0;
    while i < config.metrics.len()
        invariant
            i <= config.metrics@.len(),
            out@.len() == extracted_upto(reported@, config@, i as nat).len(),
            forall|k: int|
                0 <= k < out@.len() ==> ((#[trigger] out@[k]).0@, out@[k].1) == extracted_upto(
                    reported@,
                    config@,
                    i as nat,
                )[k],
        decreases config.metrics@.len() - i,
    {
        let metric = &config.metrics[i];
        assert(config@[i as int] == metric@);
        let found = match reported.pointer(metric.json_pointer.as_str()) {
            Some(v) => to_metric_value(v, metric.data_type),
            None => None,
        };
        match found {
            Some(value) => {
                out.push((metric.name.clone(), value));
            },
            None => {},
        }
        i += 1;
    }
    out
}

/// How loud a failure of the pipeline is reported.
#[derive(Clone, Copy, Debug, PartialEq, Eq, Structural)]
pub enum Severity {
    /// The message is dropped; the failure may pass.
    Warn,
    /// The message is dropped; the failure points at a message on the wrong
    /// topic.
    Error,
}

/// How loud the failure of a shadow update is reported: an update addressed
/// to another shadow as an error, anything else as a warning. Either way the
/// message is dropped and the pipeline goes on.
pub fn failure_severity(e: &DatabaseError) -> (r: Severity)
    ensures
        r == if *e is ShadowError {
            Severity::Error
        } else {
            Severity::Warn
        },
{
    match e {
        DatabaseError::ShadowError(_) => Severity::Error,
        _ => Severity::Warn,
    }
}

/// What the connection monitor reports.
#[derive(Debug)]
pub enum ConnectionEvent {
    Connected(String),
    Disconnected(String),
}

/// The ids of the clients that are connected.
#[derive(Debug)]
pub struct ConnectionSet {
    clients: Vec<String>,
}

impl View for ConnectionSet {
    type V = Set<Seq<char>>;

    closed spec fn view(&self) -> Set<Seq<char>> {
        Set::new(|id: Seq<char>| exists|i: int| 0 <= i < self.clients@.len() && self.clients@[i]@ == id)
    }
}

impl ConnectionSet {
    /// Whether no id is held twice.
    pub closed spec fn wf(&self) -> bool {
        forall|i: int, j: int|
            0 <= i < j < self.clients@.len() ==> self.clients@[i]@ != self.clients@[j]@
    }

    /// The number of ids held.
    pub closed spec fn count(&self) -> nat {
        self.clients@.len()
    }

    /// No client is connected.
    pub fn new() -> (r: Self)
        ensures
            r.wf(),
            r@ == Set::<Seq<char>>::empty(),
            r.count() == 0,
    {
        let r = ConnectionSet { clients: Vec::new() };
        assert(r@ =~= Set::<Seq<char>>::empty());
        r
    }

    fn position(&self, id: &String) -> (r: Option<usize>)
        ensures
            match r {
                Some(i) => i < self.clients@.len() && self.clients@[i as int]@ == id@,
                None => !self@.contains(id@),
            },
            r is Some ==> self@.contains(id@),
    {
        let mut i: usize = 0;
        while i < self.clients.len()
            invariant
                i <= self.clients@.len(),
                forall|k: int| 0 <= k < i ==> self.clients@[k]@ != id@,
            decreases self.clients@.len() - i,
        {
            if self.clients[i] == *id {
                return Some(i);
            }
            i += 1;
        }
        None
    }

    /// Whether the client is connected.
    pub fn contains(&self, id: &String) -> (r: bool)
        ensures
            r == self@.contains(id@),
    {
        self.position(id).is_some()
    }

    /// The number of connected clients.
    pub fn len(&self) -> (r: usize)
        ensures
            r == self.count(),
    {
        self.clients.len()
    }

    /// Records that a client is connected; returns whether it was not
    /// connected before.
    pub fn insert(&mut self, id: String) -> (r: bool)
        requires
            old(self).wf(),
        ensures
            final(self).wf(),
            final(self)@ == old(self)@.insert(id@),
            r == !old(self)@.contains(id@),
            final(self).count() == old(self).count() + if r {
                1nat
            } else {
                0
            },
    {
        match self.position(&id) {
            Some(_) => {
                assert(self@ =~= self@.insert(id@));
                false
            },
            None => {
                let ghost before = self.clients@;
                let ghost before_set = self@;
                self.clients.push(id);
                proof {
                    assert forall|x: Seq<char>| self@.contains(x) == before_set.insert(id@).contains(
                        x,
                    ) by {
                        if self@.contains(x) {
                            let i = choose|i: int|
                                0 <= i < self.clients@.len() && self.clients@[i]@ == x;
                            if i < before.len() {
                                assert(before[i]@ == x);
                            }
                        }
                        if before_set.contains(x) {
                            let i = choose|i: int| 0 <= i < before.len() && before[i]@ == x;
                            assert(self.clients@[i]@ == x);
                        }
                        if x == id@ {
                            assert(self.clients@[before.len() as int]@ == x);
                        }
                    }
                    assert(self@ =~= before_set.insert(id@));
                    assert forall|i: int, j: int|
                        0 <= i < j < self.clients@.len() implies self.clients@[i]@
                        != self.clients@[j]@ by {
                        if j < before.len() {
                            assert(before[i]@ != before[j]@);
                        } else {
                            assert(before[i]@ != id@);
                        }
                    }
                }
                true
            },
        }
    }

    /// Records that a client is no longer connected; returns whether it was
    /// connected before.
    pub fn remove(&mut self, id: &String) -> (r: bool)
        requires
            old(self).wf(),
        ensures
            final(self).wf(),
            final(self)@ == old(self)@.remove(id@),
            r == old(self)@.contains(id@),
            final(self).count() == old(self).count() - if r {
                1int
            } else {
                0
            },
    {
        match self.position(id) {
            Some(p) => {
                let ghost before = self.clients@;
                let ghost before_set = self@;
                let _ = self.clients.remove(p);
                proof {
                    assert forall|x: Seq<char>| self@.contains(x) == before_set.remove(id@).contains(
                        x,
                    ) by {
                        if self@.contains(x) {
                            let i = choose|i: int|
                                0 <= i < self.clients@.len() && self.clients@[i]@ == x;
                            let bi = if i < p { i } else { i + 1 };
                            assert(before[bi]@ == x);
                            if x == id@ {
                                if bi < p {
                                    assert(before[bi]@ != before[p as int]@);
                                } else {
                                    assert(before[p as int]@ != before[bi]@);
                                }
                            }
                        }
                        if before_set.contains(x) && x != id@ {
                            let i = choose|i: int| 0 <= i < before.len() && before[i]@ == x;
                            let ni = if i < p { i } else { i - 1 };
                            assert(self.clients@[ni]@ == x);
                        }
                    }
                    assert(self@ =~= before_set.remove(id@));
                    assert forall|i: int, j: int|
                        0 <= i < j < self.clients@.len() implies self.clients@[i]@
                        != self.clients@[j]@ by {
                        let bi = if i < p { i } else { i + 1 };
                        let bj = if j < p { j } else { j + 1 };
                        assert(before[bi]@ != before[bj]@);
                    }
                }
                true
            },
            None => {
                assert(self@ =~= self@.remove(id@));
                false
            },
        }
    }

    /// Takes in what the connection monitor reports.
    pub fn apply(&mut self, event: ConnectionEvent)
        requires
            old(self).wf(),
        ensures
            final(self).wf(),
            final(self)@ == match event {
                ConnectionEvent::Connected(id) => old(self)@.insert(id@),
                ConnectionEvent::Disconnected(id) => old(self)@.remove(id@),
            },
    {
        match event {
            ConnectionEvent::Connected(id) => {
                let _ = self.insert(id);
            },
            ConnectionEvent::Disconnected(id) => {
                let _ = self.remove(&id);
            },
        }
    }

    /// The ids of the connected clients.
    pub fn iter(&self) -> (r: Vec<String>)
        ensures
            r@.len() == self.count(),
            forall|i: int| 0 <= i < r@.len() ==> self@.contains((#[trigger] r@[i])@),
            forall|id: Seq<char>|
                self@.contains(id) ==> exists|i: int| 0 <= i < r@.len() && (#[trigger] r@[i])@ == id,
    {
        let mut out: Vec<String> = Vec::new();
        let mut i: usize = 0;
        while i < self.clients.len()
            invariant
                i <= self.clients@.len(),
                out@.len() == i,
                forall|k: int| 0 <= k < i ==> (#[trigger] out@[k])@ == self.clients@[k]@,
            decreases self.clients@.len() - i,
        {
            out.push(self.clients[i].clone());
            i += 1;
        }
        proof {
            assert forall|id: Seq<char>| self@.contains(id) implies exists|i: int|
                0 <= i < out@.len() && (#[trigger] out@[i])@ == id by {
                let k = choose|k: int| 0 <= k < self.clients@.len() && self.clients@[k]@ == id;
                assert(out@[k]@ == id);
            }
        }
        out
    }
}

/// Reports of connections are idempotent: a second report of the same
/// connection, or of the same disconnection, changes nothing.
pub proof fn lemma_connection_reports_idempotent(set: Set<Seq<char>>, id: Seq<char>)
    ensures
        set.insert(id).insert(id) == set.insert(id),
        set.remove(id).remove(id) == set.remove(id),
{
    assert(set.insert(id).insert(id) =~= set.insert(id));
    assert(set.remove(id).remove(id) =~= set.remove(id));
}

} // verus!
