//! Data configurations: which metrics to extract from the reported state of
//! a device, for a tenant and for the devices whose ids begin with a prefix.

use vstd::prelude::*;
use crate::json::{lemma_array_view, members_of, push_member, text_member, values_of, Json, JsonValue};
use crate::models::TenantId;

verus! {

/// The type of the values of a metric.
#[derive(Clone, Copy, Debug, PartialEq, Eq, Structural)]
pub enum DataType {
    Float,
    Int,
    Location,
    String,
}

/// One metric: where to find it in the reported state, under which name to
/// store it, and of which type its values are.
#[derive(Debug)]
pub struct MetricConfig {
    pub json_pointer: String,
    pub name: String,
    pub data_type: DataType,
}

/// The metrics to extract.
#[derive(Debug)]
pub struct DataConfig {
    pub metrics: Vec<MetricConfig>,
}

/// A stored data configuration with the tenant and, for a device
/// configuration, the prefix it is stored under.
#[derive(Debug)]
pub struct DataConfigEntry {
    pub tenant_id: TenantId,
    pub device_prefix: Option<String>,
    pub metrics: Vec<MetricConfig>,
}

/// The mathematical value of a [`MetricConfig`].
pub struct MetricSpec {
    pub json_pointer: Seq<char>,
    pub name: Seq<char>,
    pub data_type: DataType,
}

impl View for MetricConfig {
    type V = MetricSpec;

    open spec fn view(&self) -> MetricSpec {
        MetricSpec { json_pointer: self.json_pointer@, name: self.name@, data_type: self.data_type }
    }
}

impl Clone for MetricConfig {
    fn clone(&self) -> (r: Self)
        ensures
            r@ == self@,
    {
        MetricConfig {
            json_pointer: self.json_pointer.clone(),
            name: self.name.clone(),
            data_type: self.data_type,
        }
    }
}

/// The values of a list of metrics.
pub open spec fn metrics_of(list: Seq<MetricConfig>) -> Seq<MetricSpec> {
    Seq::new(list.len(), |i: int| list[i]@)
}

impl View for DataConfig {
    type V = Seq<MetricSpec>;

    open spec fn view(&self) -> Seq<MetricSpec> {
        metrics_of(self.metrics@)
    }
}

/// Whether `i` is the position of the first metric named `name`.
pub open spec fn is_first_named(list: Seq<MetricSpec>, name: Seq<char>, i: int) -> bool {
    &&& 0 <= i < list.len()
    &&& list[i].name == name
    &&& forall|j: int| 0 <= j < i ==> (#[trigger] list[j]).name != name
}

/// Whether the list has a metric named `name`.
pub open spec fn has_named(list: Seq<MetricSpec>, name: Seq<char>) -> bool {
    exists|i: int| 0 <= i < list.len() && (#[trigger] list[i]).name == name
}

/// The list with `metric` taking the place of the first metric of the same
/// name, or added at the end when there is none.
pub open spec fn with_metric(list: Seq<MetricSpec>, metric: MetricSpec) -> Seq<MetricSpec> {
    if has_named(list, metric.name) {
        list.update(choose|i: int| is_first_named(list, metric.name, i), metric)
    } else {
        list.push(metric)
    }
}

/// The tenant metrics `base` overlaid with the first `n` device metrics of
/// `over`: a device metric replaces the tenant metric of the same name where
/// that stands, and is added at the end when there is none.
pub open spec fn overlaid(base: Seq<MetricSpec>, over: Seq<MetricSpec>, n: nat) -> Seq<MetricSpec>
    decreases n,
{
    if n == 0 || n > over.len() {
        base
    } else {
        with_metric(overlaid(base, over, (n - 1) as nat), over[n - 1])
    }
}

proof fn lemma_first_named_unique(list: Seq<MetricSpec>, name: Seq<char>, i: int)
    requires
        is_first_named(list, name, i),
    ensures
        has_named(list, name),
        (choose|k: int| is_first_named(list, name, k)) == i,
{
    let c = choose|k: int| is_first_named(list, name, k);
    if c < i {
        assert(list[c].name != name);
    }
    if i < c {
        assert(list[i].name != name);
    }
}

/// Overlaying keeps every tenant metric's place and name: the result begins
/// with as many metrics as the tenant has, under the same names.
pub proof fn lemma_overlaid_keeps_names(base: Seq<MetricSpec>, over: Seq<MetricSpec>, n: nat)
    requires
        n <= over.len(),
    ensures
        overlaid(base, over, n).len() >= base.len(),
        forall|i: int|
            0 <= i < base.len() ==> (#[trigger] overlaid(base, over, n)[i]).name == base[i].name,
    decreases n,
{
    if n > 0 {
        lemma_overlaid_keeps_names(base, over, (n - 1) as nat);
        let acc = overlaid(base, over, (n - 1) as nat);
        let metric = over[n - 1];
        if has_named(acc, metric.name) {
            let w = choose|i: int| 0 <= i < acc.len() && (#[trigger] acc[i]).name == metric.name;
            lemma_first_exists(acc, metric.name, w);
            let c = choose|i: int| is_first_named(acc, metric.name, i);
            assert(is_first_named(acc, metric.name, c));
        }
    }
}

/// The first metric of a list with the given name, if there is one.
pub open spec fn named(list: Seq<MetricSpec>, name: Seq<char>) -> Option<MetricSpec> {
    if has_named(list, name) {
        Some(list[choose|i: int| is_first_named(list, name, i)])
    } else {
        None
    }
}

/// Whether no two metrics of a list share a name.
pub open spec fn names_distinct(list: Seq<MetricSpec>) -> bool {
    forall|i: int, j: int|
        0 <= i < j < list.len() ==> (#[trigger] list[i]).name != (#[trigger] list[j]).name
}

/// Putting a metric into a list makes it the metric of its name and leaves
/// the metrics of other names as they were.
pub proof fn lemma_with_metric_named(list: Seq<MetricSpec>, metric: MetricSpec, q: Seq<char>)
    ensures
        named(with_metric(list, metric), q) == if q == metric.name {
            Some(metric)
        } else {
            named(list, q)
        },
        names_distinct(list) ==> names_distinct(with_metric(list, metric)),
{
    let r = with_metric(list, metric);
    if has_named(list, metric.name) {
        let w = choose|i: int| 0 <= i < list.len() && (#[trigger] list[i]).name == metric.name;
        lemma_first_exists(list, metric.name, w);
        let p = choose|i: int| is_first_named(list, metric.name, i);
        assert(forall|i: int| 0 <= i < list.len() ==> (#[trigger] r[i]).name == list[i].name);
        if q == metric.name {
            assert(is_first_named(r, q, p));
            lemma_first_named_unique(r, q, p);
        } else if has_named(list, q) {
            let wq = choose|i: int| 0 <= i < list.len() && (#[trigger] list[i]).name == q;
            lemma_first_exists(list, q, wq);
            let j = choose|i: int| is_first_named(list, q, i);
            assert(is_first_named(r, q, j));
            lemma_first_named_unique(r, q, j);
        } else {
            if has_named(r, q) {
                let i = choose|i: int| 0 <= i < r.len() && (#[trigger] r[i]).name == q;
                assert(list[i].name == q);
            }
        }
        if names_distinct(list) {
            assert forall|i: int, j: int| 0 <= i < j < r.len() implies (#[trigger] r[i]).name != (
            #[trigger] r[j]).name by {
                assert(list[i].name != list[j].name);
            }
        }
    } else {
        assert(forall|i: int| 0 <= i < list.len() ==> (#[trigger] r[i]) == list[i]);
        if q == metric.name {
            assert forall|j: int| 0 <= j < list.len() implies (#[trigger] r[j]).name != q by {
                assert(list[j].name != q);
            }
            assert(is_first_named(r, q, list.len() as int));
            lemma_first_named_unique(r, q, list.len() as int);
        } else if has_named(list, q) {
            let wq = choose|i: int| 0 <= i < list.len() && (#[trigger] list[i]).name == q;
            lemma_first_exists(list, q, wq);
            let j = choose|i: int| is_first_named(list, q, i);
            assert(is_first_named(r, q, j));
            lemma_first_named_unique(r, q, j);
        } else {
            if has_named(r, q) {
                let i = choose|i: int| 0 <= i < r.len() && (#[trigger] r[i]).name == q;
                if i < list.len() {
                    assert(list[i].name == q);
                }
            }
        }
        if names_distinct(list) {
            assert forall|i: int, j: int| 0 <= i < j < r.len() implies (#[trigger] r[i]).name != (
            #[trigger] r[j]).name by {
                if j < list.len() {
                    assert(list[i].name != list[j].name);
                } else {
                    assert(list[i].name != metric.name);
                }
            }
        }
    }
}

/// An overlay leaves the metrics alone whose names the device does not use,
/// and keeps names distinct.
pub proof fn lemma_overlaid_untouched(
    base: Seq<MetricSpec>,
    over: Seq<MetricSpec>,
    n: nat,
    q: Seq<char>,
)
    requires
        n <= over.len(),
        forall|j: int| 0 <= j < n ==> (#[trigger] over[j]).name != q,
    ensures
        named(overlaid(base, over, n), q) == named(base, q),
    decreases n,
{
    if n > 0 {
        lemma_overlaid_untouched(base, over, (n - 1) as nat, q);
        assert(over[n - 1].name != q);
        lemma_with_metric_named(overlaid(base, over, (n - 1) as nat), over[n - 1], q);
    }
}

/// An overlay holds under the name of a device metric that metric: the last
/// one of that name, if the device has several.
pub proof fn lemma_overlaid_named(base: Seq<MetricSpec>, over: Seq<MetricSpec>, n: nat, j: int)
    requires
        0 <= j < n <= over.len(),
        forall|k: int| j < k < n ==> (#[trigger] over[k]).name != over[j].name,
    ensures
        named(overlaid(base, over, n), over[j].name) == Some(over[j]),
    decreases n,
{
    let acc = overlaid(base, over, (n - 1) as nat);
    lemma_with_metric_named(acc, over[n - 1], over[j].name);
    if j < n - 1 {
        assert(over[n - 1].name != over[j].name);
        lemma_overlaid_named(base, over, (n - 1) as nat, j);
    }
}

/// An overlay of metrics with distinct names has distinct names.
pub proof fn lemma_overlaid_distinct(base: Seq<MetricSpec>, over: Seq<MetricSpec>, n: nat)
    requires
        n <= over.len(),
        names_distinct(base),
    ensures
        names_distinct(overlaid(base, over, n)),
    decreases n,
{
    if n > 0 {
        lemma_overlaid_distinct(base, over, (n - 1) as nat);
        lemma_with_metric_named(overlaid(base, over, (n - 1) as nat), over[n - 1], over[n - 1].name);
    }
}

proof fn lemma_first_exists(list: Seq<MetricSpec>, name: Seq<char>, w: int)
    requires
        0 <= w < list.len(),
        list[w].name == name,
    ensures
        exists|i: int| is_first_named(list, name, i),
    decreases w,
{
    if exists|j: int| 0 <= j < w && (#[trigger] list[j]).name == name {
        let j = choose|j: int| 0 <= j < w && (#[trigger] list[j]).name == name;
        lemma_first_exists(list, name, j);
    } else {
        assert(is_first_named(list, name, w));
    }
}

impl DataConfig {
    /// A configuration without metrics.
    pub fn empty() -> (r: DataConfig)
        ensures
            r@ == Seq::<MetricSpec>::empty(),
    {
        let r = DataConfig { metrics: Vec::new() };
        assert(r@ =~= Seq::<MetricSpec>::empty());
        r
    }

    /// This configuration overlaid with `other`: the metrics of `other`
    /// replace those of the same name and the rest of them follow.
    pub fn merge_with(&self, other: &DataConfig) -> (r: DataConfig)
        ensures
            r@ == overlaid(self@, other@, other@.len()),
    {
        let mut out: Vec<MetricConfig> = Vec::new();
        let mut i: usize = 0;
        while i < self.metrics.len()
            invariant
                i <= self.metrics@.len(),
                out@.len() == i,
                forall|k: int| 0 <= k < i ==> (#[trigger] out@[k])@ == self.metrics@[k]@,
            decreases self.metrics@.len() - i,
        {
            out.push(self.metrics[i].clone());
            i += 1;
        }
        assert(metrics_of(out@) =~= self@);
        let mut j: usize = 0;
        while j < other.metrics.len()
            invariant
                j <= other.metrics@.len(),
                metrics_of(out@) == overlaid(self@, other@, j as nat),
            decreases other.metrics@.len() - j,
        {
            let metric = other.metrics[j].clone();
            let ghost acc = metrics_of(out@);
            assert(other@[j as int] == metric@);
            let mut k: usize = 0;
            let mut found: Option<usize> = None;
            while k < out.len() && found.is_none()
                invariant
                    k <= out@.len(),
                    acc == metrics_of(out@),
                    forall|x: int|
                        0 <= x < (if found is Some { found->Some_0 as int } else { k as int })
                            ==> (#[trigger] acc[x]).name != metric@.name,
                    found is Some ==> is_first_named(acc, metric@.name, found->Some_0 as int),
                decreases out@.len() - k + (if found is None { 1int } else { 0 }),
            {
                if out[k].name == metric.name {
                    found = Some(k);
                } else {
                    k += 1;
                }
            }
            match found {
                Some(p) => {
                    proof {
                        lemma_first_named_unique(acc, metric@.name, p as int);
                    }
                    out.set(p, metric);
                    assert(metrics_of(out@) =~= acc.update(p as int, metric@));
                },
                None => {
                    proof {
                        assert(!has_named(acc, metric@.name));
                    }
                    out.push(metric);
                    assert(metrics_of(out@) =~= acc.push(metric@));
                },
            }
            j += 1;
        }
        DataConfig { metrics: out }
    }
}

/// The configuration that applies to a device: the tenant configuration
/// overlaid with the device configuration where both exist, else whichever
/// exists.
pub open spec fn resolved(tenant: Option<Seq<MetricSpec>>, device: Option<Seq<MetricSpec>>) -> Option<
    Seq<MetricSpec>,
> {
    match (tenant, device) {
        (Some(t), Some(d)) => Some(overlaid(t, d, d.len())),
        (None, Some(d)) => Some(d),
        (t, None) => t,
    }
}

/// Combines the tenant configuration and the device configuration that was
/// found, if any.
pub fn resolve_config(tenant: Option<DataConfig>, device: Option<DataConfig>) -> (r: Option<
    DataConfig,
>)
    ensures
        match r {
            Some(c) => resolved(
                match tenant {
                    Some(t) => Some(t@),
                    None => None,
                },
                match device {
                    Some(d) => Some(d@),
                    None => None,
                },
            ) == Some(c@),
            None => tenant is None && device is None,
        },
{
    match device {
        Some(d) => match tenant {
            Some(t) => Some(t.merge_with(&d)),
            None => Some(d),
        },
        None => tenant,
    }
}

/// The name of a data type on the wire.
pub open spec fn data_type_text(t: DataType) -> Seq<char> {
    match t {
        DataType::Float => "Float"@,
        DataType::Int => "Int"@,
        DataType::Location => "Location"@,
        DataType::String => "String"@,
    }
}

/// The data type that a name on the wire stands for.
pub open spec fn data_type_of(s: Seq<char>) -> Option<DataType> {
    if s == "Float"@ {
        Some(DataType::Float)
    } else if s == "Int"@ {
        Some(DataType::Int)
    } else if s == "Location"@ {
        Some(DataType::Location)
    } else if s == "String"@ {
        Some(DataType::String)
    } else {
        None
    }
}

/// The document that stands for a metric.
pub open spec fn metric_document(m: MetricSpec) -> JsonValue {
    JsonValue::Object(
        seq![
            ("json_pointer"@, JsonValue::String(m.json_pointer)),
            ("name"@, JsonValue::String(m.name)),
            ("data_type"@, JsonValue::String(data_type_text(m.data_type))),
        ],
    )
}

/// The metric that a document stands for: an object with the three members
/// `json_pointer`, `name` and `data_type`, the last one naming a data type.
pub open spec fn metric_from(v: JsonValue) -> Option<MetricSpec> {
    match (text_member(v, "json_pointer"@), text_member(v, "name"@), text_member(v, "data_type"@)) {
        (Some(p), Some(n), Some(t)) => match data_type_of(t) {
            Some(dt) => Some(MetricSpec { json_pointer: p, name: n, data_type: dt }),
            None => None,
        },
        _ => None,
    }
}

/// The metrics that the first `n` documents of a list stand for, if each of
/// them stands for one.
pub open spec fn metrics_from(items: Seq<JsonValue>, n: nat) -> Option<Seq<MetricSpec>>
    decreases n,
{
    if n == 0 || n > items.len() {
        Some(Seq::empty())
    } else {
        match (metrics_from(items, (n - 1) as nat), metric_from(items[n - 1])) {
            (Some(list), Some(m)) => Some(list.push(m)),
            _ => None,
        }
    }
}

/// The configuration that a document stands for: an object whose member
/// `metrics` is an array of metric documents.
pub open spec fn config_from(v: JsonValue) -> Option<Seq<MetricSpec>> {
    match v.member("metrics"@) {
        Some(JsonValue::Array(items)) => metrics_from(items, items.len()),
        _ => None,
    }
}

impl DataType {
    /// The name of the data type on the wire.
    pub fn as_str(&self) -> (r: &'static str)
        ensures
            r@ == data_type_text(*self),
    {
        match self {
            DataType::Float => "Float",
            DataType::Int => "Int",
            DataType::Location => "Location",
            DataType::String => "String",
        }
    }

    /// The data type that a name on the wire stands for.
    pub fn from_name(name: &String) -> (r: Option<DataType>)
        ensures
            r == data_type_of(name@),
    {
        if *name == "Float".to_owned() {
            Some(DataType::Float)
        } else if *name == "Int".to_owned() {
            Some(DataType::Int)
        } else if *name == "Location".to_owned() {
            Some(DataType::Location)
        } else if *name == "String".to_owned() {
            Some(DataType::String)
        } else {
            None
        }
    }
}

impl MetricConfig {
    /// The document that stands for this metric.
    pub fn to_value(&self) -> (r: Json)
        ensures
            r@ == metric_document(self@),
    {
        let mut entries: Vec<(String, Json)> = Vec::new();
        assert(members_of(entries@) =~= Seq::empty());
        push_member(&mut entries, "json_pointer", Json::String(self.json_pointer.clone()));
        push_member(&mut entries, "name", Json::String(self.name.clone()));
        push_member(&mut entries, "data_type", Json::text(self.data_type.as_str()));
        assert(members_of(entries@) =~= metric_document(self@)->Object_0);
        Json::object(entries)
    }

    /// The metric that a document stands for, if it stands for one.
    pub fn from_value(v: &Json) -> (r: Option<MetricConfig>)
        ensures
            match r {
                Some(m) => metric_from(v@) == Some(m@),
                None => metric_from(v@) is None,
            },
    {
        let pointer = v.get_text("json_pointer");
        let name = v.get_text("name");
        let data_type = v.get_text("data_type");
        match (pointer, name, data_type) {
            (Some(p), Some(n), Some(t)) => match DataType::from_name(&t) {
                Some(dt) => Some(MetricConfig { json_pointer: p, name: n, data_type: dt }),
                None => None,
            },
            _ => None,
        }
    }
}

/// The documents that stand for the first `n` metrics of a list.
pub open spec fn metric_documents(list: Seq<MetricSpec>) -> Seq<JsonValue> {
    Seq::new(list.len(), |i: int| metric_document(list[i]))
}

/// The document that stands for a configuration.
pub open spec fn config_document(list: Seq<MetricSpec>) -> JsonValue {
    JsonValue::Object(seq![("metrics"@, JsonValue::Array(metric_documents(list)))])
}

/// The documents of a list of metrics.
pub fn metrics_to_value(metrics: &Vec<MetricConfig>) -> (r: Json)
    ensures
        r@ == JsonValue::Array(metric_documents(metrics_of(metrics@))),
{
    let mut items: Vec<Json> = Vec::new();
    let mut i: usize = 0;
    while i < metrics.len()
        invariant
            i <= metrics@.len(),
            items@.len() == i,
            forall|k: int| 0 <= k < i ==> (#[trigger] items@[k])@ == metric_document(metrics@[k]@),
        decreases metrics@.len() - i,
    {
        items.push(metrics[i].to_value());
        i += 1;
    }
    assert(values_of(items@) =~= metric_documents(metrics_of(metrics@)));
    Json::array(items)
}

/// The metrics that an array of documents stands for, if each of them stands
/// for one.
pub fn metrics_from_value(v: &Json) -> (r: Option<Vec<MetricConfig>>)
    ensures
        match r {
            Some(list) => v@ is Array && metrics_from(v@->Array_0, v@->Array_0.len()) == Some(
                metrics_of(list@),
            ),
            None => !(v@ is Array) || metrics_from(v@->Array_0, v@->Array_0.len()) is None,
        },
{
    match v {
        Json::Array(items) => {
            proof {
                lemma_array_view(*items);
            }
            let ghost docs = values_of(items@);
            let mut out: Vec<MetricConfig> = Vec::new();
            let mut i: usize = 0;
            assert(metrics_of(out@) =~= Seq::empty());
            while i < items.len()
                invariant
                    i <= items@.len(),
                    docs == values_of(items@),
                    v@ == JsonValue::Array(docs),
                    metrics_from(docs, i as nat) == Some(metrics_of(out@)),
                decreases items@.len() - i,
            {
                match MetricConfig::from_value(&items[i]) {
                    Some(m) => {
                        let ghost before = metrics_of(out@);
                        out.push(m);
                        assert(metrics_of(out@) =~= before.push(m@));
                    },
                    None => {
                        proof {
                            assert(docs[i as int] == items@[i as int]@);
                            assert(metrics_from(docs, (i + 1) as nat) is None);
                            lemma_metrics_from_fails(docs, (i + 1) as nat, docs.len());
                        }
                        return None;
                    },
                }
                i += 1;
            }
            Some(out)
        },
        _ => None,
    }
}

proof fn lemma_metrics_from_fails(items: Seq<JsonValue>, k: nat, n: nat)
    requires
        k <= n <= items.len(),
        metrics_from(items, k) is None,
    ensures
        metrics_from(items, n) is None,
    decreases n,
{
    if k < n {
        lemma_metrics_from_fails(items, k, (n - 1) as nat);
    }
}

impl DataConfig {
    /// The document that stands for this configuration.
    pub fn to_value(&self) -> (r: Json)
        ensures
            r@ == config_document(self@),
    {
        let mut entries: Vec<(String, Json)> = Vec::new();
        assert(members_of(entries@) =~= Seq::empty());
        push_member(&mut entries, "metrics", metrics_to_value(&self.metrics));
        assert(members_of(entries@) =~= config_document(self@)->Object_0);
        Json::object(entries)
    }

    /// The configuration that a document stands for, if it stands for one.
    pub fn decode(v: &Json) -> (r: Option<DataConfig>)
        ensures
            match r {
                Some(c) => config_from(v@) == Some(c@),
                None => config_from(v@) is None,
            },
    {
        match v.get_member("metrics") {
            Some(list) => match metrics_from_value(list) {
                Some(metrics) => Some(DataConfig { metrics }),
                None => None,
            },
            None => None,
        }
    }

    /// The configuration that a document stands for; a document that stands
    /// for none gives the configuration without metrics.
    pub fn from_value(v: &Json) -> (r: DataConfig)
        ensures
            r@ == match config_from(v@) {
                Some(c) => c,
                None => Seq::<MetricSpec>::empty(),
            },
    {
        match DataConfig::decode(v) {
            Some(c) => c,
            None => DataConfig::empty(),
        }
    }
}

} // verus!
