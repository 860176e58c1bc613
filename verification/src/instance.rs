//! Instance records of the naming registry.
//!
//! An `Instance` is one registered service endpoint; every update stores a
//! fresh record, so readers holding an earlier copy never observe a
//! half-updated one. An `InstanceTimeInfo` is the health-tracking record the
//! registry appends on each update; superseded records stay in place with
//! `enable` turned off.

use vstd::prelude::*;

verus! {

/// The mathematical image of an `Instance`: every string a sequence of
/// characters, the metadata a sequence of key/value pairs.
pub struct InstanceModel {
    pub id: Seq<char>,
    pub service_name: Seq<char>,
    pub enabled: bool,
    pub healthy: bool,
    pub ephemeral: bool,
    pub weight: u64,
    pub metadata: Seq<(Seq<char>, Seq<char>)>,
    pub last_modified_millis: i64,
}

/// The image of a list of string pairs.
pub open spec fn pairs_view(s: Seq<(String, String)>) -> Seq<(Seq<char>, Seq<char>)> {
    Seq::new(s.len(), |i: int| (s[i].0@, s[i].1@))
}

/// One registered service endpoint.
#[derive(Debug)]
pub struct Instance {
    /// Stable identity, typically host, port and cluster.
    pub id: String,
    pub service_name: String,
    pub enabled: bool,
    pub healthy: bool,
    /// Whether the registration is lease-based and must be refreshed.
    pub ephemeral: bool,
    /// Load-balancing weight.
    pub weight: u64,
    /// Free-form string attributes, in insertion order.
    pub metadata: Vec<(String, String)>,
    /// Timestamp of the last update, in milliseconds.
    pub last_modified_millis: i64,
}

impl View for Instance {
    type V = InstanceModel;

    open spec fn view(&self) -> InstanceModel {
        InstanceModel {
            id: self.id@,
            service_name: self.service_name@,
            enabled: self.enabled,
            healthy: self.healthy,
            ephemeral: self.ephemeral,
            weight: self.weight,
            metadata: pairs_view(self.metadata@),
            last_modified_millis: self.last_modified_millis,
        }
    }
}

impl InstanceModel {
    /// The same instance demoted out of the healthy set.
    pub open spec fn demoted(self) -> InstanceModel {
        InstanceModel { healthy: false, ..self }
    }
}

/// A health-tracking record: which instance reported, when, and whether this
/// record is still the authoritative one for that instance.
#[derive(Debug)]
pub struct InstanceTimeInfo {
    pub instance_id: String,
    pub time: i64,
    pub enable: bool,
}

/// Which instance fields an update intends to change. A field whose flag is
/// off keeps the value already stored in the registry.
#[derive(Debug, Clone, Copy, PartialEq, Eq, Structural)]
pub struct InstanceUpdateTag {
    pub enabled: bool,
    pub ephemeral: bool,
    pub weight: bool,
    pub metadata: bool,
}

impl InstanceUpdateTag {
    /// No field is marked as changed: the update is a pure heartbeat.
    pub open spec fn spec_is_none(self) -> bool {
        !self.enabled && !self.ephemeral && !self.weight && !self.metadata
    }

    /// Whether the tag carries no changed flag at all.
    pub fn is_none(&self) -> (r: bool)
        ensures
            r == self.spec_is_none(),
    {
        !self.enabled && !self.ephemeral && !self.weight && !self.metadata
    }
}

/// What a registry mutation did.
#[derive(Debug, Clone, Copy, PartialEq, Eq, Structural)]
pub enum UpdateInstanceType {
    /// The id was registered for the first time.
    New,
    /// The instance was removed.
    Remove,
    /// An existing instance had at least one field replaced.
    UpdateValue,
    /// A pure heartbeat: only the stored timestamp advanced.
    UpdateTime,
    /// Nothing was changed.
    NoChange,
}

/// Copies a list of string pairs.
pub fn clone_pairs(v: &Vec<(String, String)>) -> (r: Vec<(String, String)>)
    ensures
        r@ == v@,
{
    let mut r: Vec<(String, String)> = Vec::new();
    let mut i: usize = 0;
    while i < v.len()
        invariant
            i <= v.len(),
            r@ == v@.take(i as int),
        decreases v.len() - i,
    {
        let p = (v[i].0.clone(), v[i].1.clone());
        assert(p == v@[i as int]);
        r.push(p);
        assert(r@ =~= v@.take(i as int + 1));
        i += 1;
    }
    assert(r@ =~= v@);
    r
}

impl Clone for Instance {
    /// A copy with the same image; readers get snapshots through this,
    /// never aliases.
    fn clone(&self) -> (r: Self)
        ensures
            r@ == self@,
    {
        Instance {
            id: self.id.clone(),
            service_name: self.service_name.clone(),
            enabled: self.enabled,
            healthy: self.healthy,
            ephemeral: self.ephemeral,
            weight: self.weight,
            metadata: clone_pairs(&self.metadata),
            last_modified_millis: self.last_modified_millis,
        }
    }
}

impl Clone for InstanceTimeInfo {
    /// An exact copy of the record.
    fn clone(&self) -> (r: Self)
        ensures
            r == *self,
    {
        InstanceTimeInfo {
            instance_id: self.instance_id.clone(),
            time: self.time,
            enable: self.enable,
        }
    }
}

impl Instance {
    /// The health record a registry update appends for this instance.
    pub fn get_time_info(&self) -> (r: InstanceTimeInfo)
        ensures
            r.instance_id == self.id,
            r.time == self.last_modified_millis,
            r.enable,
    {
        InstanceTimeInfo {
            instance_id: self.id.clone(),
            time: self.last_modified_millis,
            enable: true,
        }
    }
}

/// The triple that names one registry.
#[derive(Debug)]
pub struct ServiceKey {
    pub namespace_id: String,
    pub group_name: String,
    pub service_name: String,
}

impl ServiceKey {
    pub fn new(namespace_id: &str, group_name: &str, service_name: &str) -> (r: Self)
        ensures
            r.namespace_id@ == namespace_id@,
            r.group_name@ == group_name@,
            r.service_name@ == service_name@,
    {
        ServiceKey {
            namespace_id: namespace_id.to_owned(),
            group_name: group_name.to_owned(),
            service_name: service_name.to_owned(),
        }
    }
}

/// Service-level metadata handed to queries.
#[derive(Debug)]
pub struct ServiceMetadata {
    /// Minimum healthy-instance ratio, in thousandths, below which unhealthy
    /// instances may still be returned to avoid a total outage.
    pub protect_threshold: u32,
}

/// The persistence row of one registry, with absent columns as `None`.
#[derive(Debug)]
pub struct ServiceDO {
    pub namespace_id: Option<String>,
    pub service_name: Option<String>,
    pub group_name: Option<String>,
    pub instance_size: Option<i64>,
}

} // verus!
