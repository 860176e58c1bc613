//! The registry for one namespace, group and service triple.
//!
//! A `Service` owns the instance map and the time-ordered health list. It is
//! a pure state machine: every mutation is driven by an inbound request or by
//! a periodic time-check tick whose thresholds the caller supplies. Readers
//! get copied snapshots, so no mutation is ever observed half-applied.

use vstd::prelude::*;

use crate::instance::Instance;
use crate::instance::InstanceModel;
use crate::instance::InstanceTimeInfo;
use crate::instance::InstanceUpdateTag;
use crate::instance::ServiceDO;
use crate::instance::ServiceKey;
use crate::instance::ServiceMetadata;
use crate::instance::UpdateInstanceType;
use crate::instance::clone_pairs;

verus! {

/// Why a registry mutation was refused before touching any state.
#[derive(Debug, Clone, Copy, PartialEq, Eq, Structural)]
pub enum RegistryError {
    /// A time check was asked for with thresholds in the wrong order.
    Precondition,
}

/// Whether an instance with this id is registered.
pub open spec fn spec_has_id(s: Seq<Instance>, id: Seq<char>) -> bool {
    exists|i: int| 0 <= i < s.len() && s[i]@.id == id
}

/// The position of the instance with this id.
pub open spec fn spec_index_of(s: Seq<Instance>, id: Seq<char>) -> int {
    choose|i: int| 0 <= i < s.len() && s[i]@.id == id
}

/// The registered instance with this id, as a model, if any.
pub open spec fn spec_get_model(s: Seq<Instance>, id: Seq<char>) -> Option<InstanceModel> {
    if spec_has_id(s, id) {
        Some(s[spec_index_of(s, id)]@)
    } else {
        None
    }
}

/// No two registered instances share an id.
pub open spec fn unique_ids(s: Seq<Instance>) -> bool {
    forall|i: int, j: int|
        #![trigger s[i]@.id, s[j]@.id]
        0 <= i < j < s.len() ==> s[i]@.id != s[j]@.id
}

/// At most one health record per instance id is still authoritative.
pub open spec fn at_most_one_enabled(s: Seq<InstanceTimeInfo>) -> bool {
    forall|i: int, j: int|
        #![trigger s[i], s[j]]
        0 <= i < j < s.len() && s[i].enable && s[j].enable ==> s[i].instance_id@
            != s[j].instance_id@
}

/// The health list with every record of this instance marked superseded.
pub open spec fn spec_disable(s: Seq<InstanceTimeInfo>, id: Seq<char>) -> Seq<InstanceTimeInfo> {
    Seq::new(
        s.len(),
        |i: int|
            if s[i].instance_id@ == id {
                InstanceTimeInfo { enable: false, ..s[i] }
            } else {
                s[i]
            },
    )
}

/// The registry for one namespace, group and service key.
#[derive(Debug)]
pub struct Service {
    pub service_name: String,
    pub group_name: String,
    /// Service-level string attributes, in insertion order.
    pub metadata: Vec<(String, String)>,
    /// Minimum healthy-instance ratio, in thousandths.
    pub protect_threshold: u32,
    pub last_modified_millis: i64,
    pub namespace_id: String,
    pub app_name: String,
    /// Placeholder digest, reset whenever the registry changes.
    pub check_sum: String,
    /// Maintained count of registered instances.
    pub instance_size: i64,
    /// The instance map: one record per id.
    pub instances: Vec<Instance>,
    /// The append-only health list, oldest first.
    pub timeinfos: Vec<InstanceTimeInfo>,
}

impl Service {
    /// The registry's internal invariant: the maintained count matches the
    /// map, ids are unique, and each id has at most one authoritative health
    /// record.
    pub open spec fn wf(self) -> bool {
        &&& self.instance_size == self.instances@.len()
        &&& unique_ids(self.instances@)
        &&& at_most_one_enabled(self.timeinfos@)
    }
}

impl Default for Service {
    /// An empty registry.
    fn default() -> (r: Self)
        ensures
            r.wf(),
            r.instances@.len() == 0,
            r.timeinfos@.len() == 0,
            r.instance_size == 0,
            r.service_name@.len() == 0,
            r.group_name@.len() == 0,
            r.namespace_id@.len() == 0,
            r.app_name@.len() == 0,
            r.check_sum@.len() == 0,
            r.metadata@.len() == 0,
            r.protect_threshold == 0,
            r.last_modified_millis == 0,
    {
        Service {
            service_name: String::new(),
            group_name: String::new(),
            metadata: Vec::new(),
            protect_threshold: 0,
            last_modified_millis: 0,
            namespace_id: String::new(),
            app_name: String::new(),
            check_sum: String::new(),
            instance_size: 0,
            instances: Vec::new(),
            timeinfos: Vec::new(),
        }
    }
}

/// A position holds the id it was found under, so the lookup model agrees
/// with it.
proof fn lemma_get_at(s: Seq<Instance>, j: int)
    requires
        unique_ids(s),
        0 <= j < s.len(),
    ensures
        spec_get_model(s, s[j]@.id) == Some(s[j]@),
{
    let id = s[j]@.id;
    assert(spec_has_id(s, id));
    let i = spec_index_of(s, id);
    assert(0 <= i < s.len() && s[i]@.id == id);
    if i != j {
        assert(s[i]@.id != s[j]@.id);
    }
}

/// A position is the one its id is looked up at.
proof fn lemma_index_of_at(s: Seq<Instance>, j: int)
    requires
        unique_ids(s),
        0 <= j < s.len(),
    ensures
        spec_index_of(s, s[j]@.id) == j,
{
    let id = s[j]@.id;
    assert(spec_has_id(s, id));
    let i = spec_index_of(s, id);
    assert(0 <= i < s.len() && s[i]@.id == id);
    if i != j {
        assert(s[i]@.id != s[j]@.id);
    }
}

/// Replacing the record at a position, keeping its id, changes the lookup
/// model only at that id.
proof fn lemma_get_update(s: Seq<Instance>, j: int, v: Instance, k: Seq<char>)
    requires
        unique_ids(s),
        0 <= j < s.len(),
        v@.id == s[j]@.id,
    ensures
        unique_ids(s.update(j, v)),
        spec_get_model(s.update(j, v), k) == if k == v@.id {
            Some(v@)
        } else {
            spec_get_model(s, k)
        },
{
    let s2 = s.update(j, v);
    assert(forall|i: int| 0 <= i < s2.len() ==> #[trigger] s2[i]@.id == s[i]@.id);
    assert(unique_ids(s2));
    if k == v@.id {
        lemma_get_at(s2, j);
    } else {
        if spec_has_id(s, k) {
            let i = spec_index_of(s, k);
            assert(0 <= i < s.len() && s[i]@.id == k);
            assert(i != j);
            lemma_get_at(s, i);
            lemma_get_at(s2, i);
        } else {
            assert(!spec_has_id(s2, k)) by {
                if spec_has_id(s2, k) {
                    let i = choose|i: int| 0 <= i < s2.len() && s2[i]@.id == k;
                    assert(s[i]@.id == k);
                }
            }
        }
    }
}

/// Registering a fresh id appends its record and changes the lookup model
/// only at that id.
proof fn lemma_get_push(s: Seq<Instance>, v: Instance, k: Seq<char>)
    requires
        unique_ids(s),
        !spec_has_id(s, v@.id),
    ensures
        unique_ids(s.push(v)),
        spec_get_model(s.push(v), k) == if k == v@.id {
            Some(v@)
        } else {
            spec_get_model(s, k)
        },
{
    let s2 = s.push(v);
    assert forall|i: int, j: int|
        #![trigger s2[i]@.id, s2[j]@.id]
        0 <= i < j < s2.len() implies s2[i]@.id != s2[j]@.id by {
        if j < s.len() {
            assert(s2[i]@.id == s[i]@.id && s2[j]@.id == s[j]@.id);
        } else {
            assert(s2[j] == v);
            assert(s2[i]@.id == s[i]@.id);
            if s[i]@.id == v@.id {
                assert(spec_has_id(s, v@.id));
            }
        }
    }
    if k == v@.id {
        lemma_get_at(s2, s.len() as int);
    } else {
        if spec_has_id(s, k) {
            let i = spec_index_of(s, k);
            assert(0 <= i < s.len() && s[i]@.id == k);
            lemma_get_at(s, i);
            lemma_get_at(s2, i);
        } else {
            assert(!spec_has_id(s2, k)) by {
                if spec_has_id(s2, k) {
                    let i = choose|i: int| 0 <= i < s2.len() && s2[i]@.id == k;
                    if i < s.len() {
                        assert(s[i]@.id == k);
                    } else {
                        assert(s2[i] == v);
                    }
                }
            }
        }
    }
}

/// Deleting the record at a position changes the lookup model only at its id.
proof fn lemma_get_remove(s: Seq<Instance>, j: int, k: Seq<char>)
    requires
        unique_ids(s),
        0 <= j < s.len(),
    ensures
        unique_ids(s.remove(j)),
        spec_get_model(s.remove(j), k) == if k == s[j]@.id {
            None::<InstanceModel>
        } else {
            spec_get_model(s, k)
        },
{
    let s2 = s.remove(j);
    assert(forall|i: int|
        0 <= i < s2.len() ==> #[trigger] s2[i] == (if i < j {
            s[i]
        } else {
            s[i + 1]
        }));
    assert forall|a: int, b: int|
        #![trigger s2[a]@.id, s2[b]@.id]
        0 <= a < b < s2.len() implies s2[a]@.id != s2[b]@.id by {
        let a0 = if a < j { a } else { a + 1 };
        let b0 = if b < j { b } else { b + 1 };
        assert(s2[a] == s[a0] && s2[b] == s[b0]);
        assert(s[a0]@.id != s[b0]@.id);
    }
    if k == s[j]@.id {
        assert(!spec_has_id(s2, k)) by {
            if spec_has_id(s2, k) {
                let i = choose|i: int| 0 <= i < s2.len() && s2[i]@.id == k;
                let i0 = if i < j { i } else { i + 1 };
                assert(s2[i] == s[i0]);
                assert(i0 != j);
                if i0 < j {
                    assert(s[i0]@.id != s[j]@.id);
                } else {
                    assert(s[j]@.id != s[i0]@.id);
                }
            }
        }
    } else {
        if spec_has_id(s, k) {
            let i = spec_index_of(s, k);
            assert(0 <= i < s.len() && s[i]@.id == k);
            assert(i != j);
            let i2 = if i < j { i } else { i - 1 };
            assert(s2[i2] == s[i]);
            lemma_get_at(s, i);
            lemma_get_at(s2, i2);
        } else {
            assert(!spec_has_id(s2, k)) by {
                if spec_has_id(s2, k) {
                    let i = choose|i: int| 0 <= i < s2.len() && s2[i]@.id == k;
                    let i0 = if i < j { i } else { i + 1 };
                    assert(s2[i] == s[i0]);
                }
            }
        }
    }
}

/// The registry's descriptor is untouched by instance-level mutations:
/// names, metadata, thresholds and digest all stay as they were.
pub open spec fn spec_same_descriptor(a: Service, b: Service) -> bool {
    &&& a.service_name == b.service_name
    &&& a.group_name == b.group_name
    &&& a.namespace_id == b.namespace_id
    &&& a.app_name == b.app_name
    &&& a.metadata == b.metadata
    &&& a.protect_threshold == b.protect_threshold
    &&& a.last_modified_millis == b.last_modified_millis
    &&& a.check_sum == b.check_sum
}

/// The stored image of an update: every field whose flag is off keeps the
/// value already registered; id, name and timestamp always come from the
/// update.
pub open spec fn spec_merge(
    new: InstanceModel,
    old_m: InstanceModel,
    tag: InstanceUpdateTag,
) -> InstanceModel {
    InstanceModel {
        enabled: if tag.enabled {
            new.enabled
        } else {
            old_m.enabled
        },
        ephemeral: if tag.ephemeral {
            new.ephemeral
        } else {
            old_m.ephemeral
        },
        weight: if tag.weight {
            new.weight
        } else {
            old_m.weight
        },
        metadata: if tag.metadata {
            new.metadata
        } else {
            old_m.metadata
        },
        ..new
    }
}

/// What an update stores for its id: a merge against the registered record
/// when one exists and a tag was supplied, the update itself otherwise.
pub open spec fn spec_stored_model(
    old_insts: Seq<Instance>,
    new: InstanceModel,
    update_tag: Option<InstanceUpdateTag>,
) -> InstanceModel {
    match spec_get_model(old_insts, new.id) {
        Some(old_m) => match update_tag {
            Some(tag) => spec_merge(new, old_m, tag),
            None => new,
        },
        None => new,
    }
}

/// What an update reports: `New` for a fresh id, `UpdateTime` for a pure
/// heartbeat against a registered one, `UpdateValue` otherwise.
pub open spec fn spec_update_result(
    old_insts: Seq<Instance>,
    id: Seq<char>,
    update_tag: Option<InstanceUpdateTag>,
) -> UpdateInstanceType {
    if !spec_has_id(old_insts, id) {
        UpdateInstanceType::New
    } else {
        match update_tag {
            Some(tag) => if tag.spec_is_none() {
                UpdateInstanceType::UpdateTime
            } else {
                UpdateInstanceType::UpdateValue
            },
            None => UpdateInstanceType::UpdateValue,
        }
    }
}

/// The ids the time-ordered scan marks for removal: authoritative records,
/// oldest first, with `time <= offline_time`, up to the first authoritative
/// record newer than `healthy_time`.
pub open spec fn spec_removed_ids(
    s: Seq<InstanceTimeInfo>,
    healthy_time: i64,
    offline_time: i64,
) -> Seq<Seq<char>>
    decreases s.len(),
{
    if s.len() == 0 {
        Seq::empty()
    } else if s[0].enable && s[0].time > healthy_time {
        Seq::empty()
    } else if s[0].enable && s[0].time <= offline_time {
        seq![s[0].instance_id@] + spec_removed_ids(s.drop_first(), healthy_time, offline_time)
    } else {
        spec_removed_ids(s.drop_first(), healthy_time, offline_time)
    }
}

/// The ids the scan marks for demotion: authoritative records with
/// `offline_time < time <= healthy_time`, oldest first, up to the same stop.
pub open spec fn spec_demoted_ids(
    s: Seq<InstanceTimeInfo>,
    healthy_time: i64,
    offline_time: i64,
) -> Seq<Seq<char>>
    decreases s.len(),
{
    if s.len() == 0 {
        Seq::empty()
    } else if s[0].enable && s[0].time > healthy_time {
        Seq::empty()
    } else if s[0].enable && s[0].time <= offline_time {
        spec_demoted_ids(s.drop_first(), healthy_time, offline_time)
    } else if s[0].enable {
        seq![s[0].instance_id@] + spec_demoted_ids(s.drop_first(), healthy_time, offline_time)
    } else {
        spec_demoted_ids(s.drop_first(), healthy_time, offline_time)
    }
}

/// What the health list keeps after the scan: the suffix from the first
/// authoritative record newer than `healthy_time` on; every visited record
/// is consumed.
pub open spec fn spec_surviving(s: Seq<InstanceTimeInfo>, healthy_time: i64) -> Seq<
    InstanceTimeInfo,
>
    decreases s.len(),
{
    if s.len() == 0 {
        s
    } else if s[0].enable && s[0].time > healthy_time {
        s
    } else {
        spec_surviving(s.drop_first(), healthy_time)
    }
}

/// Appending one element extends membership by exactly that element.
proof fn lemma_contains_push<T>(s: Seq<T>, x: T, k: T)
    ensures
        s.push(x).contains(k) <==> (s.contains(k) || k == x),
{
    if s.contains(k) {
        let i = choose|i: int| 0 <= i < s.len() && s[i] == k;
        assert(s.push(x)[i] == k);
    }
    if k == x {
        assert(s.push(x)[s.len() as int] == k);
    }
    if s.push(x).contains(k) {
        let i = choose|i: int| 0 <= i < s.push(x).len() && s.push(x)[i] == k;
        if i < s.len() {
            assert(s[i] == k);
        }
    }
}

impl Service {
    /// Resets the placeholder digest; everything else is untouched.
    pub fn recalculate_checksum(&mut self)
        ensures
            final(self).check_sum@.len() == 0,
            final(self).instances == old(self).instances,
            final(self).timeinfos == old(self).timeinfos,
            final(self).instance_size == old(self).instance_size,
            final(self).service_name == old(self).service_name,
            final(self).group_name == old(self).group_name,
            final(self).namespace_id == old(self).namespace_id,
            final(self).app_name == old(self).app_name,
            final(self).metadata == old(self).metadata,
            final(self).protect_threshold == old(self).protect_threshold,
            final(self).last_modified_millis == old(self).last_modified_millis,
    {
        self.check_sum = String::new();
    }

    /// The position of the instance registered under this key, if any.
    fn find_index(&self, key: &String) -> (r: Option<usize>)
        ensures
            match r {
                Some(j) => j < self.instances@.len() && self.instances@[j as int]@.id == key@,
                None => !spec_has_id(self.instances@, key@),
            },
    {
        let mut i: usize = 0;
        while i < self.instances.len()
            invariant
                i <= self.instances@.len(),
                forall|k: int| 0 <= k < i ==> #[trigger] self.instances@[k]@.id != key@,
            decreases self.instances@.len() - i,
        {
            if self.instances[i].id == *key {
                return Some(i);
            }
            i += 1;
        }
        None
    }

    /// Appends a fresh health record and supersedes, without reordering,
    /// every earlier record of the same instance.
    pub fn update_timeinfos(&mut self, time_info: InstanceTimeInfo)
        requires
            old(self).wf(),
        ensures
            final(self).wf(),
            final(self).timeinfos@ == spec_disable(
                old(self).timeinfos@,
                time_info.instance_id@,
            ).push(time_info),
            final(self).instances == old(self).instances,
            final(self).instance_size == old(self).instance_size,
            spec_same_descriptor(*old(self), *final(self)),
    {
        let ghost t0 = self.timeinfos@;
        let mut i: usize = 0;
        while i < self.timeinfos.len()
            invariant
                old(self).wf(),
                i <= self.timeinfos@.len(),
                self.timeinfos@.len() == t0.len(),
                t0 == old(self).timeinfos@,
                forall|k: int|
                    #![trigger self.timeinfos@[k]]
                    0 <= k < t0.len() ==> self.timeinfos@[k] == (if k < i && t0[k].instance_id@
                        == time_info.instance_id@ {
                        InstanceTimeInfo { enable: false, ..t0[k] }
                    } else {
                        t0[k]
                    }),
                self.instances == old(self).instances,
                self.instance_size == old(self).instance_size,
                spec_same_descriptor(*old(self), *self),
            decreases t0.len() - i,
        {
            if self.timeinfos[i].instance_id == time_info.instance_id {
                let rec = self.timeinfos[i].clone();
                assert(rec == t0[i as int]);
                self.timeinfos[i] = InstanceTimeInfo {
                    instance_id: rec.instance_id,
                    time: rec.time,
                    enable: false,
                };
            }
            i += 1;
        }
        assert(self.timeinfos@ =~= spec_disable(t0, time_info.instance_id@));
        let ghost disabled = self.timeinfos@;
        self.timeinfos.push(time_info);
        proof {
            let t2 = self.timeinfos@;
            assert forall|a: int, b: int|
                #![trigger t2[a], t2[b]]
                0 <= a < b < t2.len() && t2[a].enable && t2[b].enable implies t2[a].instance_id@
                != t2[b].instance_id@ by {
                if b < disabled.len() {
                    assert(t0[a].enable && t0[b].enable);
                } else {
                    assert(t2[b] == time_info);
                    assert(t2[a] == disabled[a]);
                    if t2[a].instance_id@ == time_info.instance_id@ {
                        assert(disabled[a].enable == false);
                    }
                }
            }
        }
    }

    /// Registers or updates one instance. A fresh id is inserted as given; a
    /// registered one is replaced by the merge its tag asks for, a missing
    /// tag meaning a full replace. Either way the stored record is a new
    /// immutable version and the health list gains its record.
    pub fn update_instance(
        &mut self,
        instance: Instance,
        update_tag: Option<InstanceUpdateTag>,
    ) -> (r: UpdateInstanceType)
        requires
            old(self).wf(),
            old(self).instances@.len() < 0x7fff_ffff_ffff_ffff,
        ensures
            final(self).wf(),
            r == spec_update_result(old(self).instances@, instance@.id, update_tag),
            final(self).instance_size == old(self).instance_size + (if spec_has_id(
                old(self).instances@,
                instance@.id,
            ) {
                0int
            } else {
                1int
            }),
            forall|k: Seq<char>|
                #[trigger] spec_get_model(final(self).instances@, k) == (if k == instance@.id {
                    Some(spec_stored_model(old(self).instances@, instance@, update_tag))
                } else {
                    spec_get_model(old(self).instances@, k)
                }),
            final(self).timeinfos@ == spec_disable(old(self).timeinfos@, instance@.id).push(
                InstanceTimeInfo {
                    instance_id: instance.id,
                    time: instance.last_modified_millis,
                    enable: true,
                },
            ),
            spec_same_descriptor(*old(self), *final(self)),
    {
        let ghost old_insts = self.instances@;
        let ti = instance.get_time_info();
        match self.find_index(&instance.id) {
            None => {
                proof {
                    assert forall|k: Seq<char>| true implies #[trigger] spec_get_model(
                        old_insts.push(instance),
                        k,
                    ) == (if k == instance@.id {
                        Some(spec_stored_model(old_insts, instance@, update_tag))
                    } else {
                        spec_get_model(old_insts, k)
                    }) by {
                        lemma_get_push(old_insts, instance, k);
                    }
                    lemma_get_push(old_insts, instance, instance@.id);
                }
                self.instances.push(instance);
                self.instance_size = self.instance_size + 1;
                self.update_timeinfos(ti);
                UpdateInstanceType::New
            },
            Some(j) => {
                let Instance {
                    id,
                    service_name,
                    enabled,
                    healthy,
                    ephemeral,
                    weight,
                    metadata,
                    last_modified_millis,
                } = instance;
                let (merged, rtype) = match update_tag {
                    Some(tag) => {
                        let m = Instance {
                            id,
                            service_name,
                            healthy,
                            last_modified_millis,
                            enabled: if tag.enabled {
                                enabled
                            } else {
                                self.instances[j].enabled
                            },
                            ephemeral: if tag.ephemeral {
                                ephemeral
                            } else {
                                self.instances[j].ephemeral
                            },
                            weight: if tag.weight {
                                weight
                            } else {
                                self.instances[j].weight
                            },
                            metadata: if tag.metadata {
                                metadata
                            } else {
                                clone_pairs(&self.instances[j].metadata)
                            },
                        };
                        let t = if tag.is_none() {
                            UpdateInstanceType::UpdateTime
                        } else {
                            UpdateInstanceType::UpdateValue
                        };
                        (m, t)
                    },
                    None => (
                        Instance {
                            id,
                            service_name,
                            enabled,
                            healthy,
                            ephemeral,
                            weight,
                            metadata,
                            last_modified_millis,
                        },
                        UpdateInstanceType::UpdateValue,
                    ),
                };
                proof {
                    lemma_get_at(old_insts, j as int);
                    assert(merged@ == spec_stored_model(old_insts, instance@, update_tag));
                    assert forall|k: Seq<char>| true implies #[trigger] spec_get_model(
                        old_insts.update(j as int, merged),
                        k,
                    ) == (if k == instance@.id {
                        Some(spec_stored_model(old_insts, instance@, update_tag))
                    } else {
                        spec_get_model(old_insts, k)
                    }) by {
                        lemma_get_update(old_insts, j as int, merged, k);
                    }
                    lemma_get_update(old_insts, j as int, merged, instance@.id);
                }
                self.instances[j] = merged;
                self.update_timeinfos(ti);
                rtype
            },
        }
    }

    /// One eviction pass, driven by an external tick. The health list is
    /// scanned oldest-first up to the first authoritative record newer than
    /// `healthy_time`; of the authoritative records visited, those no newer
    /// than `offline_time` have their instances removed and the others are
    /// demoted out of the healthy set. Every visited record is consumed.
    /// Thresholds in the wrong order are refused before any state changes.
    pub fn time_check(&mut self, healthy_time: i64, offline_time: i64) -> (r: Result<
        (Vec<String>, Vec<String>),
        RegistryError,
    >)
        requires
            old(self).wf(),
        ensures
            final(self).wf(),
            match r {
                Ok(lists) => {
                    &&& healthy_time >= offline_time
                    &&& lists.0.deep_view() == spec_removed_ids(
                        old(self).timeinfos@,
                        healthy_time,
                        offline_time,
                    )
                    &&& lists.1.deep_view() == spec_demoted_ids(
                        old(self).timeinfos@,
                        healthy_time,
                        offline_time,
                    )
                    &&& final(self).timeinfos@ == spec_surviving(
                        old(self).timeinfos@,
                        healthy_time,
                    )
                    &&& forall|k: Seq<char>|
                        #[trigger] spec_get_model(final(self).instances@, k) == (
                        match spec_get_model(old(self).instances@, k) {
                            Some(m) => if spec_removed_ids(
                                old(self).timeinfos@,
                                healthy_time,
                                offline_time,
                            ).contains(k) {
                                None
                            } else if spec_demoted_ids(
                                old(self).timeinfos@,
                                healthy_time,
                                offline_time,
                            ).contains(k) {
                                Some(m.demoted())
                            } else {
                                Some(m)
                            },
                            None => None,
                        })
                    &&& spec_same_descriptor(*old(self), *final(self))
                },
                Err(e) => {
                    &&& healthy_time < offline_time
                    &&& e == RegistryError::Precondition
                    &&& *final(self) == *old(self)
                },
            },
    {
        if healthy_time < offline_time {
            return Err(RegistryError::Precondition);
        }
        let ghost t0 = self.timeinfos@;
        let mut remove_list: Vec<String> = Vec::new();
        let mut update_list: Vec<String> = Vec::new();
        let mut i: usize = 0;
        let mut stopped: bool = false;
        proof {
            assert(t0.skip(0) =~= t0);
            assert(remove_list.deep_view() =~= Seq::<Seq<char>>::empty());
            assert(update_list.deep_view() =~= Seq::<Seq<char>>::empty());
            assert(Seq::<Seq<char>>::empty() + spec_removed_ids(t0, healthy_time, offline_time)
                =~= spec_removed_ids(t0, healthy_time, offline_time));
            assert(Seq::<Seq<char>>::empty() + spec_demoted_ids(t0, healthy_time, offline_time)
                =~= spec_demoted_ids(t0, healthy_time, offline_time));
        }
        while i < self.timeinfos.len() && !stopped
            invariant
                old(self).wf(),
                t0 == old(self).timeinfos@,
                self.timeinfos@ == t0,
                self.instances == old(self).instances,
                self.instance_size == old(self).instance_size,
                spec_same_descriptor(*old(self), *self),
                i <= t0.len(),
                forall|k: int|
                    0 <= k < i ==> !(#[trigger] t0[k].enable && t0[k].time > healthy_time),
                stopped ==> i < t0.len() && t0[i as int].enable && t0[i as int].time
                    > healthy_time,
                spec_removed_ids(t0, healthy_time, offline_time) == remove_list.deep_view()
                    + spec_removed_ids(t0.skip(i as int), healthy_time, offline_time),
                spec_demoted_ids(t0, healthy_time, offline_time) == update_list.deep_view()
                    + spec_demoted_ids(t0.skip(i as int), healthy_time, offline_time),
                spec_surviving(t0, healthy_time) == spec_surviving(t0.skip(i as int), healthy_time),
            decreases t0.len() - i + (if stopped {
                0int
            } else {
                1int
            }),
        {
            let rec_enable = self.timeinfos[i].enable;
            let rec_time = self.timeinfos[i].time;
            if rec_enable && rec_time > healthy_time {
                stopped = true;
            } else {
                let ghost si = t0.skip(i as int);
                proof {
                    assert(si[0] == t0[i as int]);
                    assert(si.drop_first() =~= t0.skip(i as int + 1));
                }
                if rec_enable && rec_time <= offline_time {
                    let ghost dv0 = remove_list.deep_view();
                    remove_list.push(self.timeinfos[i].instance_id.clone());
                    proof {
                        assert(remove_list.deep_view() =~= dv0.push(t0[i as int].instance_id@));
                        assert(spec_removed_ids(si, healthy_time, offline_time) == seq![
                            t0[i as int].instance_id@,
                        ] + spec_removed_ids(t0.skip(i as int + 1), healthy_time, offline_time));
                        assert(dv0 + (seq![t0[i as int].instance_id@] + spec_removed_ids(
                            t0.skip(i as int + 1),
                            healthy_time,
                            offline_time,
                        )) =~= dv0.push(t0[i as int].instance_id@) + spec_removed_ids(
                            t0.skip(i as int + 1),
                            healthy_time,
                            offline_time,
                        ));
                        assert(spec_demoted_ids(si, healthy_time, offline_time)
                            == spec_demoted_ids(t0.skip(i as int + 1), healthy_time, offline_time));
                    }
                } else if rec_enable {
                    let ghost dv0 = update_list.deep_view();
                    update_list.push(self.timeinfos[i].instance_id.clone());
                    proof {
                        assert(update_list.deep_view() =~= dv0.push(t0[i as int].instance_id@));
                        assert(spec_demoted_ids(si, healthy_time, offline_time) == seq![
                            t0[i as int].instance_id@,
                        ] + spec_demoted_ids(t0.skip(i as int + 1), healthy_time, offline_time));
                        assert(dv0 + (seq![t0[i as int].instance_id@] + spec_demoted_ids(
                            t0.skip(i as int + 1),
                            healthy_time,
                            offline_time,
                        )) =~= dv0.push(t0[i as int].instance_id@) + spec_demoted_ids(
                            t0.skip(i as int + 1),
                            healthy_time,
                            offline_time,
                        ));
                        assert(spec_removed_ids(si, healthy_time, offline_time)
                            == spec_removed_ids(t0.skip(i as int + 1), healthy_time, offline_time));
                    }
                } else {
                    proof {
                        assert(spec_removed_ids(si, healthy_time, offline_time)
                            == spec_removed_ids(t0.skip(i as int + 1), healthy_time, offline_time));
                        assert(spec_demoted_ids(si, healthy_time, offline_time)
                            == spec_demoted_ids(t0.skip(i as int + 1), healthy_time, offline_time));
                    }
                }
                proof {
                    assert(spec_surviving(si, healthy_time) == spec_surviving(
                        t0.skip(i as int + 1),
                        healthy_time,
                    ));
                }
                i += 1;
            }
        }
        proof {
            let si = t0.skip(i as int);
            if stopped {
                assert(si[0] == t0[i as int]);
                assert(spec_removed_ids(si, healthy_time, offline_time) == Seq::<
                    Seq<char>,
                >::empty());
                assert(spec_demoted_ids(si, healthy_time, offline_time) == Seq::<
                    Seq<char>,
                >::empty());
                assert(spec_surviving(si, healthy_time) == si);
            } else {
                assert(i == t0.len());
                assert(si =~= Seq::<InstanceTimeInfo>::empty());
                assert(spec_surviving(si, healthy_time) == si);
            }
            assert(remove_list.deep_view() + Seq::<Seq<char>>::empty() =~= remove_list.deep_view());
            assert(update_list.deep_view() + Seq::<Seq<char>>::empty() =~= update_list.deep_view());
            assert(remove_list.deep_view() == spec_removed_ids(t0, healthy_time, offline_time));
            assert(update_list.deep_view() == spec_demoted_ids(t0, healthy_time, offline_time));
            assert(spec_surviving(t0, healthy_time) == t0.skip(i as int));
        }
        let ghost stop = i as int;
        let rest = self.timeinfos.split_off(i);
        self.timeinfos = rest;
        proof {
            assert(self.timeinfos@ =~= t0.skip(stop));
            let t2 = self.timeinfos@;
            assert forall|a: int, b: int|
                #![trigger t2[a], t2[b]]
                0 <= a < b < t2.len() && t2[a].enable && t2[b].enable implies t2[a].instance_id@
                != t2[b].instance_id@ by {
                assert(t2[a] == t0[a + stop] && t2[b] == t0[b + stop]);
            }
        }
        let ghost dvr = remove_list.deep_view();
        let ghost dvd = update_list.deep_view();
        let ghost insts0 = self.instances@;
        let mut idx: usize = 0;
        while idx < remove_list.len()
            invariant
                idx <= remove_list.len(),
                self.wf(),
                remove_list.deep_view() == dvr,
                update_list.deep_view() == dvd,
                self.timeinfos@ == spec_surviving(t0, healthy_time),
                insts0 == old(self).instances@,
                spec_same_descriptor(*old(self), *self),
                forall|k: Seq<char>|
                    #[trigger] spec_get_model(self.instances@, k) == (if dvr.take(
                        idx as int,
                    ).contains(k) {
                        None::<InstanceModel>
                    } else {
                        spec_get_model(insts0, k)
                    }),
            decreases remove_list.len() - idx,
        {
            let ghost prev = self.instances@;
            self.remove_instance(remove_list[idx].as_str());
            proof {
                assert(remove_list@[idx as int]@ == dvr[idx as int]);
                assert(dvr.take(idx as int + 1) =~= dvr.take(idx as int).push(dvr[idx as int]));
                assert forall|k: Seq<char>| true implies #[trigger] spec_get_model(
                    self.instances@,
                    k,
                ) == (if dvr.take(idx as int + 1).contains(k) {
                    None::<InstanceModel>
                } else {
                    spec_get_model(insts0, k)
                }) by {
                    lemma_contains_push(dvr.take(idx as int), dvr[idx as int], k);
                    assert(spec_get_model(self.instances@, k) == (if k == dvr[idx as int] {
                        None::<InstanceModel>
                    } else {
                        spec_get_model(prev, k)
                    }));
                }
            }
            idx += 1;
        }
        proof {
            assert(dvr.take(remove_list@.len() as int) =~= dvr);
        }
        let mut idx2: usize = 0;
        while idx2 < update_list.len()
            invariant
                idx2 <= update_list.len(),
                self.wf(),
                remove_list.deep_view() == dvr,
                update_list.deep_view() == dvd,
                self.timeinfos@ == spec_surviving(t0, healthy_time),
                insts0 == old(self).instances@,
                spec_same_descriptor(*old(self), *self),
                forall|k: Seq<char>|
                    #[trigger] spec_get_model(self.instances@, k) == (match spec_get_model(
                        insts0,
                        k,
                    ) {
                        Some(m) => if dvr.contains(k) {
                            None::<InstanceModel>
                        } else if dvd.take(idx2 as int).contains(k) {
                            Some(m.demoted())
                        } else {
                            Some(m)
                        },
                        None => None::<InstanceModel>,
                    }),
            decreases update_list.len() - idx2,
        {
            let ghost prev = self.instances@;
            self.update_instance_healthy_invalid(update_list[idx2].as_str());
            proof {
                assert(update_list@[idx2 as int]@ == dvd[idx2 as int]);
                assert(dvd.take(idx2 as int + 1) =~= dvd.take(idx2 as int).push(dvd[idx2 as int]));
                assert forall|k: Seq<char>| true implies #[trigger] spec_get_model(
                    self.instances@,
                    k,
                ) == (match spec_get_model(insts0, k) {
                    Some(m) => if dvr.contains(k) {
                        None::<InstanceModel>
                    } else if dvd.take(idx2 as int + 1).contains(k) {
                        Some(m.demoted())
                    } else {
                        Some(m)
                    },
                    None => None::<InstanceModel>,
                }) by {
                    lemma_contains_push(dvd.take(idx2 as int), dvd[idx2 as int], k);
                    assert(spec_get_model(self.instances@, k) == (if k == dvd[idx2 as int] {
                        match spec_get_model(prev, k) {
                            Some(m) => Some(m.demoted()),
                            None => None::<InstanceModel>,
                        }
                    } else {
                        spec_get_model(prev, k)
                    }));
                }
            }
            idx2 += 1;
        }
        proof {
            assert(dvd.take(update_list@.len() as int) =~= dvd);
        }
        Ok((remove_list, update_list))
    }

    /// A copied snapshot of the instance with this id; no side effect.
    pub fn get_instance(&self, instance_key: &str) -> (r: Option<Instance>)
        requires
            self.wf(),
        ensures
            match r {
                Some(inst) => spec_get_model(self.instances@, instance_key@) == Some(inst@),
                None => spec_get_model(self.instances@, instance_key@) is None,
            },
    {
        let key = instance_key.to_owned();
        match self.find_index(&key) {
            Some(j) => {
                proof {
                    lemma_get_at(self.instances@, j as int);
                }
                Some(self.instances[j].clone())
            },
            None => None,
        }
    }

    /// Deletes the instance with this id from the map; its health records
    /// stay in the list until a time check consumes them.
    pub fn remove_instance(&mut self, instance_id: &str) -> (r: UpdateInstanceType)
        requires
            old(self).wf(),
        ensures
            final(self).wf(),
            forall|k: Seq<char>|
                #[trigger] spec_get_model(final(self).instances@, k) == if k == instance_id@ {
                    None::<InstanceModel>
                } else {
                    spec_get_model(old(self).instances@, k)
                },
            r == UpdateInstanceType::Remove <==> spec_has_id(old(self).instances@, instance_id@),
            r == UpdateInstanceType::Remove || r == UpdateInstanceType::NoChange,
            final(self).instance_size == old(self).instance_size - (if spec_has_id(
                old(self).instances@,
                instance_id@,
            ) {
                1int
            } else {
                0int
            }),
            final(self).timeinfos == old(self).timeinfos,
            spec_same_descriptor(*old(self), *final(self)),
    {
        let key = instance_id.to_owned();
        match self.find_index(&key) {
            Some(j) => {
                proof {
                    lemma_get_at(self.instances@, j as int);
                    assert forall|k: Seq<char>| true implies #[trigger] spec_get_model(
                        self.instances@.remove(j as int),
                        k,
                    ) == (if k == instance_id@ {
                        None::<InstanceModel>
                    } else {
                        spec_get_model(self.instances@, k)
                    }) by {
                        lemma_get_remove(self.instances@, j as int, k);
                    }
                }
                self.instances.remove(j);
                self.instance_size = self.instance_size - 1;
                UpdateInstanceType::Remove
            },
            None => UpdateInstanceType::NoChange,
        }
    }

    /// Replaces the instance with this id by a copy that is no longer
    /// healthy; absent ids are left alone.
    pub fn update_instance_healthy_invalid(&mut self, instance_id: &str)
        requires
            old(self).wf(),
        ensures
            final(self).wf(),
            forall|k: Seq<char>|
                #[trigger] spec_get_model(final(self).instances@, k) == if k == instance_id@ {
                    match spec_get_model(old(self).instances@, k) {
                        Some(m) => Some(m.demoted()),
                        None => None,
                    }
                } else {
                    spec_get_model(old(self).instances@, k)
                },
            final(self).instance_size == old(self).instance_size,
            final(self).timeinfos == old(self).timeinfos,
            spec_same_descriptor(*old(self), *final(self)),
    {
        let key = instance_id.to_owned();
        match self.find_index(&key) {
            Some(j) => {
                let ghost s0 = self.instances@;
                proof {
                    lemma_get_at(s0, j as int);
                }
                let c = self.instances[j].clone();
                let demoted = Instance {
                    healthy: false,
                    id: c.id,
                    service_name: c.service_name,
                    enabled: c.enabled,
                    ephemeral: c.ephemeral,
                    weight: c.weight,
                    metadata: c.metadata,
                    last_modified_millis: c.last_modified_millis,
                };
                proof {
                    assert(demoted@ == s0[j as int]@.demoted());
                    assert forall|k: Seq<char>| true implies #[trigger] spec_get_model(
                        s0.update(j as int, demoted),
                        k,
                    ) == (if k == instance_id@ {
                        match spec_get_model(s0, k) {
                            Some(m) => Some(m.demoted()),
                            None => None,
                        }
                    } else {
                        spec_get_model(s0, k)
                    }) by {
                        lemma_get_update(s0, j as int, demoted, k);
                    }
                }
                self.instances[j] = demoted;
            },
            None => {},
        }
    }

    /// Every registered instance that is enabled and, when asked for, also
    /// healthy; copied snapshots, one per id, in unspecified order.
    pub fn get_all_instances(&self, only_healthy: bool) -> (r: Vec<Instance>)
        requires
            self.wf(),
        ensures
            forall|a: int|
                #![trigger r@[a]]
                0 <= a < r@.len() ==> (r@[a]@.enabled && (r@[a]@.healthy || !only_healthy)
                    && spec_get_model(self.instances@, r@[a]@.id) == Some(r@[a]@)),
            forall|b: int|
                #![trigger self.instances@[b]]
                0 <= b < self.instances@.len() && self.instances@[b]@.enabled && (
                self.instances@[b]@.healthy || !only_healthy) ==> exists|a: int|
                    0 <= a < r@.len() && r@[a]@ == self.instances@[b]@,
            forall|a1: int, a2: int|
                #![trigger r@[a1]@.id, r@[a2]@.id]
                0 <= a1 < a2 < r@.len() ==> r@[a1]@.id != r@[a2]@.id,
    {
        let mut r: Vec<Instance> = Vec::new();
        let mut i: usize = 0;
        while i < self.instances.len()
            invariant
                self.wf(),
                i <= self.instances@.len(),
                forall|a: int|
                    #![trigger r@[a]]
                    0 <= a < r@.len() ==> (r@[a]@.enabled && (r@[a]@.healthy || !only_healthy)
                        && spec_get_model(self.instances@, r@[a]@.id) == Some(r@[a]@)),
                forall|b: int|
                    #![trigger self.instances@[b]]
                    0 <= b < i && self.instances@[b]@.enabled && (self.instances@[b]@.healthy
                        || !only_healthy) ==> exists|a: int|
                        0 <= a < r@.len() && r@[a]@ == self.instances@[b]@,
                forall|a: int|
                    #![trigger r@[a]]
                    0 <= a < r@.len() ==> 0 <= spec_index_of(self.instances@, r@[a]@.id) < i,
                forall|a1: int, a2: int|
                    #![trigger r@[a1]@.id, r@[a2]@.id]
                    0 <= a1 < a2 < r@.len() ==> r@[a1]@.id != r@[a2]@.id,
            decreases self.instances@.len() - i,
        {
            let x = &self.instances[i];
            if x.enabled && (x.healthy || !only_healthy) {
                let c = x.clone();
                proof {
                    lemma_get_at(self.instances@, i as int);
                    lemma_index_of_at(self.instances@, i as int);
                }
                let ghost r0 = r@;
                r.push(c);
                proof {
                    assert(r@ == r0.push(c));
                    assert(r@[r@.len() - 1] == c);
                    assert(forall|a: int| 0 <= a < r0.len() ==> #[trigger] r@[a] == r0[a]);
                    assert forall|b: int|
                        #![trigger self.instances@[b]]
                        0 <= b < i + 1 && self.instances@[b]@.enabled && (
                        self.instances@[b]@.healthy || !only_healthy) implies exists|a: int|
                        0 <= a < r@.len() && r@[a]@ == self.instances@[b]@ by {
                        if b < i {
                            let a = choose|a: int|
                                0 <= a < r0.len() && r0[a]@ == self.instances@[b]@;
                            assert(r@[a]@ == self.instances@[b]@);
                        } else {
                            assert(r@[r@.len() - 1]@ == self.instances@[b]@);
                        }
                    }
                    assert forall|a1: int, a2: int|
                        #![trigger r@[a1]@.id, r@[a2]@.id]
                        0 <= a1 < a2 < r@.len() implies r@[a1]@.id != r@[a2]@.id by {
                        if a2 == r@.len() - 1 && r@[a1]@.id == r@[a2]@.id {
                            assert(spec_index_of(self.instances@, r0[a1]@.id) < i);
                            assert(spec_index_of(self.instances@, c@.id) == i);
                        }
                    }
                }
            }
            i += 1;
        }
        r
    }

    /// The same listing; the cluster selection is not applied, every
    /// cluster's instances are returned.
    #[allow(unused_variables)]
    pub fn get_instance_list(&self, cluster_names: Vec<String>, only_healthy: bool) -> (r: Vec<
        Instance,
    >)
        requires
            self.wf(),
        ensures
            forall|a: int|
                #![trigger r@[a]]
                0 <= a < r@.len() ==> (r@[a]@.enabled && (r@[a]@.healthy || !only_healthy)
                    && spec_get_model(self.instances@, r@[a]@.id) == Some(r@[a]@)),
            forall|b: int|
                #![trigger self.instances@[b]]
                0 <= b < self.instances@.len() && self.instances@[b]@.enabled && (
                self.instances@[b]@.healthy || !only_healthy) ==> exists|a: int|
                    0 <= a < r@.len() && r@[a]@ == self.instances@[b]@,
            forall|a1: int, a2: int|
                #![trigger r@[a1]@.id, r@[a2]@.id]
                0 <= a1 < a2 < r@.len() ==> r@[a1]@.id != r@[a2]@.id,
    {
        self.get_all_instances(only_healthy)
    }

    /// The triple this registry serves.
    pub fn get_service_key(&self) -> (r: ServiceKey)
        ensures
            r.namespace_id@ == self.namespace_id@,
            r.group_name@ == self.group_name@,
            r.service_name@ == self.service_name@,
    {
        ServiceKey::new(
            self.namespace_id.as_str(),
            self.group_name.as_str(),
            self.service_name.as_str(),
        )
    }

    /// The service-level metadata handed to queries.
    pub fn get_metadata(&self) -> (r: ServiceMetadata)
        ensures
            r.protect_threshold == self.protect_threshold,
    {
        ServiceMetadata { protect_threshold: self.protect_threshold }
    }

    /// The persistence row of this registry.
    pub fn get_service_do(&self) -> (r: ServiceDO)
        ensures
            r.namespace_id matches Some(v) && v@ == self.namespace_id@,
            r.service_name matches Some(v) && v@ == self.service_name@,
            r.group_name matches Some(v) && v@ == self.group_name@,
            r.instance_size == Some(self.instance_size),
    {
        ServiceDO {
            namespace_id: Some(self.namespace_id.clone()),
            service_name: Some(self.service_name.clone()),
            group_name: Some(self.group_name.clone()),
            instance_size: Some(self.instance_size),
        }
    }
}

} // verus!
