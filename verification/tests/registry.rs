use naming_cache::instance::Instance;
use naming_cache::instance::InstanceUpdateTag;
use naming_cache::instance::UpdateInstanceType;
use naming_cache::service::RegistryError;
use naming_cache::service::Service;

fn inst(id: &str, time: i64) -> Instance {
    Instance {
        id: id.to_string(),
        service_name: "svc".to_string(),
        enabled: true,
        healthy: true,
        ephemeral: true,
        weight: 1,
        metadata: Vec::new(),
        last_modified_millis: time,
    }
}

#[test]
fn register_new_then_update() {
    let mut service = Service::default();
    assert_eq!(
        service.update_instance(inst("a", 1), None),
        UpdateInstanceType::New
    );
    assert_eq!(service.instance_size, 1);
    assert_eq!(
        service.update_instance(inst("a", 2), None),
        UpdateInstanceType::UpdateValue
    );
    assert_eq!(service.instance_size, 1);
    let tag = InstanceUpdateTag {
        enabled: false,
        ephemeral: false,
        weight: false,
        metadata: false,
    };
    assert_eq!(
        service.update_instance(inst("a", 3), Some(tag)),
        UpdateInstanceType::UpdateTime
    );
    assert_eq!(service.instance_size, 1);
}

#[test]
fn heartbeat_keeps_fields_and_advances_time() {
    let mut service = Service::default();
    let mut first = inst("a", 100);
    first.enabled = true;
    first.ephemeral = true;
    first.weight = 7;
    first.metadata = vec![("k".to_string(), "v".to_string())];
    service.update_instance(first, None);

    let mut beat = inst("a", 200);
    beat.enabled = false;
    beat.ephemeral = false;
    beat.weight = 99;
    beat.metadata = vec![("other".to_string(), "x".to_string())];
    let tag = InstanceUpdateTag {
        enabled: false,
        ephemeral: false,
        weight: false,
        metadata: false,
    };
    let r = service.update_instance(beat, Some(tag));
    assert_eq!(r, UpdateInstanceType::UpdateTime);

    let stored = service.get_instance("a").unwrap();
    assert!(stored.enabled);
    assert!(stored.ephemeral);
    assert_eq!(stored.weight, 7);
    assert_eq!(stored.metadata, vec![("k".to_string(), "v".to_string())]);
    assert_eq!(stored.last_modified_millis, 200);
}

#[test]
fn partial_update_takes_flagged_fields() {
    let mut service = Service::default();
    let mut first = inst("a", 100);
    first.weight = 7;
    first.ephemeral = true;
    service.update_instance(first, None);

    let mut upd = inst("a", 200);
    upd.weight = 99;
    upd.ephemeral = false;
    let tag = InstanceUpdateTag {
        enabled: false,
        ephemeral: false,
        weight: true,
        metadata: false,
    };
    let r = service.update_instance(upd, Some(tag));
    assert_eq!(r, UpdateInstanceType::UpdateValue);

    let stored = service.get_instance("a").unwrap();
    assert_eq!(stored.weight, 99);
    assert!(stored.ephemeral);
}

#[test]
fn eviction_ordering() {
    let mut service = Service::default();
    service.update_instance(inst("a", 100), None);
    service.update_instance(inst("b", 200), None);
    service.update_instance(inst("c", 300), None);

    let (removed, demoted) = service.time_check(250, 150).unwrap();
    assert_eq!(removed, vec!["a".to_string()]);
    assert_eq!(demoted, vec!["b".to_string()]);

    assert!(service.get_instance("a").is_none());
    let b = service.get_instance("b").unwrap();
    assert!(!b.healthy);
    let c = service.get_instance("c").unwrap();
    assert!(c.healthy);
    assert_eq!(c.last_modified_millis, 300);
    assert_eq!(service.instance_size, 2);
}

#[test]
fn time_check_precondition_refused() {
    let mut service = Service::default();
    service.update_instance(inst("a", 100), None);
    let r = service.time_check(100, 200);
    assert_eq!(r, Err(RegistryError::Precondition));
    assert!(service.get_instance("a").is_some());
    assert_eq!(service.instance_size, 1);
}

#[test]
fn healthy_filter() {
    let mut service = Service::default();
    let mut a = inst("a", 1);
    a.enabled = true;
    a.healthy = true;
    let mut b = inst("b", 2);
    b.enabled = true;
    b.healthy = false;
    let mut c = inst("c", 3);
    c.enabled = false;
    c.healthy = true;
    service.update_instance(a, None);
    service.update_instance(b, None);
    service.update_instance(c, None);

    let healthy_only = service.get_all_instances(true);
    assert_eq!(healthy_only.len(), 1);
    assert_eq!(healthy_only[0].id, "a");

    let enabled_only = service.get_all_instances(false);
    let mut ids: Vec<String> = enabled_only.iter().map(|i| i.id.clone()).collect();
    ids.sort();
    assert_eq!(ids, vec!["a".to_string(), "b".to_string()]);
}

#[test]
fn remove_instance_counts() {
    let mut service = Service::default();
    service.update_instance(inst("a", 1), None);
    assert_eq!(service.remove_instance("a"), UpdateInstanceType::Remove);
    assert_eq!(service.instance_size, 0);
    assert_eq!(service.remove_instance("a"), UpdateInstanceType::NoChange);
    assert!(service.get_instance("a").is_none());
}

#[test]
fn superseded_records_do_not_evict_twice() {
    let mut service = Service::default();
    service.update_instance(inst("a", 100), None);
    service.update_instance(inst("a", 400), None);
    service.update_instance(inst("b", 500), None);

    let (removed, demoted) = service.time_check(300, 200).unwrap();
    assert!(removed.is_empty());
    assert!(demoted.is_empty());
    assert!(service.get_instance("a").unwrap().healthy);
    assert!(service.get_instance("b").unwrap().healthy);
}

#[test]
fn service_do_and_key() {
    let mut service = Service::default();
    service.namespace_id = "ns".to_string();
    service.group_name = "g".to_string();
    service.service_name = "s".to_string();
    service.update_instance(inst("a", 1), None);

    let key = service.get_service_key();
    assert_eq!(key.namespace_id, "ns");
    assert_eq!(key.group_name, "g");
    assert_eq!(key.service_name, "s");

    let row = service.get_service_do();
    assert_eq!(row.namespace_id.as_deref(), Some("ns"));
    assert_eq!(row.service_name.as_deref(), Some("s"));
    assert_eq!(row.group_name.as_deref(), Some("g"));
    assert_eq!(row.instance_size, Some(1));

    service.check_sum = "stale".to_string();
    service.recalculate_checksum();
    assert_eq!(service.check_sum, "");
    assert_eq!(service.get_metadata().protect_threshold, 0);
}

#[test]
fn instance_list_ignores_cluster_names() {
    let mut service = Service::default();
    service.update_instance(inst("a", 1), None);
    let list = service.get_instance_list(vec!["clusterA".to_string()], true);
    assert_eq!(list.len(), 1);
    assert_eq!(list[0].id, "a");
}
