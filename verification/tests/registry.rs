use dist_rust_buted::svc_dsc::{HeartbeatReport, SerDictImpl};
use dist_rust_buted::wire::SvcError;
use dist_rust_buted::HEARTBEAT_INTERVAL;

fn register(
    reg: &mut SerDictImpl,
    group: &str,
    name: &str,
    ip: &str,
    port: u32,
    now: u64,
) -> Result<dist_rust_buted::wire::RegisterServiceResponse, SvcError> {
    reg.register_service(group.to_string(), name.to_string(), ip.to_string(), port, now)
}

#[test]
fn round_trip_register_get() {
    let mut reg = SerDictImpl::new();
    let resp = register(&mut reg, "math", "add", "127.0.0.1", 1337, 0).unwrap();
    assert_eq!(resp.ip, "127.0.0.1");
    assert_eq!(resp.port, 1337);
    let got = reg
        .get_service("math".to_string(), "add".to_string())
        .unwrap();
    assert_eq!(got.group, "math");
    assert_eq!(got.name, "add");
    assert_eq!(got.ip, "127.0.0.1");
    assert_eq!(got.port, 1337);
}

#[test]
fn list_filter() {
    let mut reg = SerDictImpl::new();
    register(&mut reg, "other", "hehe", "127.0.0.1", 1336, 0).unwrap();
    register(&mut reg, "math", "add", "127.0.0.1", 1337, 0).unwrap();
    register(&mut reg, "math", "sub", "127.0.0.1", 1338, 0).unwrap();
    register(&mut reg, "math", "div", "127.0.0.1", 1339, 0).unwrap();
    register(&mut reg, "math", "mul", "127.0.0.1", 1340, 0).unwrap();
    let all = reg.list_service();
    assert_eq!(all.services.len(), 5);
    assert_eq!(reg.len(), 5);
    let math = reg.list_service_by_group_name("math".to_string()).unwrap();
    assert_eq!(math.services.len(), 4);
    assert!(math.services.iter().all(|s| s.group == "math"));
    let other = reg.list_service_by_group_name("other".to_string()).unwrap();
    assert_eq!(other.services.len(), 1);
    assert_eq!(other.services[0].name, "hehe");
}

#[test]
fn deregister_then_list() {
    let mut reg = SerDictImpl::new();
    register(&mut reg, "junk", "deregisterme", "127.0.0.1", 1341, 0).unwrap();
    reg.deregister_service("junk".to_string(), "deregisterme".to_string());
    let all = reg.list_service();
    assert!(all
        .services
        .iter()
        .all(|s| !(s.group == "junk" && s.name == "deregisterme")));
    assert_eq!(all.services.len(), 0);
}

#[test]
fn ttl_eviction() {
    let mut reg = SerDictImpl::new();
    register(&mut reg, "math", "add", "127.0.0.1", 1337, 0).unwrap();
    let report = reg.heartbeat_pass(2 * HEARTBEAT_INTERVAL);
    match report {
        HeartbeatReport::Evicted { ids } => {
            assert_eq!(ids.len(), 1);
            assert_eq!(ids[0].0, "math");
            assert_eq!(ids[0].1, "add");
        }
        _ => panic!("expected an eviction report"),
    }
    assert_eq!(reg.list_service().services.len(), 0);
}

#[test]
fn register_refreshes_against_eviction() {
    let mut reg = SerDictImpl::new();
    register(&mut reg, "math", "add", "127.0.0.1", 1337, 0).unwrap();
    // a re-register inside the interval acts as a heartbeat
    register(&mut reg, "math", "add", "127.0.0.1", 1337, HEARTBEAT_INTERVAL).unwrap();
    let report = reg.heartbeat_pass(HEARTBEAT_INTERVAL + 1);
    match report {
        HeartbeatReport::AllAlive { count } => assert_eq!(count, 1),
        _ => panic!("expected the service to stay alive"),
    }
    assert_eq!(reg.list_service().services.len(), 1);
}

#[test]
fn register_empty_group_invalid() {
    let mut reg = SerDictImpl::new();
    let r = register(&mut reg, "", "add", "127.0.0.1", 1337, 0);
    assert!(matches!(r, Err(SvcError::InvalidArgument)));
    assert_eq!(reg.list_service().services.len(), 0);
}

#[test]
fn register_empty_name_invalid() {
    let mut reg = SerDictImpl::new();
    let r = register(&mut reg, "math", "", "127.0.0.1", 1337, 0);
    assert!(matches!(r, Err(SvcError::InvalidArgument)));
    assert_eq!(reg.list_service().services.len(), 0);
}

#[test]
fn get_empty_field_invalid() {
    let reg = SerDictImpl::new();
    let r = reg.get_service("".to_string(), "add".to_string());
    assert!(matches!(r, Err(SvcError::InvalidArgument)));
    let r = reg.get_service("math".to_string(), "".to_string());
    assert!(matches!(r, Err(SvcError::InvalidArgument)));
}

#[test]
fn get_absent_not_found() {
    let reg = SerDictImpl::new();
    let r = reg.get_service("math".to_string(), "add".to_string());
    match r {
        Err(SvcError::NotFound { group, name }) => {
            assert_eq!(group, "math");
            assert_eq!(name, "add");
        }
        _ => panic!("expected not-found naming the id"),
    }
}

#[test]
fn deregister_absent_ok() {
    let mut reg = SerDictImpl::new();
    reg.deregister_service("math".to_string(), "add".to_string());
    assert_eq!(reg.list_service().services.len(), 0);
}

#[test]
fn register_overwrites_endpoint() {
    let mut reg = SerDictImpl::new();
    register(&mut reg, "math", "add", "127.0.0.1", 1337, 0).unwrap();
    register(&mut reg, "math", "add", "10.0.0.2", 9999, 5).unwrap();
    let got = reg
        .get_service("math".to_string(), "add".to_string())
        .unwrap();
    assert_eq!(got.ip, "10.0.0.2");
    assert_eq!(got.port, 9999);
    assert_eq!(reg.list_service().services.len(), 1);
}

#[test]
fn list_by_group_empty_group_invalid() {
    let reg = SerDictImpl::new();
    let r = reg.list_service_by_group_name("".to_string());
    assert!(matches!(r, Err(SvcError::InvalidArgument)));
}

#[test]
fn heartbeat_no_services() {
    let mut reg = SerDictImpl::new();
    assert!(matches!(reg.heartbeat_pass(0), HeartbeatReport::NoServices));
}

#[test]
fn eviction_boundary_is_inclusive() {
    let mut reg = SerDictImpl::new();
    register(&mut reg, "math", "add", "127.0.0.1", 1337, 0).unwrap();
    // now - last_updated == TTL already evicts
    let evicted = reg.evict_stale(HEARTBEAT_INTERVAL, HEARTBEAT_INTERVAL);
    assert_eq!(evicted.len(), 1);
    assert_eq!(reg.list_service().services.len(), 0);
}

#[test]
fn eviction_keeps_fresh_entries() {
    let mut reg = SerDictImpl::new();
    register(&mut reg, "math", "add", "127.0.0.1", 1337, 0).unwrap();
    register(&mut reg, "math", "sub", "127.0.0.1", 1338, 6000).unwrap();
    let evicted = reg.evict_stale(HEARTBEAT_INTERVAL, 12000);
    assert_eq!(evicted.len(), 1);
    assert_eq!(evicted[0], ("math".to_string(), "add".to_string()));
    let rest = reg.list_service();
    assert_eq!(rest.services.len(), 1);
    assert_eq!(rest.services[0].name, "sub");
}
