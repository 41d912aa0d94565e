use tiaf::api::AdminKey;
use tiaf::config::NodeConfig;
use tiaf::peers::{Downstreams, ReadHost, Upstreams, WriteHost};
use tiaf::woody::{new, Level};

#[test]
fn test_add_remove_upstreams() {
    let mut upstreams = Upstreams::new(vec![]);
    let host = ReadHost::new(&"http://localhost:8080".to_string());
    upstreams.add(host.clone());
    assert_eq!(upstreams.hosts.len(), 1);
    upstreams.remove(&host);
    assert_eq!(upstreams.hosts.len(), 0);
}

#[test]
fn test_registries_round_trip_api_shapes() {
    let mut ups = Upstreams::new(vec![
        ReadHost::new(&"http://one".to_string()),
        ReadHost::new(&"http://two".to_string()),
    ]);
    ups.set_sweeping(true);
    let api = ups.to_api();
    assert_eq!(api.hosts, vec!["http://one", "http://two"]);
    assert!(api.sweeping);
    let back = Upstreams::from_api(&api);
    assert_eq!(back.hosts.len(), 2);
    assert_eq!(back.hosts[0].url, "http://one");
    assert!(back.hosts[0].last_swept.is_none());
    assert!(back.hosts[0].latest_hash.is_none());
    assert!(back.sweeping);

    let downs = Downstreams::new(vec![WriteHost::new(&"http://push".to_string())]);
    let api = downs.to_api();
    assert_eq!(api.hosts, vec!["http://push"]);
    assert!(!api.sweeping);
    let back = Downstreams::from_api(&api);
    assert_eq!(back.downstreams().len(), 1);
    assert_eq!(back.downstreams()[0].url(), "http://push");
}

#[test]
fn test_host_progress_marks() {
    let mut w = WriteHost::new(&"http://d".to_string());
    assert!(w.last_pushed.is_none());
    w.mark_pushed("abc123".to_string(), 42);
    assert_eq!(w.last_pushed, Some(42));
    assert_eq!(w.latest_hash.as_deref(), Some("abc123"));

    let mut r = ReadHost::new(&"http://u".to_string());
    assert!(r.last_swept.is_none());
    r.mark_swept("def456".to_string(), 43);
    assert_eq!(r.last_swept, Some(43));
    assert_eq!(r.latest_hash.as_deref(), Some("def456"));
}

#[test]
fn test_admin_key() {
    let key = AdminKey::new("bob");
    assert!(key.eq_str("bob"));
    assert!(key.eq_string(&"bob".to_string()));
    assert!(!key.eq_str("something else"));
    assert_eq!(key.get(), "bob");
}

#[test]
fn test_level_from_string() {
    assert_eq!(Level::from_string("error"), Ok(Level::Error));
    assert_eq!(Level::from_string("WARN"), Ok(Level::Warn));
    assert_eq!(Level::from_string("Info"), Ok(Level::Info));
    assert_eq!(Level::from_string("dEbUg"), Ok(Level::Debug));
    assert_eq!(
        Level::from_string("loud"),
        Err("loud is not a valid level".to_string())
    );
}

#[test]
fn test_level_from_u8() {
    assert_eq!(Level::from_u8(&0), Ok(Level::Error));
    assert_eq!(Level::from_u8(&1), Ok(Level::Warn));
    assert_eq!(Level::from_u8(&2), Ok(Level::Info));
    assert_eq!(Level::from_u8(&3), Ok(Level::Debug));
    assert!(Level::from_u8(&4).is_err());
}

#[test]
fn test_logger_threshold() {
    let logger = new(Level::Info);
    assert!(logger.enabled(Level::Error));
    assert!(logger.enabled(Level::Info));
    assert!(!logger.enabled(Level::Debug));
}

#[test]
fn test_config_overrides() {
    let base = NodeConfig::default_with_id("node-a".to_string());
    assert_eq!(base.ip, "127.0.0.1");
    assert_eq!(base.port, 9999);
    let merged = base.apply_overrides(
        None,
        Some("0.0.0.0".to_string()),
        Some(8080),
        None,
        Some(vec!["http://up".to_string()]),
        Some(Level::Debug),
    );
    assert_eq!(merged.node_id, "node-a");
    assert_eq!(merged.ip, "0.0.0.0");
    assert_eq!(merged.port, 8080);
    assert!(merged.downstreams.is_empty());
    assert_eq!(merged.upstreams, vec!["http://up"]);
    assert_eq!(merged.log_level, Level::Debug);
}
