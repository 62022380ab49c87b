use peer_discovery_center::bootstrap::{
    hostname_of, settle_config, settle_identity, NodeIdentity, Saving, Stored, WorkDirs,
};
use peer_discovery_center::clock::utc_text;
use peer_discovery_center::config::PdcConfig;

#[test]
fn node_identity_new() {
    let id = NodeIdentity::new();
    assert!(!id.node_id.to_string().is_empty());
    assert!(!id.created_at.is_empty());
}

#[test]
fn work_dirs_structure() {
    let dirs = WorkDirs::new("/tmp/pdc-test");
    assert_eq!(dirs.config_file, "/tmp/pdc-test/config/config.yaml");
    assert_eq!(dirs.node_id_file, "/tmp/pdc-test/data/node-id.json");
    assert_eq!(dirs.history_file, "/tmp/pdc-test/data/discovery-history.jsonl");
}

#[test]
fn work_dirs_below_a_root_with_a_separator() {
    let dirs = WorkDirs::new("/srv/pdc/");
    assert_eq!(dirs.root, "/srv/pdc/");
    assert_eq!(dirs.config, "/srv/pdc/config");
    assert_eq!(dirs.data, "/srv/pdc/data");
}

#[test]
fn identities_are_random_and_of_version_four() {
    let a = NodeIdentity::new();
    let b = NodeIdentity::new();
    assert_ne!(a.node_id, b.node_id);
    assert_eq!((a.node_id >> 76) & 0xF, 4);
    assert_eq!((a.node_id >> 62) & 0x3, 2);
    // A time such as 2024-01-02T03:04:05.678+00:00.
    assert_eq!(&a.created_at[10..11], "T");
    assert!(a.created_at.ends_with("+00:00"));
}

#[test]
fn identity_is_kept_or_made_anew() {
    let stored = NodeIdentity { node_id: 7, created_at: "then".to_string() };
    let (kept, saving) = settle_identity(Stored::Found(stored));
    assert_eq!(kept.node_id, 7);
    assert_eq!(kept.created_at, "then");
    assert_eq!(saving, Saving::Unneeded);

    let (_, saving) = settle_identity(Stored::Missing);
    assert_eq!(saving, Saving::Needed);
    let (_, saving) = settle_identity(Stored::Unreadable);
    assert_eq!(saving, Saving::Wanted);
}

#[test]
fn configuration_is_kept_or_defaulted() {
    let mut stored = PdcConfig::default();
    stored.server.port = 1234;
    let (kept, saving) = settle_config(Stored::Found(stored)).unwrap();
    assert_eq!(kept.server.port, 1234);
    assert_eq!(saving, Saving::Unneeded);
    let (made, saving) = settle_config(Stored::Missing).unwrap();
    assert_eq!(made.server.port, PdcConfig::default().server.port);
    assert_eq!(saving, Saving::Needed);
    assert!(settle_config(Stored::Unreadable).is_none());
}

#[test]
fn hostname_falls_back() {
    assert_eq!(hostname_of(Some("a".to_string()), Some("b".to_string())), "a");
    assert_eq!(hostname_of(None, Some("b".to_string())), "b");
    assert_eq!(hostname_of(None, None), "pdc-node");
}

#[test]
fn points_in_time_as_text() {
    assert_eq!(utc_text(0), "1970-01-01T00:00:00+00:00");
    assert_eq!(utc_text(1_000_000_000_500_000_000), "2001-09-09T01:46:40.500+00:00");
    assert!(utc_text(u64::MAX).starts_with("2554-07-21T"));
}
