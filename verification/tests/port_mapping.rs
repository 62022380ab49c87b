use peer_discovery_center::port_mapping::{
    stale_ports, NatAction, NatManager, NatReply, PortKind, Protocol, RouterMapping,
};

#[test]
fn test_nat_manager_default() {
    let manager = NatManager::default();
    let status = manager.status();
    assert!(!status.enabled);
    assert!(!status.gateway_found);
    assert!(status.mappings.is_empty());
}

fn listed(protocol: Protocol, port: u16, description: &str) -> RouterMapping {
    RouterMapping {
        protocol,
        internal_port: port,
        external_port: port,
        enabled: true,
        description: description.to_string(),
    }
}

#[test]
fn protocols_by_name() {
    assert_eq!(Protocol::from_name("TCP"), Some(Protocol::Tcp));
    assert_eq!(Protocol::from_name("UDP"), Some(Protocol::Udp));
    assert_eq!(Protocol::from_name("tcp"), None);
    assert_eq!(PortKind::Http.get_protocol(), Protocol::Tcp);
    assert_eq!(PortKind::Crawler.get_protocol().as_str(), "UDP");
}

#[test]
fn own_mappings_are_found_again() {
    let list = vec![
        listed(Protocol::Tcp, 1, "PDC HTTP Tracker"),
        listed(Protocol::Udp, 2, "Skype"),
        listed(Protocol::Udp, 3, "PDC Crawler"),
    ];
    assert_eq!(stale_ports(&list), vec![(Protocol::Tcp, 1), (Protocol::Udp, 3)]);
}

#[test]
fn a_setup_from_start_to_end() {
    let mut manager = NatManager::new(true, 0, Some([192, 168, 0, 2]));
    let (mut setup, first) = manager.begin(6880, 6969, 0);
    assert!(matches!(first, NatAction::SearchGateway));
    let next = manager.step(&mut setup, NatReply::Gateway("192.168.0.1".to_string()));
    assert!(matches!(next, NatAction::AskExternalAddress));
    let next = manager.step(&mut setup, NatReply::ExternalAddress("5.6.7.8".to_string()));
    assert!(matches!(next, NatAction::ListMappings));
    let old = vec![listed(Protocol::Tcp, 6880, "PDC HTTP Tracker")];
    let next = manager.step(&mut setup, NatReply::Mappings(old));
    assert!(matches!(
        next,
        NatAction::RemoveMapping { protocol: Protocol::Tcp, external_port: 6880 }
    ));
    let next = manager.step(&mut setup, NatReply::Removed);
    assert!(matches!(
        next,
        NatAction::AddMapping { protocol: Protocol::Tcp, external_port: 6880, .. }
    ));
    // The preferred port is taken: another one is tried.
    let next = manager.step(&mut setup, NatReply::PortInUse);
    assert!(matches!(
        next,
        NatAction::AddMapping { protocol: Protocol::Tcp, external_port: 6881, .. }
    ));
    let next = manager.step(&mut setup, NatReply::PortMapped);
    assert!(matches!(
        next,
        NatAction::AddMapping { protocol: Protocol::Udp, external_port: 6969, .. }
    ));
    let next = manager.step(&mut setup, NatReply::PortMapped);
    assert!(matches!(next, NatAction::ListMappings));
    let now = vec![
        RouterMapping { internal_port: 6880, ..listed(Protocol::Tcp, 6881, "PDC HTTP Tracker") },
        listed(Protocol::Udp, 6969, "PDC UDP Tracker"),
    ];
    let next = manager.step(&mut setup, NatReply::Mappings(now));
    assert!(matches!(next, NatAction::Finish(Ok(()))));
    let status = manager.status();
    assert!(status.gateway_found);
    assert_eq!(status.external_ip, Some("5.6.7.8".to_string()));
    assert_eq!(status.mappings.len(), 2);
    assert_eq!(status.mappings[0].external_port, 6881);
    assert_eq!(manager.renewals().len(), 2);
    assert_eq!(manager.release_all().len(), 2);
    assert!(manager.status().mappings.is_empty());
}

#[test]
fn without_a_gateway_nothing_is_mapped() {
    let mut manager = NatManager::new(true, 0, None);
    let (mut setup, _) = manager.begin(1, 2, 3);
    match manager.step(&mut setup, NatReply::NoGateway("no reply".to_string())) {
        NatAction::Finish(Err(why)) => assert_eq!(why, "UPnP 网关发现失败: no reply"),
        _ => panic!("there is no gateway"),
    }
    let (mut setup, _) = manager.begin(1, 2, 3);
    match manager.step(&mut setup, NatReply::SearchAborted("gone".to_string())) {
        NatAction::Finish(Err(why)) => {
            assert_eq!(why, "UPnP 网关发现失败: 网关发现任务失败: gone");
        }
        _ => panic!("there is no gateway"),
    }
    assert!(manager.status().last_error.is_some());
    let off = NatManager::new(false, 0, None);
    let (_, first) = off.begin(1, 2, 3);
    assert!(matches!(first, NatAction::Finish(Ok(()))));
}

#[test]
fn times_of_renewal() {
    assert_eq!(NatManager::new(true, 0, None).renewal_interval_secs(), None);
    assert_eq!(NatManager::new(true, 59, None).renewal_interval_secs(), Some(30));
    assert_eq!(NatManager::new(true, 3600, None).renewal_interval_secs(), Some(1800));
}

#[test]
fn errors_of_ports_are_told() {
    let mut manager = NatManager::new(true, 0, None);
    let (mut setup, _) = manager.begin(80, 81, 0);
    manager.step(&mut setup, NatReply::Gateway("10.0.0.1".to_string()));
    manager.step(&mut setup, NatReply::NoExternalAddress);
    manager.step(&mut setup, NatReply::Mappings(vec![]));
    manager.step(&mut setup, NatReply::PortFailed("denied".to_string()));
    assert_eq!(manager.status().last_error.unwrap(), "TCP 80 映射失败: 映射失败: denied");
    manager.step(&mut setup, NatReply::PortAborted("gone".to_string()));
    assert_eq!(manager.status().last_error.unwrap(), "UDP 81 映射失败: 映射任务失败: gone");
}
