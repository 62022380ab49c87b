use peer_discovery_center::agent::{
    message_kind, register_url, scan_targets, ws_url, AfterConnection, AgentRuntime, MasterStep,
    Overrides, WsKind,
};
use peer_discovery_center::cli::{read_arguments, Arguments};
use peer_discovery_center::config::PdcConfig;

fn overrides(master: Option<&str>) -> Overrides {
    Overrides { master: master.map(|m| m.to_string()), token: None, name: None }
}

fn runtime(config: PdcConfig, master: Option<&str>) -> AgentRuntime {
    AgentRuntime::new(config, overrides(master), 5, "host".to_string())
}

#[test]
fn kinds_of_messages() {
    assert_eq!(message_kind("ping"), WsKind::Ping);
    assert_eq!(message_kind("config_changed"), WsKind::ConfigChanged);
    assert_eq!(message_kind("new_task"), WsKind::NewTask);
    assert_eq!(message_kind("discover"), WsKind::Discover);
    assert_eq!(message_kind("service_changed"), WsKind::ServiceChanged);
    assert_eq!(message_kind("pong"), WsKind::Unknown);
}

#[test]
fn addresses_at_the_controller() {
    assert_eq!(ws_url("http://master:8080"), "ws://master:8080/api/v1/agent/ws");
    assert_eq!(ws_url("https://master"), "wss://master/api/v1/agent/ws");
    assert!(register_url("http://master:8080").starts_with("http://master:8080/api/v1/agent"));
}

#[test]
fn places_to_look_for_a_controller() {
    let targets = scan_targets(&vec![1, 2]);
    assert_eq!(targets.len(), 4);
    assert!(targets[0].probe_url.starts_with(&targets[0].base_url));
    assert!(targets[0].base_url.starts_with("http://"));
}

#[test]
fn the_command_line_names_the_controller() {
    let mut config = PdcConfig::default();
    config.controller.master = Some("http://from-the-file".to_string());
    let agent = runtime(config.clone(), Some("http://from-the-line"));
    assert!(matches!(agent.find_master(), MasterStep::Known(m) if m == "http://from-the-line"));
    let agent = runtime(config, None);
    assert!(matches!(agent.find_master(), MasterStep::Known(m) if m == "http://from-the-file"));
}

#[test]
fn without_a_controller_the_agent_looks_or_gives_up() {
    let mut config = PdcConfig::default();
    config.controller.master = None;
    config.controller.auto_discover_master = true;
    let mut agent = runtime(config.clone(), None);
    assert!(matches!(agent.find_master(), MasterStep::Scan(_)));
    assert!(agent.scanned(Some("http://found".to_string())));
    assert_eq!(agent.master_url, Some("http://found".to_string()));
    assert!(!runtime(config.clone(), None).scanned(None));
    config.controller.auto_discover_master = false;
    assert!(matches!(runtime(config, None).find_master(), MasterStep::Missing));
    assert!(!AgentRuntime::no_master_message().is_empty());
}

#[test]
fn what_is_registered() {
    let config = PdcConfig::default();
    let agent = runtime(config, Some("http://m"));
    let request = agent.registration("linux".to_string(), "x86_64".to_string());
    assert_eq!(request.node_id, 5);
    assert_eq!(request.platform, "linux");
    assert_eq!(request.arch, "x86_64");
    assert_eq!(request.agent_type, "pdc");
    assert_eq!(request.serve_port, PdcConfig::default().server.port);
    assert!(request.capability_tags.contains(&"tracker".to_string()));
}

#[test]
fn after_a_connection() {
    let mut agent = runtime(PdcConfig::default(), Some("http://m"));
    agent.connected();
    assert!(agent.connected);
    let wait = agent.config.agent.reconnect_interval_secs;
    assert_eq!(agent.disconnected(false), AfterConnection::ReconnectAfter(wait));
    assert!(!agent.connected);
}

fn words(args: &[&str]) -> Vec<String> {
    args.iter().map(|a| a.to_string()).collect()
}

#[test]
fn arguments_are_read() {
    assert!(matches!(
        read_arguments(&words(&["pdc", "--config", "a.yaml"])),
        Arguments::ConfigFile(f) if f == "a.yaml"
    ));
    assert!(matches!(read_arguments(&words(&["pdc", "--help"])), Arguments::Help));
    assert!(matches!(read_arguments(&words(&["pdc"])), Arguments::Nothing));
}
