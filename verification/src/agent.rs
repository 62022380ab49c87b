//! Working for a controller.
//!
//! The connections are the caller's. [`AgentRuntime::find_master`] says how the controller is found,
//! [`AgentRuntime::registration`] what it is told, and [`AgentRuntime::disconnected`] whether to
//! connect again.

use crate::bytes::{append_decimal, decimal_text, same_text};
use crate::config::PdcConfig;
use crate::text::{occurs_at, replace_all, replaced, texts};
use crate::VERSION;
use vstd::prelude::*;
use vstd::string::*;

verus! {

/// Milliseconds to wait for an answer while looking for a controller.
pub const SCAN_TIMEOUT_MS: u64 = 500;

/// Where a controller is looked for.
pub const SCAN_HOSTS: [&'static str; 2] = ["127.0.0.1", "192.168.1.1"];

/// What the command line has to say on the controller and the node.
#[derive(Debug)]
pub struct Overrides {
    pub master: Option<String>,
    pub token: Option<String>,
    pub name: Option<String>,
}

/// The first of two texts, or the second if there is no first.
pub open spec fn either(first: Option<String>, second: Option<String>) -> Option<String> {
    match first {
        Some(t) => Some(t),
        None => second,
    }
}

fn first_of(first: Option<String>, second: Option<String>) -> (r: Option<String>)
    ensures
        r == either(first, second),
{
    match first {
        Some(t) => Some(t),
        None => second,
    }
}

/// A configuration with what the command line says put before it.
pub open spec fn overridden(config: PdcConfig, overrides: Overrides) -> PdcConfig {
    PdcConfig {
        controller: crate::config::ControllerConfig {
            master: either(overrides.master, config.controller.master),
            token: either(overrides.token, config.controller.token),
            ..config.controller
        },
        agent: crate::config::AgentConfig {
            name: either(overrides.name, config.agent.name),
            ..config.agent
        },
        ..config
    }
}

/// A place where the controller may be.
#[derive(Debug)]
pub struct ScanTarget {
    /// What to ask for.
    pub probe_url: String,
    /// Where the controller is if that is answered.
    pub base_url: String,
}

/// Where a controller at a host and port is.
pub open spec fn base_url(host: Seq<char>, port: u16) -> Seq<char> {
    "http://"@ + host + ":"@ + decimal_text(port as nat)
}

/// Whether a target is the one for a host and port.
pub open spec fn targets(t: ScanTarget, host: Seq<char>, port: u16) -> bool {
    t.base_url@ == base_url(host, port) && t.probe_url@ == base_url(host, port)
        + "/api/v1/overview"@
}

/// How the controller is found.
#[derive(Debug)]
pub enum MasterStep {
    /// It is here.
    Known(String),
    /// It is to be looked for at these places, in this order.
    Scan(Vec<ScanTarget>),
    /// It cannot be found.
    Missing,
}

/// What the controller is told about the node.
#[derive(Debug)]
pub struct RegisterRequest {
    pub node_id: u128,
    pub hostname: String,
    pub platform: String,
    pub arch: String,
    pub version: String,
    pub agent_type: String,
    pub serve_host: String,
    pub serve_port: u16,
    pub region: Option<String>,
    pub capability_tags: Vec<String>,
}

/// What to do after a connection has ended.
#[derive(Debug, Clone, Copy, PartialEq, Eq, Structural)]
pub enum AfterConnection {
    Stop,
    /// Connect again after so many seconds.
    ReconnectAfter(u64),
}

/// What a message of the controller is about.
#[derive(Debug, Clone, Copy, PartialEq, Eq, Structural)]
pub enum WsKind {
    Ping,
    ConfigChanged,
    NewTask,
    Discover,
    ServiceChanged,
    Unknown,
}

/// What a message of a type is about.
pub open spec fn kind_of(msg_type: Seq<char>) -> WsKind {
    if msg_type == "ping"@ {
        WsKind::Ping
    } else if msg_type == "config_changed"@ {
        WsKind::ConfigChanged
    } else if msg_type == "new_task"@ {
        WsKind::NewTask
    } else if msg_type == "discover"@ {
        WsKind::Discover
    } else if msg_type == "service_changed"@ {
        WsKind::ServiceChanged
    } else {
        WsKind::Unknown
    }
}

/// What a message of a type is about.
pub fn message_kind(msg_type: &str) -> (r: WsKind)
    ensures
        r == kind_of(msg_type@),
{
    if same_text(msg_type, "ping") {
        WsKind::Ping
    } else if same_text(msg_type, "config_changed") {
        WsKind::ConfigChanged
    } else if same_text(msg_type, "new_task") {
        WsKind::NewTask
    } else if same_text(msg_type, "discover") {
        WsKind::Discover
    } else if same_text(msg_type, "service_changed") {
        WsKind::ServiceChanged
    } else {
        WsKind::Unknown
    }
}

/// Where the messages of a controller come from.
pub open spec fn ws_url_of(master_url: Seq<char>) -> Seq<char> {
    replaced(replaced(master_url, "http://"@, "ws://"@), "https://"@, "wss://"@)
        + "/api/v1/agent/ws"@
}

/// Where the messages of a controller come from.
pub fn ws_url(master_url: &str) -> (r: String)
    ensures
        r@ == ws_url_of(master_url@),
{
    proof {
        reveal_strlit("http://");
        reveal_strlit("https://");
    }
    let plain: String = replace_all(master_url, "http://", "ws://");
    let mut url: String = replace_all(plain.as_str(), "https://", "wss://");
    url.append("/api/v1/agent/ws");
    url
}

/// Where a node is registered.
pub fn register_url(master_url: &str) -> (r: String)
    ensures
        r@ == master_url@ + "/api/v1/agent/register"@,
{
    let mut url: String = master_url.to_string();
    url.append("/api/v1/agent/register");
    url
}

/// Whether a list has each host with each port.
pub open spec fn is_scan_list(ports: Seq<u16>, list: Seq<ScanTarget>) -> bool {
    &&& list.len() == 2 * ports.len()
    &&& forall|i: int|
        0 <= i < ports.len() ==> targets(#[trigger] list[i], SCAN_HOSTS[0]@, ports[i])
    &&& forall|i: int|
        ports.len() <= i < 2 * ports.len() ==> targets(
            #[trigger] list[i],
            SCAN_HOSTS[1]@,
            ports[i - ports.len()],
        )
}

/// The places where a controller is looked for: each host with each port.
pub fn scan_targets(ports: &Vec<u16>) -> (r: Vec<ScanTarget>)
    requires
        2 * ports@.len() <= usize::MAX,
    ensures
        is_scan_list(ports@, r@),
{
    let mut out: Vec<ScanTarget> = Vec::new();
    let mut i: usize = 0;
    while i < ports.len()
        invariant
            i <= ports@.len(),
            out@.len() == i,
            forall|j: int| 0 <= j < i ==> targets(#[trigger] out@[j], SCAN_HOSTS[0]@, ports@[j]),
        decreases ports@.len() - i,
    {
        out.push(scan_target(SCAN_HOSTS[0], ports[i]));
        i += 1;
    }
    let mut k: usize = 0;
    while k < ports.len()
        invariant
            k <= ports@.len(),
            out@.len() == ports@.len() + k,
            forall|j: int|
                0 <= j < ports@.len() ==> targets(#[trigger] out@[j], SCAN_HOSTS[0]@, ports@[j]),
            forall|j: int|
                ports@.len() <= j < ports@.len() + k ==> targets(
                    #[trigger] out@[j],
                    SCAN_HOSTS[1]@,
                    ports@[j - ports@.len()],
                ),
        decreases ports@.len() - k,
    {
        out.push(scan_target(SCAN_HOSTS[1], ports[k]));
        k += 1;
    }
    out
}

fn scan_target(host: &str, port: u16) -> (r: ScanTarget)
    ensures
        targets(r, host@, port),
{
    let mut base: String = "http://".to_string();
    base.append(host);
    base.append(":");
    append_decimal(&mut base, port as u64);
    let mut probe: String = base.clone();
    probe.append("/api/v1/overview");
    ScanTarget { probe_url: probe, base_url: base }
}

/// A node that works for a controller.
pub struct AgentRuntime {
    pub node_id: u128,
    pub node_name: String,
    pub config: PdcConfig,
    pub master_url: Option<String>,
    pub token: Option<String>,
    pub connected: bool,
}

impl AgentRuntime {
    /// A node with the given configuration. What the command line says comes before it.
    pub fn new(config: PdcConfig, overrides: Overrides, node_id: u128, hostname: String) -> (r:
        AgentRuntime)
        ensures
            r.node_id == node_id,
            r.config == overridden(config, overrides),
            opt_text(r.master_url) == opt_text(r.config.controller.master),
            opt_text(r.token) == opt_text(r.config.controller.token),
            r.node_name@ == match r.config.agent.name {
                Some(n) => n@,
                None => hostname@,
            },
            !r.connected,
    {
        let mut config: PdcConfig = config;
        let mut controller: crate::config::ControllerConfig = config.controller;
        controller.master = first_of(overrides.master, controller.master);
        controller.token = first_of(overrides.token, controller.token);
        config.controller = controller;
        let mut agent: crate::config::AgentConfig = config.agent;
        agent.name = first_of(overrides.name, agent.name);
        config.agent = agent;
        let node_name: String = match &config.agent.name {
            Some(n) => n.clone(),
            None => hostname,
        };
        let master_url: Option<String> = copy_option(&config.controller.master);
        let token: Option<String> = copy_option(&config.controller.token);
        AgentRuntime { node_id, node_name, config, master_url, token, connected: false }
    }

    /// How the controller is found: by its address, or by looking for it if that is allowed.
    pub fn find_master(&self) -> (r: MasterStep)
        requires
            2 * self.config.agent.scan_ports@.len() <= usize::MAX,
        ensures
            match self.master_url {
                Some(url) => r matches MasterStep::Known(u) && u@ == url@,
                None => if self.config.controller.auto_discover_master {
                    r matches MasterStep::Scan(list) && is_scan_list(
                        self.config.agent.scan_ports@,
                        list@,
                    )
                } else {
                    r is Missing
                },
            },
    {
        match &self.master_url {
            Some(url) => MasterStep::Known(url.clone()),
            None => {
                if self.config.controller.auto_discover_master {
                    MasterStep::Scan(scan_targets(&self.config.agent.scan_ports))
                } else {
                    MasterStep::Missing
                }
            },
        }
    }

    /// Takes what the search came to: the first place that answered. Returns whether the controller
    /// is known now.
    pub fn scanned(&mut self, found: Option<String>) -> (r: bool)
        ensures
            final(self).master_url == either(found, old(self).master_url),
            final(self).node_id == old(self).node_id,
            final(self).node_name == old(self).node_name,
            final(self).config == old(self).config,
            final(self).token == old(self).token,
            final(self).connected == old(self).connected,
            r == (final(self).master_url is Some),
    {
        if found.is_some() {
            self.master_url = found;
        }
        self.master_url.is_some()
    }

    /// What to say if there is no controller.
    pub fn no_master_message() -> (r: &'static str)
        ensures
            r@ == "未找到主控地址。请使用 --master 指定，或启用局域网自动发现"@,
    {
        "未找到主控地址。请使用 --master 指定，或启用局域网自动发现"
    }

    /// What the controller is told about the node.
    pub fn registration(&self, platform: String, arch: String) -> (r: RegisterRequest)
        ensures
            r.node_id == self.node_id,
            r.hostname@ == self.node_name@,
            r.platform == platform,
            r.arch == arch,
            r.version@ == VERSION@,
            r.agent_type@ == "pdc"@,
            r.serve_host@ == self.config.server.listen@,
            r.serve_port == self.config.server.port,
            opt_text(r.region) == opt_text(self.config.agent.region),
            texts(r.capability_tags@) == self.config.capabilities(),
    {
        RegisterRequest {
            node_id: self.node_id,
            hostname: self.node_name.clone(),
            platform,
            arch,
            version: VERSION.to_string(),
            agent_type: "pdc".to_string(),
            serve_host: self.config.server.listen.clone(),
            serve_port: self.config.server.port,
            region: copy_option(&self.config.agent.region),
            capability_tags: self.config.capability_tags(),
        }
    }

    /// Notes that there is a connection.
    pub fn connected(&mut self)
        ensures
            *final(self) == (AgentRuntime { connected: true, ..*old(self) }),
    {
        self.connected = true;
    }

    /// Notes that the connection has ended, as it should or not. Returns what to do.
    pub fn disconnected(&mut self, orderly: bool) -> (r: AfterConnection)
        ensures
            *final(self) == (AgentRuntime { connected: false, ..*old(self) }),
            r == if orderly {
                AfterConnection::Stop
            } else {
                AfterConnection::ReconnectAfter(old(self).config.agent.reconnect_interval_secs)
            },
    {
        self.connected = false;
        if orderly {
            AfterConnection::Stop
        } else {
            AfterConnection::ReconnectAfter(self.config.agent.reconnect_interval_secs)
        }
    }
}

/// The contents of an optional text.
pub open spec fn opt_text(t: Option<String>) -> Option<Seq<char>> {
    match t {
        Some(s) => Some(s@),
        None => None,
    }
}

fn copy_option(t: &Option<String>) -> (r: Option<String>)
    ensures
        opt_text(r) == opt_text(*t),
{
    match t {
        Some(s) => Some(s.clone()),
        None => None,
    }
}

/// A text in which there is nothing to replace stays as it is.
proof fn lemma_nothing_to_replace(s: Seq<char>, from: Seq<char>, to: Seq<char>)
    requires
        forall|i: int| 0 <= i <= s.len() ==> !#[trigger] occurs_at(s, from, i),
    ensures
        replaced(s, from, to) == s,
    decreases s.len(),
{
    if s.len() > 0 && from.len() > 0 {
        let rest = s.drop_first();
        assert(!occurs_at(s, from, 0));
        assert forall|i: int| 0 <= i <= rest.len() implies !#[trigger] occurs_at(rest, from, i) by {
            if occurs_at(rest, from, i) {
                assert(s.subrange(i + 1, i + 1 + from.len()) =~= rest.subrange(i, i + from.len()));
                assert(occurs_at(s, from, i + 1));
            }
        }
        lemma_nothing_to_replace(rest, from, to);
        assert(seq![s[0]] + rest =~= s);
    }
}

/// A text whose start does not have the first character of what is looked for.
proof fn lemma_occurs_later(head: Seq<char>, s: Seq<char>, from: Seq<char>, i: int)
    requires
        from.len() > 0,
        0 <= i <= (head + s).len(),
        forall|j: int| 0 <= j < head.len() ==> #[trigger] head[j] != from[0],
        forall|j: int| 0 <= j <= s.len() ==> !#[trigger] occurs_at(s, from, j),
    ensures
        !occurs_at(head + s, from, i),
{
    let whole = head + s;
    if occurs_at(whole, from, i) {
        assert(whole.subrange(i, i + from.len())[0] == whole[i]);
        if i < head.len() {
            assert(whole[i] == head[i]);
        } else {
            let k = i - head.len();
            assert(s.subrange(k, k + from.len()) =~= whole.subrange(i, i + from.len()));
            assert(occurs_at(s, from, k));
        }
    }
}

/// A controller that is reached over HTTP sends its messages over the plain protocol.
pub proof fn law_plain_controller(rest: Seq<char>)
    requires
        forall|i: int| 0 <= i <= rest.len() ==> !#[trigger] occurs_at(rest, "http://"@, i),
        forall|i: int| 0 <= i <= rest.len() ==> !#[trigger] occurs_at(rest, "https://"@, i),
    ensures
        ws_url_of("http://"@ + rest) == "ws://"@ + rest + "/api/v1/agent/ws"@,
{
    reveal_strlit("http://");
    reveal_strlit("https://");
    reveal_strlit("ws://");
    let url = "http://"@ + rest;
    assert(url.subrange(0, 7) =~= "http://"@);
    assert(url.skip(7) =~= rest);
    lemma_nothing_to_replace(rest, "http://"@, "ws://"@);
    let plain = "ws://"@ + rest;
    assert(replaced(url, "http://"@, "ws://"@) == plain);
    assert forall|i: int| 0 <= i <= plain.len() implies !#[trigger] occurs_at(
        plain,
        "https://"@,
        i,
    ) by {
        lemma_occurs_later("ws://"@, rest, "https://"@, i);
    }
    lemma_nothing_to_replace(plain, "https://"@, "wss://"@);
}

/// A controller that is reached over HTTPS sends its messages over the secure protocol.
pub proof fn law_secure_controller(rest: Seq<char>)
    requires
        forall|i: int| 0 <= i <= rest.len() ==> !#[trigger] occurs_at(rest, "http://"@, i),
        forall|i: int| 0 <= i <= rest.len() ==> !#[trigger] occurs_at(rest, "https://"@, i),
    ensures
        ws_url_of("https://"@ + rest) == "wss://"@ + rest + "/api/v1/agent/ws"@,
{
    reveal_strlit("http://");
    reveal_strlit("https://");
    let url = "https://"@ + rest;
    assert forall|i: int| 0 <= i <= url.len() implies !#[trigger] occurs_at(
        url,
        "http://"@,
        i,
    ) by {
        if occurs_at(url, "http://"@, i) {
            let part = url.subrange(i, i + 7);
            assert(part[0] == url[i] && part[4] == url[i + 4]);
            if i == 0 {
                assert(url[4] == 's');
            } else if i < 8 {
                assert(url[i] == "https://"@[i]);
            } else {
                assert(rest.subrange(i - 8, i - 1) =~= part);
                assert(occurs_at(rest, "http://"@, i - 8));
            }
        }
    }
    lemma_nothing_to_replace(url, "http://"@, "ws://"@);
    assert(url.subrange(0, 8) =~= "https://"@);
    assert(url.skip(8) =~= rest);
    lemma_nothing_to_replace(rest, "https://"@, "wss://"@);
}

/// What the command line says comes before the configuration file, which fills in what it does not
/// say; everything else is as the file has it.
pub proof fn law_command_line_comes_first(config: PdcConfig, overrides: Overrides)
    ensures
        ({
            let r = overridden(config, overrides);
            &&& overrides.master is Some ==> r.controller.master == overrides.master
            &&& overrides.master is None ==> r.controller.master == config.controller.master
            &&& overrides.token is Some ==> r.controller.token == overrides.token
            &&& overrides.token is None ==> r.controller.token == config.controller.token
            &&& overrides.name is Some ==> r.agent.name == overrides.name
            &&& overrides.name is None ==> r.agent.name == config.agent.name
            &&& r.controller.auto_discover_master == config.controller.auto_discover_master
            &&& r.agent.scan_ports == config.agent.scan_ports
            &&& r.agent.region == config.agent.region
            &&& r.agent.reconnect_interval_secs == config.agent.reconnect_interval_secs
            &&& r.server == config.server
            &&& r.discoverers == config.discoverers
        }),
{
}

/// The messages of the controller are told by their types.
pub proof fn law_types_of_messages(msg_type: Seq<char>)
    ensures
        kind_of("ping"@) == WsKind::Ping,
        kind_of("config_changed"@) == WsKind::ConfigChanged,
        kind_of("new_task"@) == WsKind::NewTask,
        kind_of("discover"@) == WsKind::Discover,
        kind_of("service_changed"@) == WsKind::ServiceChanged,
        msg_type != "ping"@ && msg_type != "config_changed"@ && msg_type != "new_task"@ && msg_type
            != "discover"@ && msg_type != "service_changed"@ ==> kind_of(msg_type) == WsKind::Unknown,
{
    reveal_strlit("ping");
    reveal_strlit("config_changed");
    reveal_strlit("new_task");
    reveal_strlit("discover");
    reveal_strlit("service_changed");
    assert("ping"@.len() == 4 && "config_changed"@.len() == 14 && "new_task"@.len() == 8);
    assert("discover"@.len() == 8 && "service_changed"@.len() == 15);
    assert("new_task"@[0] == 'n' && "discover"@[0] == 'd');
}

/// The controller is looked for on this machine first, at every port, and then on the usual address of
/// a router, at every port.
pub proof fn law_where_the_controller_is_looked_for(ports: Seq<u16>, list: Seq<ScanTarget>, i: int)
    requires
        is_scan_list(ports, list),
        0 <= i < ports.len(),
    ensures
        list.len() == 2 * ports.len(),
        list[i].base_url@ == "http://"@ + "127.0.0.1"@ + ":"@ + decimal_text(ports[i] as nat),
        list[i].probe_url@ == list[i].base_url@ + "/api/v1/overview"@,
        list[ports.len() + i].base_url@ == "http://"@ + "192.168.1.1"@ + ":"@ + decimal_text(
            ports[i] as nat,
        ),
        list[ports.len() + i].probe_url@ == list[ports.len() + i].base_url@ + "/api/v1/overview"@,
{
    assert(targets(list[i], SCAN_HOSTS[0]@, ports[i]));
    assert(targets(list[ports.len() + i], SCAN_HOSTS[1]@, ports[i]));
}

} // verus!
