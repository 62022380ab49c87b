//! Port mappings on the router (UPnP IGD).
//!
//! The router is asked by the caller. [`NatManager::begin`] starts the setup, and
//! [`NatManager::step`] takes the router's reply to the last action and says what to do next:
//! find the gateway, ask for the public address, remove mappings that an earlier run left behind,
//! map each port, and check that the mappings are there.

use crate::bytes::{append_decimal, decimal_text, same_text};
use crate::text::{occurs, text_contains};
use vstd::prelude::*;

verus! {

/// How many external ports are tried for a port.
pub const MAX_ATTEMPTS: u16 = 10;

/// The word by which mappings of this program are known.
pub const MAPPING_MARK: &'static str = "PDC";

/// A transport protocol.
#[derive(Debug, Clone, Copy, PartialEq, Eq, Structural)]
pub enum Protocol {
    Tcp,
    Udp,
}

impl Protocol {
    /// The name of the protocol.
    pub open spec fn label(self) -> Seq<char> {
        match self {
            Protocol::Tcp => "TCP"@,
            Protocol::Udp => "UDP"@,
        }
    }

    /// The protocol with a name.
    pub open spec fn named(name: Seq<char>) -> Option<Protocol> {
        if name == "TCP"@ {
            Some(Protocol::Tcp)
        } else if name == "UDP"@ {
            Some(Protocol::Udp)
        } else {
            None
        }
    }

    /// The name of the protocol.
    pub fn as_str(&self) -> (r: &'static str)
        ensures
            r@ == self.label(),
    {
        match self {
            Protocol::Tcp => "TCP",
            Protocol::Udp => "UDP",
        }
    }

    /// The protocol with a name.
    pub fn from_name(name: &str) -> (r: Option<Protocol>)
        ensures
            r == Protocol::named(name@),
    {
        if same_text(name, "TCP") {
            Some(Protocol::Tcp)
        } else if same_text(name, "UDP") {
            Some(Protocol::Udp)
        } else {
            None
        }
    }
}

/// A port that is to be reached from outside.
#[derive(Debug, Clone, Copy, PartialEq, Eq, Structural)]
pub enum PortKind {
    Http,
    UdpTracker,
    Crawler,
}

impl PortKind {
    /// The protocol of the port.
    pub open spec fn protocol(self) -> Protocol {
        match self {
            PortKind::Http => Protocol::Tcp,
            PortKind::UdpTracker => Protocol::Udp,
            PortKind::Crawler => Protocol::Udp,
        }
    }

    /// The description of the mapping.
    pub open spec fn description(self) -> Seq<char> {
        match self {
            PortKind::Http => "PDC HTTP Tracker"@,
            PortKind::UdpTracker => "PDC UDP Tracker"@,
            PortKind::Crawler => "PDC DHT Crawler"@,
        }
    }

    /// The protocol of the port.
    pub fn get_protocol(&self) -> (r: Protocol)
        ensures
            r == self.protocol(),
    {
        match self {
            PortKind::Http => Protocol::Tcp,
            PortKind::UdpTracker => Protocol::Udp,
            PortKind::Crawler => Protocol::Udp,
        }
    }

    /// The description of the mapping.
    pub fn get_description(&self) -> (r: &'static str)
        ensures
            r@ == self.description(),
    {
        match self {
            PortKind::Http => "PDC HTTP Tracker",
            PortKind::UdpTracker => "PDC UDP Tracker",
            PortKind::Crawler => "PDC DHT Crawler",
        }
    }
}

/// A port mapping.
#[derive(Debug)]
pub struct NatMapping {
    /// `TCP` or `UDP`.
    pub protocol: String,
    pub internal_port: u16,
    pub external_port: u16,
    pub description: String,
    /// Whether the router was seen to have the mapping.
    pub verified: bool,
}

/// A mapping as the router lists it.
#[derive(Debug)]
pub struct RouterMapping {
    pub protocol: Protocol,
    pub internal_port: u16,
    pub external_port: u16,
    pub enabled: bool,
    pub description: String,
}

/// The state of the port mappings.
#[derive(Debug)]
pub struct NatStatus {
    pub enabled: bool,
    pub gateway_found: bool,
    pub gateway_addr: Option<String>,
    pub external_ip: Option<String>,
    pub mappings: Vec<NatMapping>,
    pub last_error: Option<String>,
}

/// Where the setup stands.
#[derive(Debug, Clone, Copy, PartialEq, Eq, Structural)]
pub enum Stage {
    /// Port mapping is switched off.
    Skipped,
    SearchingGateway,
    /// No gateway was found.
    NoGateway,
    AskingAddress,
    ListingOld,
    /// Removing the old mapping at this position.
    RemovingOld(usize),
    /// Mapping a port, for the time after as many attempts.
    Mapping(PortKind, u16),
    Verifying,
    Done,
}

/// The setup under way.
#[derive(Debug)]
pub struct NatSetup {
    pub http_port: u16,
    pub udp_port: u16,
    /// Zero if there is none.
    pub crawler_port: u16,
    pub stage: Stage,
    /// The old mappings to remove.
    pub stale: Vec<(Protocol, u16)>,
    /// How many ports were mapped.
    pub mapped: u8,
}

/// What the router or the search for it replied.
#[derive(Debug)]
pub enum NatReply {
    /// The gateway was found at this address.
    Gateway(String),
    /// There is no gateway, for this reason.
    NoGateway(String),
    /// The search for a gateway broke off, for this reason.
    SearchAborted(String),
    /// The public address.
    ExternalAddress(String),
    /// The public address could not be had.
    NoExternalAddress,
    /// The mappings of the router.
    Mappings(Vec<RouterMapping>),
    /// The router was asked to remove a mapping.
    Removed,
    PortMapped,
    PortInUse,
    /// The router did not map the port, for this reason.
    PortFailed(String),
    /// The request to map the port broke off, for this reason.
    PortAborted(String),
}

/// What to do next.
#[derive(Debug)]
pub enum NatAction {
    SearchGateway,
    AskExternalAddress,
    ListMappings,
    RemoveMapping { protocol: Protocol, external_port: u16 },
    AddMapping {
        protocol: Protocol,
        external_port: u16,
        internal_port: u16,
        lease_duration: u32,
        description: String,
    },
    /// The setup is over; an error says why no port was mapped.
    Finish(Result<(), String>),
}

impl NatSetup {
    /// The port of a kind.
    pub open spec fn port_of(&self, kind: PortKind) -> u16 {
        match kind {
            PortKind::Http => self.http_port,
            PortKind::UdpTracker => self.udp_port,
            PortKind::Crawler => self.crawler_port,
        }
    }

    /// The port of a kind.
    pub fn port(&self, kind: PortKind) -> (r: u16)
        ensures
            r == self.port_of(kind),
    {
        match kind {
            PortKind::Http => self.http_port,
            PortKind::UdpTracker => self.udp_port,
            PortKind::Crawler => self.crawler_port,
        }
    }
}

/// The external port of an attempt: ports follow one another and wrap round.
pub open spec fn external_port(preferred: u16, attempt: u16) -> u16 {
    ((preferred + attempt) % 65536) as u16
}

/// The first attempt from `attempt` on whose external port is not zero, `None` if the attempts are
/// used up.
pub open spec fn next_attempt(preferred: u16, attempt: int) -> Option<u16>
    decreases MAX_ATTEMPTS - attempt,
{
    if attempt >= MAX_ATTEMPTS || attempt < 0 {
        None
    } else if external_port(preferred, attempt as u16) == 0 {
        next_attempt(preferred, attempt + 1)
    } else {
        Some(attempt as u16)
    }
}

/// The stage at which a port begins to be mapped. Every port has an attempt to begin with.
pub open spec fn mapping_stage(setup: NatSetup, kind: PortKind) -> Stage {
    Stage::Mapping(
        kind,
        if setup.port_of(kind) == 0 {
            1
        } else {
            0
        },
    )
}

/// The stage after a port was mapped or given up: the next port, or the check.
pub open spec fn stage_after(setup: NatSetup, kind: PortKind) -> Stage {
    match kind {
        PortKind::Http => mapping_stage(setup, PortKind::UdpTracker),
        PortKind::UdpTracker => if setup.crawler_port > 0 {
            mapping_stage(setup, PortKind::Crawler)
        } else {
            Stage::Verifying
        },
        PortKind::Crawler => Stage::Verifying,
    }
}

/// Whether a mapping of the router is one of this program.
pub open spec fn is_ours() -> spec_fn(RouterMapping) -> bool {
    |m: RouterMapping| occurs(m.description@, MAPPING_MARK@)
}

/// The protocols and external ports of mappings.
pub open spec fn ports_of(list: Seq<RouterMapping>) -> Seq<(Protocol, u16)> {
    list.map_values(|m: RouterMapping| (m.protocol, m.external_port))
}

/// Whether the router lists a mapping and has it switched on.
pub open spec fn is_listed(m: NatMapping, protocol: Protocol, list: Seq<RouterMapping>) -> bool {
    exists|i: int|
        0 <= i < list.len() && (#[trigger] list[i]).enabled && list[i].protocol == protocol
            && list[i].external_port == m.external_port && list[i].internal_port == m.internal_port
}

/// A mapping after it was looked for in the router's list. One with an unknown protocol is left
/// alone.
pub open spec fn checked(m: NatMapping, list: Seq<RouterMapping>) -> NatMapping {
    match Protocol::named(m.protocol@) {
        Some(p) => NatMapping { verified: is_listed(m, p, list), ..m },
        None => m,
    }
}

/// Whether `m` is the mapping of a port that was just mapped.
pub open spec fn is_new_mapping(m: NatMapping, kind: PortKind, port: u16, external: u16) -> bool {
    &&& m.protocol@ == kind.protocol().label()
    &&& m.internal_port == port
    &&& m.external_port == external
    &&& m.description@ == kind.description()
    &&& !m.verified
}

/// The text of the error when a port could not be mapped.
pub open spec fn mapping_error(kind: PortKind, port: u16, reason: Seq<char>) -> Seq<char> {
    kind.protocol().label() + " "@ + decimal_text(port as nat) + " 映射失败: "@ + reason
}

/// The text of the error when no gateway was found.
pub open spec fn gateway_error(reason: Seq<char>) -> Seq<char> {
    "UPnP 网关发现失败: "@ + reason
}

/// Why a search broke off.
pub open spec fn search_aborted(reason: Seq<char>) -> Seq<char> {
    "网关发现任务失败: "@ + reason
}

/// Why the router did not map a port.
pub open spec fn port_refused(reason: Seq<char>) -> Seq<char> {
    "映射失败: "@ + reason
}

/// Why a request to map a port broke off.
pub open spec fn port_aborted(reason: Seq<char>) -> Seq<char> {
    "映射任务失败: "@ + reason
}

/// The text of an optional string.
pub open spec fn text_of(s: Option<String>) -> Option<Seq<char>> {
    match s {
        Some(t) => Some(t@),
        None => None,
    }
}

/// The port mappings.
pub struct NatManager {
    pub enabled: bool,
    /// Seconds that a mapping is kept, zero for ever.
    pub lease_duration: u32,
    /// This machine's address on the local network.
    pub local_ip: [u8; 4],
    pub mappings: Vec<NatMapping>,
    pub gateway_addr: Option<String>,
    pub external_ip: Option<String>,
    pub last_error: Option<String>,
}

/// The error after a port of this kind could not be mapped; that of the crawler is not kept.
pub open spec fn error_after(
    before: NatManager,
    kind: PortKind,
    port: u16,
    reason: Seq<char>,
) -> Option<Seq<char>> {
    if kind == PortKind::Crawler {
        text_of(before.last_error)
    } else {
        Some(mapping_error(kind, port, reason))
    }
}

/// Whether two managers agree in all but the mappings and the last error.
pub open spec fn same_router(a: NatManager, b: NatManager) -> bool {
    &&& a.enabled == b.enabled
    &&& a.lease_duration == b.lease_duration
    &&& a.local_ip == b.local_ip
    &&& a.gateway_addr == b.gateway_addr
    &&& a.external_ip == b.external_ip
}

/// Whether a port was given up for `reason`.
pub open spec fn gave_up(
    before: NatManager,
    setup: NatSetup,
    kind: PortKind,
    reason: Seq<char>,
    after: NatManager,
    next: NatSetup,
) -> bool {
    &&& same_router(after, before)
    &&& after.mappings == before.mappings
    &&& text_of(after.last_error) == error_after(before, kind, setup.port_of(kind), reason)
    &&& next == (NatSetup { stage: stage_after(setup, kind), ..setup })
}

/// Whether `after` and `next` are what a reply makes of a manager and its setup. A reply that does
/// not belong to the stage changes nothing.
pub open spec fn replied(
    before: NatManager,
    setup: NatSetup,
    reply: NatReply,
    after: NatManager,
    next: NatSetup,
) -> bool {
    match (setup.stage, reply) {
        (Stage::SearchingGateway, NatReply::Gateway(addr)) => {
            &&& after == (NatManager { gateway_addr: Some(addr), ..before })
            &&& next == (NatSetup { stage: Stage::AskingAddress, ..setup })
        },
        (Stage::SearchingGateway, NatReply::NoGateway(reason)) => {
            &&& same_router(after, before)
            &&& after.mappings == before.mappings
            &&& text_of(after.last_error) == Some(gateway_error(reason@))
            &&& next == (NatSetup { stage: Stage::NoGateway, ..setup })
        },
        (Stage::SearchingGateway, NatReply::SearchAborted(reason)) => {
            &&& same_router(after, before)
            &&& after.mappings == before.mappings
            &&& text_of(after.last_error) == Some(gateway_error(search_aborted(reason@)))
            &&& next == (NatSetup { stage: Stage::NoGateway, ..setup })
        },
        (Stage::AskingAddress, NatReply::ExternalAddress(ip)) => {
            &&& after == (NatManager { external_ip: Some(ip), ..before })
            &&& next == (NatSetup { stage: Stage::ListingOld, ..setup })
        },
        (Stage::AskingAddress, NatReply::NoExternalAddress) => {
            &&& after == before
            &&& next == (NatSetup { stage: Stage::ListingOld, ..setup })
        },
        (Stage::ListingOld, NatReply::Mappings(list)) => {
            &&& after == before
            &&& next.stale@ == ports_of(list@.filter(is_ours()))
            &&& next == (NatSetup {
                stale: next.stale,
                stage: if next.stale@.len() > 0 {
                    Stage::RemovingOld(0)
                } else {
                    mapping_stage(setup, PortKind::Http)
                },
                ..setup
            })
        },
        (Stage::RemovingOld(at), NatReply::Removed) => {
            &&& after == before
            &&& next == (NatSetup {
                stage: if at + 1 < setup.stale@.len() {
                    Stage::RemovingOld((at + 1) as usize)
                } else {
                    mapping_stage(setup, PortKind::Http)
                },
                ..setup
            })
        },
        (Stage::Mapping(kind, attempt), NatReply::PortMapped) => {
            &&& same_router(after, before)
            &&& after.last_error == before.last_error
            &&& after.mappings@.len() == before.mappings@.len() + 1
            &&& after.mappings@.drop_last() == before.mappings@
            &&& is_new_mapping(
                after.mappings@.last(),
                kind,
                setup.port_of(kind),
                external_port(setup.port_of(kind), attempt),
            )
            &&& next == (NatSetup {
                stage: stage_after(setup, kind),
                mapped: (setup.mapped + 1) as u8,
                ..setup
            })
        },
        (Stage::Mapping(kind, attempt), NatReply::PortInUse) => match next_attempt(
            setup.port_of(kind),
            attempt + 1,
        ) {
            Some(n) => {
                &&& after == before
                &&& next == (NatSetup { stage: Stage::Mapping(kind, n), ..setup })
            },
            None => gave_up(
                before,
                setup,
                kind,
                "映射失败，已尝试 10 个端口均被占用"@,
                after,
                next,
            ),
        },
        (Stage::Mapping(kind, attempt), NatReply::PortFailed(reason)) => gave_up(
            before,
            setup,
            kind,
            port_refused(reason@),
            after,
            next,
        ),
        (Stage::Mapping(kind, attempt), NatReply::PortAborted(reason)) => gave_up(
            before,
            setup,
            kind,
            port_aborted(reason@),
            after,
            next,
        ),
        (Stage::Verifying, NatReply::Mappings(list)) => {
            &&& same_router(after, before)
            &&& after.last_error == before.last_error
            &&& after.mappings@ == before.mappings@.map_values(|m: NatMapping| checked(m, list@))
            &&& next == (NatSetup { stage: Stage::Done, ..setup })
        },
        _ => after == before && next == setup,
    }
}

/// Whether `action` is what the stage of a setup asks for.
pub open spec fn asks_for(manager: NatManager, setup: NatSetup, action: NatAction) -> bool {
    match setup.stage {
        Stage::Skipped => action == NatAction::Finish(Ok(())),
        Stage::SearchingGateway => action == NatAction::SearchGateway,
        Stage::NoGateway => action matches NatAction::Finish(Err(text)) && Some(text@) == text_of(
            manager.last_error,
        ),
        Stage::AskingAddress => action == NatAction::AskExternalAddress,
        Stage::ListingOld => action == NatAction::ListMappings,
        Stage::RemovingOld(at) => action == (NatAction::RemoveMapping {
            protocol: setup.stale@[at as int].0,
            external_port: setup.stale@[at as int].1,
        }),
        Stage::Mapping(kind, attempt) => action matches NatAction::AddMapping {
            protocol,
            external_port: port,
            internal_port,
            lease_duration,
            description,
        } && protocol == kind.protocol() && port == external_port(setup.port_of(kind), attempt)
            && internal_port == setup.port_of(kind) && lease_duration == manager.lease_duration
            && description@ == kind.description(),
        Stage::Verifying => action == NatAction::ListMappings,
        Stage::Done => if setup.mapped == 0 {
            action matches NatAction::Finish(Err(text)) && text@
                == "所有端口映射均失败，请检查路由器 UPnP 设置或手动配置端口转发"@
        } else {
            action == NatAction::Finish(Ok(()))
        },
    }
}

impl NatSetup {
    /// What holds of every setup under way with a manager.
    pub open spec fn wf(&self, manager: NatManager) -> bool {
        match self.stage {
            Stage::NoGateway => manager.last_error is Some && self.mapped == 0,
            Stage::RemovingOld(at) => at < self.stale@.len() && self.mapped == 0,
            Stage::Mapping(kind, attempt) => {
                &&& attempt < MAX_ATTEMPTS
                &&& external_port(self.port_of(kind), attempt) != 0
                &&& self.mapped <= ports_before(kind)
            },
            Stage::Verifying => self.mapped <= 3,
            Stage::Done => self.mapped <= 3,
            _ => self.mapped == 0,
        }
    }
}

/// How many ports come before one.
pub open spec fn ports_before(kind: PortKind) -> int {
    match kind {
        PortKind::Http => 0,
        PortKind::UdpTracker => 1,
        PortKind::Crawler => 2,
    }
}

/// Copies a mapping.
fn copy_mapping(m: &NatMapping) -> (r: NatMapping)
    ensures
        r == *m,
{
    NatMapping {
        protocol: m.protocol.clone(),
        internal_port: m.internal_port,
        external_port: m.external_port,
        description: m.description.clone(),
        verified: m.verified,
    }
}

/// Copies an optional text.
fn copy_text(s: &Option<String>) -> (r: Option<String>)
    ensures
        r == *s,
{
    match s {
        Some(t) => Some(t.clone()),
        None => None,
    }
}

/// Whether the router lists a mapping and has it switched on.
fn find_listed(m: &NatMapping, protocol: Protocol, list: &Vec<RouterMapping>) -> (r: bool)
    ensures
        r == is_listed(*m, protocol, list@),
{
    let mut i: usize = 0;
    while i < list.len()
        invariant
            i <= list@.len(),
            forall|j: int|
                0 <= j < i ==> !((#[trigger] list@[j]).enabled && list@[j].protocol == protocol
                    && list@[j].external_port == m.external_port && list@[j].internal_port
                    == m.internal_port),
        decreases list@.len() - i,
    {
        if list[i].enabled && list[i].external_port == m.external_port && list[i].protocol
            == protocol && list[i].internal_port == m.internal_port {
            return true;
        }
        i += 1;
    }
    false
}

/// The protocols and external ports of the mappings that an earlier run left behind.
pub fn stale_ports(list: &Vec<RouterMapping>) -> (r: Vec<(Protocol, u16)>)
    ensures
        r@ == ports_of(list@.filter(is_ours())),
{
    let mut out: Vec<(Protocol, u16)> = Vec::new();
    let mut i: usize = 0;
    assert(ports_of(list@.take(0).filter(is_ours())) =~= Seq::empty()) by {
        reveal(Seq::filter);
    }
    while i < list.len()
        invariant
            i <= list@.len(),
            out@ == ports_of(list@.take(i as int).filter(is_ours())),
        decreases list@.len() - i,
    {
        let ghost before = list@.take(i as int).filter(is_ours());
        proof {
            crate::seqs::lemma_filter_step(list@, i as int, is_ours());
        }
        if text_contains(list[i].description.as_str(), MAPPING_MARK) {
            out.push((list[i].protocol, list[i].external_port));
            assert(out@ =~= ports_of(before.push(list@[i as int])));
        }
        i += 1;
    }
    assert(list@.take(i as int) =~= list@);
    out
}

/// The first attempt from `attempt` on whose external port is not zero.
fn find_attempt(preferred: u16, attempt: u16) -> (r: Option<u16>)
    requires
        attempt <= MAX_ATTEMPTS,
    ensures
        r == next_attempt(preferred, attempt as int),
        r matches Some(n) ==> n < MAX_ATTEMPTS && external_port(preferred, n) != 0,
    decreases MAX_ATTEMPTS - attempt,
{
    if attempt >= MAX_ATTEMPTS {
        None
    } else if wrapped_port(preferred, attempt) == 0 {
        find_attempt(preferred, attempt + 1)
    } else {
        Some(attempt)
    }
}

/// The external port of an attempt.
fn wrapped_port(preferred: u16, attempt: u16) -> (r: u16)
    ensures
        r == external_port(preferred, attempt),
{
    ((preferred as u32 + attempt as u32) % 65536) as u16
}

impl NatManager {
    /// A manager without any mapping. Without an address of this machine, `0.0.0.0` stands for it.
    pub fn new(enabled: bool, lease_duration: u32, local_ip: Option<[u8; 4]>) -> (r: NatManager)
        ensures
            r.enabled == enabled,
            r.lease_duration == lease_duration,
            local_ip matches Some(ip) ==> r.local_ip == ip,
            local_ip is None ==> r.local_ip@ == seq![0u8, 0, 0, 0],
            r.mappings@.len() == 0,
            r.gateway_addr is None,
            r.external_ip is None,
            r.last_error is None,
    {
        let ip: [u8; 4] = match local_ip {
            Some(ip) => ip,
            None => [0, 0, 0, 0],
        };
        NatManager {
            enabled,
            lease_duration,
            local_ip: ip,
            mappings: Vec::new(),
            gateway_addr: None,
            external_ip: None,
            last_error: None,
        }
    }

    /// Starts the setup for the given ports; a crawler port of zero is left out. Returns the setup
    /// and the first thing to do.
    pub fn begin(&self, http_port: u16, udp_port: u16, crawler_port: u16) -> (r: (
        NatSetup,
        NatAction,
    ))
        ensures
            r.0.http_port == http_port,
            r.0.udp_port == udp_port,
            r.0.crawler_port == crawler_port,
            r.0.mapped == 0,
            r.0.stage == if self.enabled {
                Stage::SearchingGateway
            } else {
                Stage::Skipped
            },
            r.0.wf(*self),
            asks_for(*self, r.0, r.1),
    {
        let stage: Stage = if self.enabled {
            Stage::SearchingGateway
        } else {
            Stage::Skipped
        };
        let setup: NatSetup = NatSetup {
            http_port,
            udp_port,
            crawler_port,
            stage,
            stale: Vec::new(),
            mapped: 0,
        };
        let action: NatAction = self.action(&setup);
        (setup, action)
    }

    /// What the stage of a setup asks for.
    fn action(&self, setup: &NatSetup) -> (r: NatAction)
        requires
            setup.wf(*self),
        ensures
            asks_for(*self, *setup, r),
    {
        match setup.stage {
            Stage::Skipped => NatAction::Finish(Ok(())),
            Stage::SearchingGateway => NatAction::SearchGateway,
            Stage::NoGateway => match &self.last_error {
                Some(text) => NatAction::Finish(Err(text.clone())),
                None => NatAction::Finish(Ok(())),
            },
            Stage::AskingAddress => NatAction::AskExternalAddress,
            Stage::ListingOld => NatAction::ListMappings,
            Stage::RemovingOld(at) => NatAction::RemoveMapping {
                protocol: setup.stale[at].0,
                external_port: setup.stale[at].1,
            },
            Stage::Mapping(kind, attempt) => NatAction::AddMapping {
                protocol: kind.get_protocol(),
                external_port: wrapped_port(setup.port(kind), attempt),
                internal_port: setup.port(kind),
                lease_duration: self.lease_duration,
                description: kind.get_description().to_string(),
            },
            Stage::Verifying => NatAction::ListMappings,
            Stage::Done => if setup.mapped == 0 {
                NatAction::Finish(
                    Err(
                        "所有端口映射均失败，请检查路由器 UPnP 设置或手动配置端口转发".to_string(),
                    ),
                )
            } else {
                NatAction::Finish(Ok(()))
            },
        }
    }

    /// Where mapping a port begins.
    fn start_of(setup: &NatSetup, kind: PortKind) -> (r: Stage)
        ensures
            r == mapping_stage(*setup, kind),
            r matches Stage::Mapping(k, n) && k == kind && n < MAX_ATTEMPTS && external_port(
                setup.port_of(kind),
                n,
            ) != 0,
    {
        if setup.port(kind) == 0 {
            Stage::Mapping(kind, 1)
        } else {
            Stage::Mapping(kind, 0)
        }
    }

    /// Where the setup goes on after a port.
    fn after_port(setup: &NatSetup, kind: PortKind) -> (r: Stage)
        ensures
            r == stage_after(*setup, kind),
            r matches Stage::Mapping(k, n) ==> n < MAX_ATTEMPTS && external_port(
                setup.port_of(k),
                n,
            ) != 0 && ports_before(k) == ports_before(kind) + 1,
            r is Mapping || r is Verifying,
    {
        match kind {
            PortKind::Http => Self::start_of(setup, PortKind::UdpTracker),
            PortKind::UdpTracker => if setup.crawler_port > 0 {
                Self::start_of(setup, PortKind::Crawler)
            } else {
                Stage::Verifying
            },
            PortKind::Crawler => Stage::Verifying,
        }
    }

    /// Gives a port up.
    fn give_up(&mut self, setup: &mut NatSetup, kind: PortKind, reason: &str)
        requires
            old(setup).wf(*old(self)),
            old(setup).stage is Mapping,
            (old(setup).stage)->Mapping_0 == kind,
        ensures
            gave_up(*old(self), *old(setup), kind, reason@, *final(self), *final(setup)),
            final(setup).wf(*final(self)),
    {
        match kind {
            PortKind::Crawler => {},
            _ => {
                let port: u16 = setup.port(kind);
                let mut text: String = kind.get_protocol().as_str().to_string();
                text.append(" ");
                append_decimal(&mut text, port as u64);
                text.append(" 映射失败: ");
                text.append(reason);
                assert(text@ =~= mapping_error(kind, port, reason@));
                self.last_error = Some(text);
            },
        }
        let stage: Stage = Self::after_port(setup, kind);
        setup.stage = stage;
    }

    /// Looks for each mapping in the router's list.
    pub fn verify_mappings(&mut self, list: &Vec<RouterMapping>)
        ensures
            same_router(*final(self), *old(self)),
            final(self).last_error == old(self).last_error,
            final(self).mappings@ == old(self).mappings@.map_values(
                |m: NatMapping| checked(m, list@),
            ),
    {
        let mut out: Vec<NatMapping> = Vec::with_capacity(self.mappings.len());
        let mut i: usize = 0;
        while i < self.mappings.len()
            invariant
                i <= self.mappings@.len(),
                out@.len() == i,
                forall|j: int|
                    0 <= j < i ==> #[trigger] out@[j] == checked(self.mappings@[j], list@),
            decreases self.mappings@.len() - i,
        {
            let mut m: NatMapping = copy_mapping(&self.mappings[i]);
            match Protocol::from_name(m.protocol.as_str()) {
                Some(p) => {
                    let found: bool = find_listed(&self.mappings[i], p, list);
                    m.verified = found;
                },
                None => {},
            }
            out.push(m);
            i += 1;
        }
        assert(out@ =~= self.mappings@.map_values(|m: NatMapping| checked(m, list@)));
        self.mappings = out;
    }

    /// Takes the reply to the last action and says what to do next.
    pub fn step(&mut self, setup: &mut NatSetup, reply: NatReply) -> (r: NatAction)
        requires
            old(setup).wf(*old(self)),
        ensures
            replied(*old(self), *old(setup), reply, *final(self), *final(setup)),
            final(setup).wf(*final(self)),
            asks_for(*final(self), *final(setup), r),
    {
        match (setup.stage, reply) {
            (Stage::SearchingGateway, NatReply::Gateway(addr)) => {
                self.gateway_addr = Some(addr);
                setup.stage = Stage::AskingAddress;
            },
            (Stage::SearchingGateway, NatReply::NoGateway(reason)) => {
                let mut text: String = "UPnP 网关发现失败: ".to_string();
                text.append(reason.as_str());
                self.last_error = Some(text);
                setup.stage = Stage::NoGateway;
            },
            (Stage::SearchingGateway, NatReply::SearchAborted(reason)) => {
                let mut text: String = "UPnP 网关发现失败: ".to_string();
                text.append("网关发现任务失败: ");
                text.append(reason.as_str());
                assert(text@ =~= gateway_error(search_aborted(reason@)));
                self.last_error = Some(text);
                setup.stage = Stage::NoGateway;
            },
            (Stage::AskingAddress, NatReply::ExternalAddress(ip)) => {
                self.external_ip = Some(ip);
                setup.stage = Stage::ListingOld;
            },
            (Stage::AskingAddress, NatReply::NoExternalAddress) => {
                setup.stage = Stage::ListingOld;
            },
            (Stage::ListingOld, NatReply::Mappings(list)) => {
                setup.stale = stale_ports(&list);
                let stage: Stage = if setup.stale.len() > 0 {
                    Stage::RemovingOld(0)
                } else {
                    Self::start_of(setup, PortKind::Http)
                };
                setup.stage = stage;
            },
            (Stage::RemovingOld(at), NatReply::Removed) => {
                let stage: Stage = if at < setup.stale.len() - 1 {
                    Stage::RemovingOld(at + 1)
                } else {
                    Self::start_of(setup, PortKind::Http)
                };
                setup.stage = stage;
            },
            (Stage::Mapping(kind, attempt), NatReply::PortMapped) => {
                let port: u16 = setup.port(kind);
                self.mappings.push(
                    NatMapping {
                        protocol: kind.get_protocol().as_str().to_string(),
                        internal_port: port,
                        external_port: wrapped_port(port, attempt),
                        description: kind.get_description().to_string(),
                        verified: false,
                    },
                );
                assert(self.mappings@.drop_last() =~= old(self).mappings@);
                setup.mapped = setup.mapped + 1;
                let stage: Stage = Self::after_port(setup, kind);
                setup.stage = stage;
            },
            (Stage::Mapping(kind, attempt), NatReply::PortInUse) => {
                match find_attempt(setup.port(kind), attempt + 1) {
                    Some(n) => {
                        setup.stage = Stage::Mapping(kind, n);
                    },
                    None => {
                        self.give_up(setup, kind, "映射失败，已尝试 10 个端口均被占用");
                    },
                }
            },
            (Stage::Mapping(kind, _), NatReply::PortFailed(reason)) => {
                let mut text: String = "映射失败: ".to_string();
                text.append(reason.as_str());
                self.give_up(setup, kind, text.as_str());
            },
            (Stage::Mapping(kind, _), NatReply::PortAborted(reason)) => {
                let mut text: String = "映射任务失败: ".to_string();
                text.append(reason.as_str());
                self.give_up(setup, kind, text.as_str());
            },
            (Stage::Verifying, NatReply::Mappings(list)) => {
                self.verify_mappings(&list);
                setup.stage = Stage::Done;
            },
            _ => {},
        }
        self.action(setup)
    }

    /// Seconds between two renewals of the mappings; `None` if they are kept for ever.
    pub fn renewal_interval_secs(&self) -> (r: Option<u64>)
        ensures
            r == if self.lease_duration == 0 {
                None
            } else if self.lease_duration < 60 {
                Some(30u64)
            } else {
                Some((self.lease_duration / 2) as u64)
            },
    {
        if self.lease_duration == 0 {
            None
        } else if self.lease_duration < 60 {
            Some(30)
        } else {
            Some((self.lease_duration / 2) as u64)
        }
    }

    /// The mappings to renew: those with a known protocol, while there is a gateway.
    pub fn renewals(&self) -> (r: Vec<(Protocol, NatMapping)>)
        ensures
            r@ == if self.gateway_addr is Some {
                with_protocols(self.mappings@)
            } else {
                Seq::empty()
            },
    {
        let mut out: Vec<(Protocol, NatMapping)> = Vec::new();
        if self.gateway_addr.is_none() {
            assert(out@ =~= Seq::empty());
            return out;
        }
        let mut i: usize = 0;
        assert(with_protocols(self.mappings@.take(0)) =~= Seq::empty());
        while i < self.mappings.len()
            invariant
                i <= self.mappings@.len(),
                out@ == with_protocols(self.mappings@.take(i as int)),
            decreases self.mappings@.len() - i,
        {
            match Protocol::from_name(self.mappings[i].protocol.as_str()) {
                Some(p) => {
                    out.push((p, copy_mapping(&self.mappings[i])));
                },
                None => {},
            }
            i += 1;
            assert(self.mappings@.take(i as int).drop_last() =~= self.mappings@.take(i - 1));
        }
        assert(self.mappings@.take(i as int) =~= self.mappings@);
        out
    }

    /// Notes the public address.
    pub fn set_external_ip(&mut self, ip: String)
        ensures
            *final(self) == (NatManager { external_ip: Some(ip), ..*old(self) }),
    {
        self.external_ip = Some(ip);
    }

    /// Gives all mappings up. Returns those to remove from the router, none without a gateway, in
    /// which case the mappings stay as they are.
    pub fn release_all(&mut self) -> (r: Vec<(Protocol, NatMapping)>)
        ensures
            same_router(*final(self), *old(self)),
            final(self).last_error == old(self).last_error,
            old(self).gateway_addr is None ==> r@.len() == 0,
            old(self).gateway_addr is None ==> final(self).mappings@ == old(self).mappings@,
            old(self).gateway_addr is Some ==> r@ == with_protocols(old(self).mappings@),
            old(self).gateway_addr is Some ==> final(self).mappings@.len() == 0,
    {
        let out: Vec<(Protocol, NatMapping)> = self.renewals();
        if self.gateway_addr.is_some() {
            self.mappings = Vec::new();
        }
        out
    }

    /// The state of the port mappings.
    pub fn status(&self) -> (r: NatStatus)
        ensures
            r.enabled == self.enabled,
            r.gateway_found == (self.gateway_addr is Some),
            r.gateway_addr == self.gateway_addr,
            r.external_ip == self.external_ip,
            r.mappings@ == self.mappings@,
            r.last_error == self.last_error,
    {
        let mut mappings: Vec<NatMapping> = Vec::with_capacity(self.mappings.len());
        let mut i: usize = 0;
        while i < self.mappings.len()
            invariant
                i <= self.mappings@.len(),
                mappings@ == self.mappings@.take(i as int),
            decreases self.mappings@.len() - i,
        {
            mappings.push(copy_mapping(&self.mappings[i]));
            i += 1;
            assert(mappings@ =~= self.mappings@.take(i as int));
        }
        assert(self.mappings@.take(i as int) =~= self.mappings@);
        NatStatus {
            enabled: self.enabled,
            gateway_found: self.gateway_addr.is_some(),
            gateway_addr: copy_text(&self.gateway_addr),
            external_ip: copy_text(&self.external_ip),
            mappings,
            last_error: copy_text(&self.last_error),
        }
    }
}

/// The mappings with a known protocol, each with it.
pub open spec fn with_protocols(list: Seq<NatMapping>) -> Seq<(Protocol, NatMapping)>
    decreases list.len(),
{
    if list.len() == 0 {
        Seq::empty()
    } else {
        let rest = with_protocols(list.drop_last());
        match Protocol::named(list.last().protocol@) {
            Some(p) => rest.push((p, list.last())),
            None => rest,
        }
    }
}

impl Default for NatManager {
    /// A manager that is switched off.
    fn default() -> (r: NatManager)
        ensures
            !r.enabled,
            r.lease_duration == 3600,
            r.mappings@.len() == 0,
            r.gateway_addr is None,
            r.external_ip is None,
            r.last_error is None,
    {
        NatManager::new(false, 3600, None)
    }
}

/// Whether a reply belongs to a stage.
pub open spec fn fits(stage: Stage, reply: NatReply) -> bool {
    match stage {
        Stage::SearchingGateway => reply is Gateway || reply is NoGateway || reply is SearchAborted,
        Stage::AskingAddress => reply is ExternalAddress || reply is NoExternalAddress,
        Stage::ListingOld => reply is Mappings,
        Stage::RemovingOld(_) => reply is Removed,
        Stage::Mapping(_, _) => reply is PortMapped || reply is PortInUse || reply is PortFailed
            || reply is PortAborted,
        Stage::Verifying => reply is Mappings,
        _ => false,
    }
}

/// How many kinds of stages are still to come.
pub open spec fn stages_left(stage: Stage) -> int {
    match stage {
        Stage::SearchingGateway => 8,
        Stage::AskingAddress => 7,
        Stage::ListingOld => 6,
        Stage::RemovingOld(_) => 5,
        Stage::Mapping(kind, _) => 4 - ports_before(kind),
        Stage::Verifying => 1,
        _ => 0,
    }
}

/// How many steps a stage can still take.
pub open spec fn steps_left(setup: NatSetup) -> int {
    match setup.stage {
        Stage::RemovingOld(at) => setup.stale@.len() - at,
        Stage::Mapping(_, attempt) => MAX_ATTEMPTS - attempt,
        _ => 0,
    }
}

/// What [`next_attempt`] promises.
pub proof fn lemma_next_attempt(preferred: u16, attempt: int)
    requires
        0 <= attempt,
    ensures
        next_attempt(preferred, attempt) matches Some(n) ==> attempt <= n < MAX_ATTEMPTS,
    decreases MAX_ATTEMPTS - attempt,
{
    if attempt < MAX_ATTEMPTS && external_port(preferred, attempt as u16) == 0 {
        lemma_next_attempt(preferred, attempt + 1);
    }
}

/// The setup comes to an end: every reply that belongs to the stage leads to a later stage, or to
/// one with fewer steps left.
pub proof fn law_setup_comes_to_an_end(
    before: NatManager,
    setup: NatSetup,
    reply: NatReply,
    after: NatManager,
    next: NatSetup,
)
    requires
        setup.wf(before),
        fits(setup.stage, reply),
        replied(before, setup, reply, after, next),
    ensures
        0 <= stages_left(next.stage),
        0 <= steps_left(next),
        stages_left(next.stage) < stages_left(setup.stage) || stages_left(next.stage)
            == stages_left(setup.stage) && steps_left(next) < steps_left(setup),
{
    if let Stage::Mapping(kind, attempt) = setup.stage {
        lemma_next_attempt(setup.port_of(kind), attempt + 1);
    }
    assert(setup.stale@.len() == setup.stale.len());
}

/// Every port that counts as mapped has one new mapping, and no mapping is lost on the way.
pub proof fn law_mapped_ports_have_mappings(
    before: NatManager,
    setup: NatSetup,
    reply: NatReply,
    after: NatManager,
    next: NatSetup,
)
    requires
        setup.wf(before),
        replied(before, setup, reply, after, next),
    ensures
        after.mappings@.len() - before.mappings@.len() == next.mapped - setup.mapped,
        next.mapped <= 3,
{
}

/// The attempts for a port go through the ten ports from the wanted one on, zero left out, each
/// once.
pub proof fn law_attempts_differ(preferred: u16, a: u16, b: u16)
    requires
        a < b < MAX_ATTEMPTS,
    ensures
        external_port(preferred, a) != external_port(preferred, b),
        external_port(preferred, 0) == preferred,
{
}

/// The port of the web interface is a TCP port, those of the tracker and the crawler are UDP ports,
/// and each is asked for under its own name.
pub proof fn law_kinds_of_ports(setup: NatSetup)
    ensures
        PortKind::Http.protocol() == Protocol::Tcp,
        PortKind::UdpTracker.protocol() == Protocol::Udp,
        PortKind::Crawler.protocol() == Protocol::Udp,
        PortKind::Http.description() == "PDC HTTP Tracker"@,
        PortKind::UdpTracker.description() == "PDC UDP Tracker"@,
        PortKind::Crawler.description() == "PDC DHT Crawler"@,
        setup.port_of(PortKind::Http) == setup.http_port,
        setup.port_of(PortKind::UdpTracker) == setup.udp_port,
        setup.port_of(PortKind::Crawler) == setup.crawler_port,
        Protocol::Tcp.label() == "TCP"@,
        Protocol::Udp.label() == "UDP"@,
        Protocol::named("TCP"@) == Some(Protocol::Tcp),
        Protocol::named("UDP"@) == Some(Protocol::Udp),
{
    reveal_strlit("TCP");
    reveal_strlit("UDP");
    assert("TCP"@[0] == 'T' && "UDP"@[0] == 'U');
}

/// While a port is being mapped, the router is asked for that port of this machine; the first time
/// under the same number, and after a number was in use under the next one that is not zero, wrapping
/// round after the last.
pub proof fn law_router_is_asked_for_the_port(
    manager: NatManager,
    setup: NatSetup,
    action: NatAction,
    kind: PortKind,
    attempt: u16,
)
    requires
        asks_for(manager, setup, action),
        setup.stage == Stage::Mapping(kind, attempt),
        attempt < 10,
    ensures
        action is AddMapping,
        action->AddMapping_protocol == kind.protocol(),
        action->AddMapping_internal_port == setup.port_of(kind),
        action->AddMapping_lease_duration == manager.lease_duration,
        action->AddMapping_description@ == kind.description(),
        setup.port_of(kind) + attempt < 65536 ==> action->AddMapping_external_port
            == setup.port_of(kind) + attempt,
        setup.port_of(kind) + attempt >= 65536 ==> action->AddMapping_external_port
            == setup.port_of(kind) + attempt - 65536,
{
}

/// A port that was mapped is noted, not yet as seen in the router, after those before it; the web
/// interface comes first, then the tracker, then the crawler if it has a port, and then the list of the
/// router is asked for to check.
pub proof fn law_mapped_port_is_noted(
    before: NatManager,
    setup: NatSetup,
    after: NatManager,
    next: NatSetup,
    kind: PortKind,
    attempt: u16,
)
    requires
        setup.wf(before),
        replied(before, setup, NatReply::PortMapped, after, next),
        setup.stage == Stage::Mapping(kind, attempt),
    ensures
        ({
            let m = after.mappings@.last();
            &&& after.mappings@ == before.mappings@.push(m)
            &&& m.internal_port == setup.port_of(kind)
            &&& m.external_port == (setup.port_of(kind) + attempt) % 65536
            &&& m.protocol@ == kind.protocol().label()
            &&& m.description@ == kind.description()
            &&& !m.verified
            &&& next.mapped == setup.mapped + 1
        }),
        kind == PortKind::Http ==> (next.stage matches Stage::Mapping(k, n) && k
            == PortKind::UdpTracker && (setup.udp_port != 0 ==> n == 0)),
        kind == PortKind::UdpTracker && setup.crawler_port > 0 ==> next.stage == Stage::Mapping(
            PortKind::Crawler,
            0,
        ),
        kind == PortKind::UdpTracker && setup.crawler_port == 0 ==> next.stage == Stage::Verifying,
        kind == PortKind::Crawler ==> next.stage == Stage::Verifying,
{
    assert(after.mappings@ =~= before.mappings@.push(after.mappings@.last()));
}

/// A number that is in use is followed by the next attempt with the same port, ten of them at most, or
/// eleven numbers where zero is passed over; nothing else changes as long as there is one.
pub proof fn law_number_in_use_is_followed_by_the_next(
    before: NatManager,
    setup: NatSetup,
    after: NatManager,
    next: NatSetup,
    kind: PortKind,
    attempt: u16,
)
    requires
        setup.wf(before),
        replied(before, setup, NatReply::PortInUse, after, next),
        setup.stage == Stage::Mapping(kind, attempt),
    ensures
        after.mappings@ == before.mappings@,
        next.mapped == setup.mapped,
        attempt < 9 && (setup.port_of(kind) + attempt + 1) % 65536 != 0 ==> after == before
            && next.stage == Stage::Mapping(kind, (attempt + 1) as u16),
        attempt < 8 && (setup.port_of(kind) + attempt + 1) % 65536 == 0 ==> after == before
            && next.stage == Stage::Mapping(kind, (attempt + 2) as u16),
        attempt == 9 ==> next.stage == stage_after(setup, kind),
{
    reveal_with_fuel(next_attempt, 3);
}

/// A router that refuses a port, or does not answer, costs that port alone: the setup goes on with the
/// next one and says why it failed, unless it was that of the crawler.
pub proof fn law_refused_port_is_given_up(
    before: NatManager,
    setup: NatSetup,
    reply: NatReply,
    after: NatManager,
    next: NatSetup,
    kind: PortKind,
    attempt: u16,
)
    requires
        replied(before, setup, reply, after, next),
        setup.stage == Stage::Mapping(kind, attempt),
        reply is PortFailed || reply is PortAborted,
    ensures
        after.mappings@ == before.mappings@,
        next.mapped == setup.mapped,
        kind == PortKind::Http ==> (next.stage matches Stage::Mapping(k, _) && k
            == PortKind::UdpTracker),
        kind == PortKind::Crawler ==> next.stage == Stage::Verifying && text_of(after.last_error)
            == text_of(before.last_error),
        kind != PortKind::Crawler ==> after.last_error is Some,
{
}

/// After the check a mapping counts as seen if and only if the router lists it, switched on, with the
/// same protocol and both ports.
pub proof fn law_check_looks_for_each_mapping(
    before: NatManager,
    setup: NatSetup,
    list: Vec<RouterMapping>,
    after: NatManager,
    next: NatSetup,
    i: int,
)
    requires
        replied(before, setup, NatReply::Mappings(list), after, next),
        setup.stage == Stage::Verifying,
        0 <= i < before.mappings@.len(),
        before.mappings@[i].protocol@ == "TCP"@ || before.mappings@[i].protocol@ == "UDP"@,
    ensures
        after.mappings@.len() == before.mappings@.len(),
        after.mappings@[i].internal_port == before.mappings@[i].internal_port,
        after.mappings@[i].external_port == before.mappings@[i].external_port,
        after.mappings@[i].protocol == before.mappings@[i].protocol,
        after.mappings@[i].verified <==> exists|k: int|
            0 <= k < list@.len() && (#[trigger] list@[k]).enabled && list@[k].external_port
                == before.mappings@[i].external_port && list@[k].internal_port
                == before.mappings@[i].internal_port && list@[k].protocol == if before.mappings@[i].protocol@
                == "TCP"@ {
                Protocol::Tcp
            } else {
                Protocol::Udp
            },
        next.stage == Stage::Done,
{
    law_kinds_of_ports(setup);
    reveal_strlit("TCP");
    reveal_strlit("UDP");
    assert("TCP"@[0] == 'T' && "UDP"@[0] == 'U');
}

/// Old mappings of this program, which its mark tells, are removed before new ones are asked for.
pub proof fn law_old_mappings_are_removed(
    before: NatManager,
    setup: NatSetup,
    list: Vec<RouterMapping>,
    after: NatManager,
    next: NatSetup,
    i: int,
)
    requires
        replied(before, setup, NatReply::Mappings(list), after, next),
        setup.stage == Stage::ListingOld,
        0 <= i < list@.len(),
    ensures
        occurs(list@[i].description@, "PDC"@) ==> next.stale@.contains(
            (list@[i].protocol, list@[i].external_port),
        ) && next.stage == Stage::RemovingOld(0),
{
    let ours = list@.filter(is_ours());
    if occurs(list@[i].description@, "PDC"@) {
        assert(is_ours()(list@[i]));
        list@.lemma_filter_contains(is_ours(), i);
        let k = choose|k: int| 0 <= k < ours.len() && ours[k] == list@[i];
        assert(next.stale@[k] == (list@[i].protocol, list@[i].external_port));
    }
}

/// No mapping is removed but those of this program.
pub proof fn law_other_mappings_are_left_alone(
    before: NatManager,
    setup: NatSetup,
    list: Vec<RouterMapping>,
    after: NatManager,
    next: NatSetup,
    k: int,
)
    requires
        replied(before, setup, NatReply::Mappings(list), after, next),
        setup.stage == Stage::ListingOld,
        0 <= k < next.stale@.len(),
    ensures
        exists|j: int|
            0 <= j < list@.len() && occurs((#[trigger] list@[j]).description@, "PDC"@)
                && next.stale@[k] == (list@[j].protocol, list@[j].external_port),
{
    let ours = list@.filter(is_ours());
    list@.lemma_filter_pred(is_ours(), k);
    assert(ours.contains(ours[k]));
    list@.lemma_filter_contains_rev(is_ours(), ours[k]);
    let j = choose|j: int| 0 <= j < list@.len() && list@[j] == ours[k];
    assert(occurs(list@[j].description@, "PDC"@));
    assert(next.stale@[k] == (list@[j].protocol, list@[j].external_port));
}

/// Every mapping with a known protocol is renewed, and in the end removed.
pub proof fn law_all_mappings_are_renewed(list: Seq<NatMapping>, i: int)
    requires
        0 <= i < list.len(),
    ensures
        list[i].protocol@ == "TCP"@ ==> with_protocols(list).contains((Protocol::Tcp, list[i])),
        list[i].protocol@ == "UDP"@ ==> with_protocols(list).contains((Protocol::Udp, list[i])),
        with_protocols(list).len() <= list.len(),
    decreases list.len(),
{
    reveal_strlit("TCP");
    reveal_strlit("UDP");
    assert("TCP"@[0] == 'T' && "UDP"@[0] == 'U');
    let rest = with_protocols(list.drop_last());
    let all = with_protocols(list);
    if i < list.len() - 1 {
        law_all_mappings_are_renewed(list.drop_last(), i);
        assert(list.drop_last()[i] == list[i]);
        if list[i].protocol@ == "TCP"@ {
            let k = choose|k: int| 0 <= k < rest.len() && rest[k] == (Protocol::Tcp, list[i]);
            assert(all[k] == rest[k]);
        }
        if list[i].protocol@ == "UDP"@ {
            let k = choose|k: int| 0 <= k < rest.len() && rest[k] == (Protocol::Udp, list[i]);
            assert(all[k] == rest[k]);
        }
    } else {
        if list.len() > 1 {
            law_all_mappings_are_renewed(list.drop_last(), 0);
        }
        if Protocol::named(list[i].protocol@) is Some {
            assert(all[all.len() - 1] == (Protocol::named(list[i].protocol@)->0, list[i]));
        }
    }
}

/// The setup ends well if and only if it was not wanted or some port was mapped.
pub proof fn law_how_the_setup_ends(manager: NatManager, setup: NatSetup, action: NatAction)
    requires
        asks_for(manager, setup, action),
    ensures
        setup.stage == Stage::Skipped ==> action == NatAction::Finish(Ok(())),
        setup.stage == Stage::Done && setup.mapped > 0 ==> action == NatAction::Finish(Ok(())),
        setup.stage == Stage::Done && setup.mapped == 0 ==> action is Finish && action->Finish_0 is Err,
        setup.stage == Stage::NoGateway ==> action is Finish && action->Finish_0 is Err,
{
}

/// The setup changes neither the settings nor the ports that are to be mapped.
pub proof fn law_setup_leaves_the_settings_alone(
    before: NatManager,
    setup: NatSetup,
    reply: NatReply,
    after: NatManager,
    next: NatSetup,
)
    requires
        replied(before, setup, reply, after, next),
    ensures
        after.enabled == before.enabled,
        after.lease_duration == before.lease_duration,
        after.local_ip == before.local_ip,
        next.http_port == setup.http_port,
        next.udp_port == setup.udp_port,
        next.crawler_port == setup.crawler_port,
        setup.stage == Stage::SearchingGateway && reply is Gateway ==> next.stage
            == Stage::AskingAddress && after.gateway_addr == Some(reply->Gateway_0),
        setup.stage == Stage::SearchingGateway && (reply is NoGateway || reply is SearchAborted)
            ==> next.stage == Stage::NoGateway && after.last_error is Some,
        setup.stage == Stage::AskingAddress && reply is ExternalAddress ==> next.stage
            == Stage::ListingOld && after.external_ip == Some(reply->ExternalAddress_0),
        setup.stage == Stage::AskingAddress && reply is NoExternalAddress ==> next.stage
            == Stage::ListingOld && after.external_ip == before.external_ip,
        !fits(setup.stage, reply) ==> after == before && next == setup,
{
}

/// The mappings that are to be removed are removed one after the other, and then the port of the web
/// interface is mapped.
pub proof fn law_removals_follow_one_another(
    before: NatManager,
    setup: NatSetup,
    after: NatManager,
    next: NatSetup,
    action: NatAction,
    at: usize,
)
    requires
        replied(before, setup, NatReply::Removed, after, next),
        asks_for(before, setup, action),
        setup.stage == Stage::RemovingOld(at),
        at < setup.stale@.len() < usize::MAX,
    ensures
        action is RemoveMapping,
        action->RemoveMapping_protocol == setup.stale@[at as int].0,
        action->RemoveMapping_external_port == setup.stale@[at as int].1,
        at + 1 < setup.stale@.len() ==> next.stage == Stage::RemovingOld((at + 1) as usize),
        at + 1 >= setup.stale@.len() ==> (next.stage matches Stage::Mapping(k, _) && k
            == PortKind::Http),
        next.stale == setup.stale,
{
}

} // verus!
