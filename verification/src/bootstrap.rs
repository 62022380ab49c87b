//! What is settled before the service starts.
//!
//! The files are the caller's, who says what was found in them.

use crate::clock::{unix_nanos, utc_text, utc_text_of};
use crate::config::PdcConfig;
use crate::random::{is_random_uuid, random_uuid};
use crate::text::{join_path, joined};
use vstd::prelude::*;

verus! {

/// What a node is known by.
#[derive(Debug)]
pub struct NodeIdentity {
    pub node_id: u128,
    pub created_at: String,
}

impl NodeIdentity {
    /// A new identity, made at the time that the text stands for.
    pub fn made_at(created_at: String) -> (r: NodeIdentity)
        ensures
            is_random_uuid(r.node_id),
            r.created_at == created_at,
    {
        NodeIdentity { node_id: random_uuid(), created_at }
    }

    /// A new identity.
    pub fn new() -> (r: NodeIdentity)
        ensures
            is_random_uuid(r.node_id),
            exists|now: u64| r.created_at@ == #[trigger] utc_text_of(now),
    {
        Self::made_at(utc_text(unix_nanos()))
    }
}

impl Default for NodeIdentity {
    fn default() -> (r: NodeIdentity)
        ensures
            is_random_uuid(r.node_id),
            exists|now: u64| r.created_at@ == #[trigger] utc_text_of(now),
    {
        Self::new()
    }
}

/// The directories and files of a node.
#[derive(Debug)]
pub struct WorkDirs {
    pub root: String,
    pub config: String,
    pub data: String,
    pub config_file: String,
    pub node_id_file: String,
    pub history_file: String,
}

impl WorkDirs {
    /// The directories and files below a directory.
    pub fn new(root: &str) -> (r: WorkDirs)
        ensures
            r.root@ == root@,
            r.config@ == joined(root@, "config"@),
            r.data@ == joined(root@, "data"@),
            r.config_file@ == joined(joined(root@, "config"@), "config.yaml"@),
            r.node_id_file@ == joined(joined(root@, "data"@), "node-id.json"@),
            r.history_file@ == joined(joined(root@, "data"@), "discovery-history.jsonl"@),
    {
        let config: String = join_path(root, "config");
        let data: String = join_path(root, "data");
        let config_file: String = join_path(config.as_str(), "config.yaml");
        let node_id_file: String = join_path(data.as_str(), "node-id.json");
        let history_file: String = join_path(data.as_str(), "discovery-history.jsonl");
        WorkDirs { root: root.to_string(), config, data, config_file, node_id_file, history_file }
    }
}

/// What was found in a file.
pub enum Stored<T> {
    /// There is no such file.
    Missing,
    /// The file says nothing that makes sense.
    Unreadable,
    Found(T),
}

/// Whether something is to be written to its file.
#[derive(Debug, Clone, Copy, PartialEq, Eq, Structural)]
pub enum Saving {
    /// It stands there already.
    Unneeded,
    /// It does no harm if that fails.
    Wanted,
    /// Without it there is no start.
    Needed,
}

/// The identity of the node: the one in the file, or a new one. A file that makes no sense is replaced
/// if possible.
pub fn settle_identity(stored: Stored<NodeIdentity>) -> (r: (NodeIdentity, Saving))
    ensures
        match stored {
            Stored::Found(id) => r.0 == id && r.1 == Saving::Unneeded,
            Stored::Unreadable => is_random_uuid(r.0.node_id) && r.1 == Saving::Wanted,
            Stored::Missing => is_random_uuid(r.0.node_id) && r.1 == Saving::Needed,
        },
{
    match stored {
        Stored::Found(id) => (id, Saving::Unneeded),
        Stored::Unreadable => (NodeIdentity::new(), Saving::Wanted),
        Stored::Missing => (NodeIdentity::new(), Saving::Needed),
    }
}

/// The configuration of the node: the one in the file, or the usual one if there is no file. With a
/// file that makes no sense there is no start.
pub fn settle_config(stored: Stored<PdcConfig>) -> (r: Option<(PdcConfig, Saving)>)
    ensures
        match stored {
            Stored::Found(c) => r matches Some(s) && s.0 == c && s.1 == Saving::Unneeded,
            Stored::Unreadable => r is None,
            Stored::Missing => r matches Some(s) && s.0.is_default() && s.1 == Saving::Needed,
        },
{
    match stored {
        Stored::Found(c) => Some((c, Saving::Unneeded)),
        Stored::Unreadable => None,
        Stored::Missing => Some((PdcConfig::default_config(), Saving::Needed)),
    }
}

/// The name of the host, as the environment has it under one of two names.
pub fn hostname_of(hostname: Option<String>, computer_name: Option<String>) -> (r: String)
    ensures
        r@ == match hostname {
            Some(h) => h@,
            None => match computer_name {
                Some(c) => c@,
                None => "pdc-node"@,
            },
        },
{
    match hostname {
        Some(h) => h,
        None => match computer_name {
            Some(c) => c,
            None => "pdc-node".to_string(),
        },
    }
}

} // verus!
