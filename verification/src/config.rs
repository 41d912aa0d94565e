//! Node configuration: defaults, and the rule that command-line flags
//! override what the config file supplied.

use crate::woody::Level;
use vstd::prelude::*;

verus! {

/// What a node needs to start: identity, bind address, peer lists and
/// logging threshold.
#[derive(Debug)]
pub struct NodeConfig {
    pub node_id: String,
    pub ip: String,
    pub port: u16,
    pub downstreams: Vec<String>,
    pub upstreams: Vec<String>,
    pub log_level: Level,
}

impl NodeConfig {
    /// The configuration a node starts from when no file is given: loopback,
    /// port 9999, no peers, info-level logging, and the supplied identity.
    pub fn default_with_id(node_id: String) -> (c: NodeConfig)
        ensures
            c.node_id@ == node_id@,
            c.ip@ == "127.0.0.1"@,
            c.port == 9999,
            c.downstreams@.len() == 0,
            c.upstreams@.len() == 0,
            c.log_level == Level::Info,
    {
        NodeConfig {
            node_id,
            ip: "127.0.0.1".to_owned(),
            port: 9999,
            downstreams: Vec::new(),
            upstreams: Vec::new(),
            log_level: Level::Info,
        }
    }

    /// Each field a flag was given for takes the flag's value; the rest keep
    /// what the base configuration held.
    pub fn apply_overrides(
        self,
        node_id: Option<String>,
        ip: Option<String>,
        port: Option<u16>,
        downstreams: Option<Vec<String>>,
        upstreams: Option<Vec<String>>,
        log_level: Option<Level>,
    ) -> (c: NodeConfig)
        ensures
            c.node_id == (if node_id is Some {
                node_id->0
            } else {
                self.node_id
            }),
            c.ip == (if ip is Some {
                ip->0
            } else {
                self.ip
            }),
            c.port == (if port is Some {
                port->0
            } else {
                self.port
            }),
            c.downstreams == (if downstreams is Some {
                downstreams->0
            } else {
                self.downstreams
            }),
            c.upstreams == (if upstreams is Some {
                upstreams->0
            } else {
                self.upstreams
            }),
            c.log_level == (if log_level is Some {
                log_level->0
            } else {
                self.log_level
            }),
    {
        let mut c = self;
        if let Some(v) = node_id {
            c.node_id = v;
        }
        if let Some(v) = ip {
            c.ip = v;
        }
        if let Some(v) = port {
            c.port = v;
        }
        if let Some(v) = downstreams {
            c.downstreams = v;
        }
        if let Some(v) = upstreams {
            c.upstreams = v;
        }
        if let Some(v) = log_level {
            c.log_level = v;
        }
        c
    }
}

} // verus!
