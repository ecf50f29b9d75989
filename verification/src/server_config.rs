//! Address on which the web server listens.

use crate::number::{parse_integer, parse_u16};
use vstd::prelude::*;

verus! {

/// The listening address: an IPv4 host and a TCP port.
pub struct ServerConfig {
    pub host: [u8; 4],
    pub port: u16,
}

/// The port used when `PORT` is not set.
pub open spec fn port_from(port_var: Option<String>) -> Option<int> {
    match port_var {
        Some(p) => parse_integer(p@, 0, u16::MAX as int),
        None => Some(8080),
    }
}

impl ServerConfig {
    /// The address from the value of `PORT` (`None` when it is not set):
    /// all interfaces, on that port or 8080. The value must be a valid port
    /// number.
    pub fn from_env(port_var: Option<String>) -> (r: ServerConfig)
        requires
            port_from(port_var) is Some,
        ensures
            r.host@ == seq![0u8, 0u8, 0u8, 0u8],
            r.port == port_from(port_var)->0,
    {
        let port = match port_var {
            Some(p) => match parse_u16(p.as_str()) {
                Some(v) => v,
                None => 8080,
            },
            None => 8080,
        };
        let r = ServerConfig { host: [0, 0, 0, 0], port };
        assert(r.host@ =~= seq![0u8, 0u8, 0u8, 0u8]);
        r
    }
}

} // verus!
