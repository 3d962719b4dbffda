//! The configuration a full node starts from, and where it binds.

use vstd::prelude::*;

verus! {

/// An IP address, version 4 or 6, by its octets.
#[derive(Clone, Copy, Debug)]
pub enum IpAddress {
    V4([u8; 4]),
    V6([u8; 16]),
}

/// An IP address and a port.
#[derive(Clone, Copy, Debug)]
pub struct SocketAddress {
    pub ip: IpAddress,
    pub port: u16,
}

/// A full node's configuration.
#[derive(Clone, Debug, PartialEq)]
pub struct Config {
    /// Bind to port or address
    pub bind_port_or_address: Option<String>,
    /// Detect public network address using public servers
    pub use_public_address: bool,
    /// Detect network address from local machine configuration
    pub use_local_address: bool,
    /// Fullnode identity
    pub identity_pkcs8: Vec<u8>,
}

impl Config {
    /// The IP address the node binds to, given the address named by
    /// `bind_port_or_address` and the addresses found on the local machine and
    /// through public servers: the public one when asked for, else the local one
    /// when asked for, else the one named.
    pub open spec fn bind_ip(&self, named: IpAddress, local_ip: Option<IpAddress>, public_ip: Option<IpAddress>) -> IpAddress {
        if self.use_public_address {
            public_ip->0
        } else if self.use_local_address {
            local_ip->0
        } else {
            named
        }
    }

    /// The address the node binds to: `named` is the address that
    /// `bind_port_or_address` names (with the default port when it names
    /// none); `local_ip` and `public_ip` are the addresses detected on the
    /// local machine and through public servers, which must have been found
    /// when the configuration asks for them. The port is always the named one.
    pub fn bind_addr(
        &self,
        named: SocketAddress,
        local_ip: Option<IpAddress>,
        public_ip: Option<IpAddress>,
    ) -> (addr: SocketAddress)
        requires
            self.use_local_address ==> local_ip is Some,
            self.use_public_address ==> public_ip is Some,
        ensures
            addr.port == named.port,
            addr.ip == self.bind_ip(named.ip, local_ip, public_ip),
            self.use_public_address ==> addr.ip == public_ip->0,
            !self.use_public_address && self.use_local_address ==> addr.ip == local_ip->0,
            !self.use_public_address && !self.use_local_address ==> addr.ip == named.ip,
    {
        let mut bind_addr = named;
        if self.use_local_address {
            if let Some(ip) = local_ip {
                bind_addr.ip = ip;
            }
        }
        if self.use_public_address {
            if let Some(ip) = public_ip {
                bind_addr.ip = ip;
            }
        }
        bind_addr
    }
}


/// The public address wins whenever it is asked for, whatever the local
/// setting; otherwise the local address when asked for; otherwise the named one.
pub proof fn lemma_bind_ip_choice(
    config: Config,
    named: IpAddress,
    local_ip: Option<IpAddress>,
    public_ip: Option<IpAddress>,
)
    ensures
        config.use_public_address ==> config.bind_ip(named, local_ip, public_ip) == public_ip->0,
        !config.use_public_address && config.use_local_address ==> config.bind_ip(
            named,
            local_ip,
            public_ip,
        ) == local_ip->0,
        !config.use_public_address && !config.use_local_address ==> config.bind_ip(
            named,
            local_ip,
            public_ip,
        ) == named,
{
}

} // verus!
