//! Access policy: which caller addresses may use the service.

use vstd::prelude::*;
use crate::state::AppState;

verus! {

/// An internet address, held as the number its bytes spell in network order.
#[derive(Clone, Copy, Debug, PartialEq, Eq, Structural)]
pub enum IpAddress {
    V4(u32),
    V6(u128),
}

impl IpAddress {
    /// Loopback addresses: `127.0.0.0/8` for version 4, `::1` for version 6.
    pub open spec fn spec_is_loopback(self) -> bool {
        match self {
            IpAddress::V4(bits) => 0x7f00_0000 <= bits <= 0x7fff_ffff,
            IpAddress::V6(bits) => bits == 1,
        }
    }

    #[verifier::when_used_as_spec(spec_is_loopback)]
    pub fn is_loopback(self) -> (loopback: bool)
        ensures
            loopback == self.spec_is_loopback(),
    {
        match self {
            IpAddress::V4(bits) => 0x7f00_0000 <= bits && bits <= 0x7fff_ffff,
            IpAddress::V6(bits) => bits == 1,
        }
    }
}


/// Whether `caller` may use the service whatever the server's own address
/// is: the allowlist is empty, or names the caller, or the caller is a
/// loopback address.
pub open spec fn allowed_outright(allowlist: Seq<IpAddress>, caller: IpAddress) -> bool {
    allowlist.len() == 0 || allowlist.contains(caller) || caller.spec_is_loopback()
}

/// Whether `caller` may use the service: it is allowed outright, or it is
/// the address of the server itself. Addresses match only if they are equal.
pub open spec fn authorized(allowlist: Seq<IpAddress>, caller: IpAddress, server: IpAddress) -> bool {
    allowed_outright(allowlist, caller) || caller == server
}

/// Whether `ip` may connect without a look at the server's own address.
pub fn ip_allowed_outright(state: &AppState, ip: &IpAddress) -> (allowed: bool)
    ensures
        allowed == allowed_outright(state.whitelisted_ips@, *ip),
{
    if state.whitelisted_ips.len() == 0 || ip.is_loopback() {
        return true;
    }
    let mut i: usize = 0;
    while i < state.whitelisted_ips.len()
        invariant
            i <= state.whitelisted_ips@.len(),
            forall|j: int| 0 <= j < i ==> state.whitelisted_ips@[j] != *ip,
        decreases state.whitelisted_ips@.len() - i,
    {
        if state.whitelisted_ips[i] == *ip {
            return true;
        }
        i += 1;
    }
    false
}

/// Whether `ip` may connect to the server whose own address is `server_ip`.
pub fn ip_authorized(state: &AppState, ip: &IpAddress, server_ip: &IpAddress) -> (allowed: bool)
    ensures
        allowed == authorized(state.whitelisted_ips@, *ip, *server_ip),
{
    ip_allowed_outright(state, ip) || *ip == *server_ip
}

} // verus!
