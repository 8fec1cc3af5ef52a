//! What `tailscale status --json` reports, and what the tracker reads from it:
//! whether Tailscale runs, this device's address and the online peers.

use vstd::prelude::*;
use crate::error::TrackerError;
use crate::sorting::{Named, sort_by_name, sorted_by_name, views};
use crate::text::{decimal, owned, push_char, push_decimal, trim_end_by, trim_end_matching};

verus! {

/// An IPv4 address, by its four octets.
#[derive(Clone, Copy, Debug, PartialEq, Eq, Structural)]
pub struct Ipv4Address(pub u8, pub u8, pub u8, pub u8);

/// An address that Tailscale reports for a node.
#[derive(Clone, Copy, Debug, PartialEq, Eq, Structural)]
pub enum IpAddress {
    V4(Ipv4Address),
    /// An IPv6 address, as its 128 bits.
    V6(u128),
}

/// The dotted-decimal text of an IPv4 address.
pub open spec fn dotted(ip: Ipv4Address) -> Seq<char> {
    decimal(ip.0 as nat) + seq!['.'] + decimal(ip.1 as nat) + seq!['.'] + decimal(ip.2 as nat) + seq!['.']
        + decimal(ip.3 as nat)
}

/// Appends the dotted-decimal text of an IPv4 address.
pub fn push_dotted(s: &mut String, ip: Ipv4Address)
    ensures
        final(s)@ == old(s)@ + dotted(ip),
{
    push_decimal(s, ip.0 as u64);
    push_char(s, '.');
    push_decimal(s, ip.1 as u64);
    push_char(s, '.');
    push_decimal(s, ip.2 as u64);
    push_char(s, '.');
    push_decimal(s, ip.3 as u64);
    assert(s@ =~= old(s)@ + dotted(ip));
}

/// A device of the tailnet as Tailscale describes it.
pub struct TailscaleNode {
    pub dns_name: String,
    pub host_name: String,
    pub tailscale_ips: Vec<IpAddress>,
    pub online: bool,
}

/// Tailscale's report on the local device and its peers (in the order in
/// which they were read; Tailscale keys them by node, and the key is not used).
pub struct TailscaleStatus {
    pub backend_state: String,
    pub self_node: TailscaleNode,
    pub peers: Vec<TailscaleNode>,
}

/// An online tailnet device that can be probed for a sync server.
pub struct TailscalePeer {
    pub name: String,
    pub ip: Ipv4Address,
}

impl View for TailscalePeer {
    type V = (Seq<char>, Ipv4Address);

    open spec fn view(&self) -> (Seq<char>, Ipv4Address) {
        (self.name@, self.ip)
    }
}

impl Named for TailscalePeer {
    open spec fn name_view(&self) -> Seq<char> {
        self.name@
    }

    fn name_text(&self) -> (res: &str) {
        self.name.as_str()
    }
}

/// The first IPv4 address in a list of addresses.
pub open spec fn first_ipv4(ips: Seq<IpAddress>) -> Option<Ipv4Address>
    decreases ips.len(),
{
    if ips.len() == 0 {
        None
    } else {
        match ips[0] {
            IpAddress::V4(ip) => Some(ip),
            IpAddress::V6(_) => first_ipv4(ips.drop_first()),
        }
    }
}

/// The name under which a node is listed: its host name, else its DNS name
/// without trailing dots, else its IPv4 address, else "unknown device".
pub open spec fn display_name_spec(node: TailscaleNode) -> Seq<char> {
    if node.host_name@.len() > 0 {
        node.host_name@
    } else if node.dns_name@.len() > 0 {
        trim_end_by(node.dns_name@, |c: char| c == '.')
    } else {
        match first_ipv4(node.tailscale_ips@) {
            Some(ip) => dotted(ip),
            None => "unknown device"@,
        }
    }
}

/// The online nodes that have an IPv4 address, as (name, address), in the
/// order given.
pub open spec fn peer_candidates(nodes: Seq<TailscaleNode>) -> Seq<(Seq<char>, Ipv4Address)>
    decreases nodes.len(),
{
    if nodes.len() == 0 {
        Seq::empty()
    } else {
        let rest = peer_candidates(nodes.drop_last());
        let node = nodes.last();
        if node.online && first_ipv4(node.tailscale_ips@) is Some {
            rest.push((display_name_spec(node), first_ipv4(node.tailscale_ips@)->Some_0))
        } else {
            rest
        }
    }
}

impl TailscaleNode {
    /// The node's first IPv4 address, if it has one.
    pub fn ipv4(&self) -> (res: Option<Ipv4Address>)
        ensures
            res == first_ipv4(self.tailscale_ips@),
    {
        let mut i: usize = 0;
        assert(self.tailscale_ips@.skip(0) =~= self.tailscale_ips@);
        while i < self.tailscale_ips.len()
            invariant
                i <= self.tailscale_ips.len(),
                first_ipv4(self.tailscale_ips@) == first_ipv4(self.tailscale_ips@.skip(i as int)),
            decreases self.tailscale_ips.len() - i,
        {
            let ghost rest = self.tailscale_ips@.skip(i as int);
            match self.tailscale_ips[i] {
                IpAddress::V4(ip) => {
                    return Some(ip);
                },
                IpAddress::V6(_) => {
                    assert(rest.drop_first() =~= self.tailscale_ips@.skip(i + 1));
                },
            }
            i = i + 1;
        }
        None
    }

    /// The name under which the node is listed.
    pub fn display_name(&self) -> (res: String)
        ensures
            res@ == display_name_spec(*self),
    {
        if self.host_name.as_str().unicode_len() > 0 {
            self.host_name.clone()
        } else if self.dns_name.as_str().unicode_len() > 0 {
            owned(trim_end_matching(self.dns_name.as_str(), '.'))
        } else {
            match self.ipv4() {
                Some(ip) => {
                    let mut s = String::new();
                    push_dotted(&mut s, ip);
                    assert(s@ =~= dotted(ip));
                    s
                },
                None => owned("unknown device"),
            }
        }
    }
}

impl TailscaleStatus {
    /// Refused unless Tailscale's backend reports `Running`.
    pub fn ensure_running(&self) -> (res: Result<(), TrackerError>)
        ensures
            res is Ok <==> self.backend_state@ == "Running"@,
            res matches Err(e) ==> e matches TrackerError::TailscaleNotRunning { state } && state@ == self.backend_state@,
    {
        let running = owned("Running");
        if self.backend_state == running {
            Ok(())
        } else {
            Err(TrackerError::TailscaleNotRunning { state: self.backend_state.clone() })
        }
    }

    /// This device's Tailscale IPv4 address.
    pub fn local_ipv4(&self) -> (res: Result<Ipv4Address, TrackerError>)
        ensures
            res is Ok <==> first_ipv4(self.self_node.tailscale_ips@) is Some,
            res matches Ok(ip) ==> first_ipv4(self.self_node.tailscale_ips@) == Some(ip),
            res matches Err(e) ==> e is NoTailscaleIpv4,
    {
        match self.self_node.ipv4() {
            Some(ip) => Ok(ip),
            None => Err(TrackerError::NoTailscaleIpv4),
        }
    }

    /// The online peers that have an IPv4 address, listed by name.
    pub fn online_peers(&self) -> (res: Vec<TailscalePeer>)
        ensures
            sorted_by_name(res@),
            views(res@).to_multiset() == peer_candidates(self.peers@).to_multiset(),
    {
        let mut found: Vec<TailscalePeer> = Vec::new();
        let mut i: usize = 0;
        while i < self.peers.len()
            invariant
                i <= self.peers.len(),
                views(found@) == peer_candidates(self.peers@.take(i as int)),
            decreases self.peers.len() - i,
        {
            let node = &self.peers[i];
            assert(self.peers@.take(i + 1).drop_last() =~= self.peers@.take(i as int));
            if node.online {
                let name = node.display_name();
                match node.ipv4() {
                    Some(ip) => {
                        found.push(TailscalePeer { name, ip });
                    },
                    None => {},
                }
            }
            assert(views(found@) =~= peer_candidates(self.peers@.take(i + 1)));
            i = i + 1;
        }
        assert(self.peers@.take(self.peers.len() as int) =~= self.peers@);
        sort_by_name(found)
    }
}

} // verus!
