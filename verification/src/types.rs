//! Addresses, identifiers, nodes and peers.

use vstd::prelude::*;
use vstd::string::*;
use crate::hexcode::{hex_decode, unhex};
use crate::text::{dec_text, push_dec};

verus! {

/// How the node takes part in the network.
#[derive(Clone, Copy, Debug, PartialEq, Eq, Structural)]
pub enum Mode {
    /// Answers every query and stores what is announced.
    Standard,
    /// Collects what others ask for and announce.
    Crawl,
}

/// Why a request to the node was refused.
#[derive(Clone, Copy, Debug, PartialEq, Eq, Structural)]
pub enum DhtError {
    NotReady,
    GetPeersResponseNotSet,
    InvalidInfoHash,
}

/// A host address: the four numbers of an IPv4 address, or the text of an IPv6 address.
pub enum IpAddr {
    V4(u8, u8, u8, u8),
    V6(String),
}

/// What a host address stands for.
pub enum IpModel {
    V4(u8, u8, u8, u8),
    V6(Seq<char>),
}

impl View for IpAddr {
    type V = IpModel;

    open spec fn view(&self) -> IpModel {
        match self {
            IpAddr::V4(a, b, c, d) => IpModel::V4(*a, *b, *c, *d),
            IpAddr::V6(t) => IpModel::V6(t@),
        }
    }
}

/// The text of a host address.
pub open spec fn ip_text(ip: IpModel) -> Seq<char> {
    match ip {
        IpModel::V4(a, b, c, d) => dec_text(a as nat) + seq!['.'] + dec_text(b as nat) + seq!['.']
            + dec_text(c as nat) + seq!['.'] + dec_text(d as nat),
        IpModel::V6(t) => t,
    }
}

impl Clone for IpAddr {
    fn clone(&self) -> (r: Self)
        ensures
            r@ == self@,
    {
        match self {
            IpAddr::V4(a, b, c, d) => IpAddr::V4(*a, *b, *c, *d),
            IpAddr::V6(t) => IpAddr::V6(t.clone()),
        }
    }
}

impl IpAddr {
    /// The text of the address.
    pub fn text(&self) -> (r: String)
        ensures
            r@ == ip_text(self@),
    {
        match self {
            IpAddr::V4(a, b, c, d) => {
                let mut out = String::new();
                push_dec(&mut out, *a as u64);
                out.push('.');
                push_dec(&mut out, *b as u64);
                out.push('.');
                push_dec(&mut out, *c as u64);
                out.push('.');
                push_dec(&mut out, *d as u64);
                assert(out@ =~= ip_text(self@));
                out
            },
            IpAddr::V6(t) => t.clone(),
        }
    }

    /// Two host addresses are the same.
    pub fn same(&self, other: &IpAddr) -> (r: bool)
        ensures
            r == (self@ == other@),
    {
        match (self, other) {
            (IpAddr::V4(a, b, c, d), IpAddr::V4(e, f, g, h)) => {
                *a == *e && *b == *f && *c == *g && *d == *h
            },
            (IpAddr::V6(s), IpAddr::V6(t)) => *s == *t,
            _ => false,
        }
    }
}

/// A host address and a port.
pub struct SocketAddr {
    pub ip: IpAddr,
    pub port: u16,
}

/// What a socket address stands for.
pub struct AddrModel {
    pub ip: IpModel,
    pub port: u16,
}

impl View for SocketAddr {
    type V = AddrModel;

    open spec fn view(&self) -> AddrModel {
        AddrModel { ip: self.ip@, port: self.port }
    }
}

/// A host's text and a port, separated by a colon.
pub open spec fn host_port_text(ip: IpModel, port: u16) -> Seq<char> {
    ip_text(ip) + seq![':'] + dec_text(port as nat)
}

/// The text of a socket address; an IPv6 host stands in brackets.
pub open spec fn addr_text(a: AddrModel) -> Seq<char> {
    match a.ip {
        IpModel::V4(..) => host_port_text(a.ip, a.port),
        IpModel::V6(t) => seq!['['] + t + seq![']'] + seq![':'] + dec_text(a.port as nat),
    }
}

/// The text of a host and a port, separated by a colon.
pub fn host_port(ip: &IpAddr, port: u16) -> (r: String)
    ensures
        r@ == host_port_text(ip@, port),
{
    let mut out = ip.text();
    out.push(':');
    push_dec(&mut out, port as u64);
    assert(out@ =~= host_port_text(ip@, port));
    out
}

impl Clone for SocketAddr {
    fn clone(&self) -> (r: Self)
        ensures
            r@ == self@,
    {
        SocketAddr { ip: self.ip.clone(), port: self.port }
    }
}

impl SocketAddr {
    /// The text of the address.
    pub fn text(&self) -> (r: String)
        ensures
            r@ == addr_text(self@),
    {
        match &self.ip {
            IpAddr::V4(..) => host_port(&self.ip, self.port),
            IpAddr::V6(t) => {
                let mut out = String::new();
                out.push('[');
                out.append(t.as_str());
                out.push(']');
                out.push(':');
                push_dec(&mut out, self.port as u64);
                assert(out@ =~= addr_text(self@));
                out
            },
        }
    }

    /// Two socket addresses are the same.
    pub fn same(&self, other: &SocketAddr) -> (r: bool)
        ensures
            r == (self@ == other@),
    {
        self.ip.same(&other.ip) && self.port == other.port
    }
}

/// A peer of a torrent, with the token under which it announced itself.
pub struct Peer {
    pub ip: IpAddr,
    pub port: u16,
    pub token: Option<String>,
}

/// What a peer stands for.
pub struct PeerModel {
    pub ip: IpModel,
    pub port: u16,
    pub token: Option<Seq<char>>,
}

/// What an optional text stands for.
pub open spec fn opt_text(s: Option<String>) -> Option<Seq<char>> {
    match s {
        Some(t) => Some(t@),
        None => None,
    }
}

/// What an optional identifier stands for.
pub open spec fn opt_id(id: Option<[u8; 20]>) -> Option<Seq<u8>> {
    match id {
        Some(i) => Some(i@),
        None => None,
    }
}

impl View for Peer {
    type V = PeerModel;

    open spec fn view(&self) -> PeerModel {
        PeerModel { ip: self.ip@, port: self.port, token: opt_text(self.token) }
    }
}

impl Clone for Peer {
    fn clone(&self) -> (r: Self)
        ensures
            r@ == self@,
    {
        let token = match &self.token {
            Some(t) => Some(t.clone()),
            None => None,
        };
        Peer { ip: self.ip.clone(), port: self.port, token }
    }
}

/// The identifier of a node.
pub struct NodeId(pub [u8; 20]);

/// A node of the network, and when it was last heard of.
pub struct Node {
    pub id: NodeId,
    pub addr: SocketAddr,
    pub last_active: u64,
}

/// What a node stands for.
pub struct NodeModel {
    pub id: Seq<u8>,
    pub addr: AddrModel,
    pub last_active: u64,
}

impl View for Node {
    type V = NodeModel;

    open spec fn view(&self) -> NodeModel {
        NodeModel { id: self.id.0@, addr: self.addr@, last_active: self.last_active }
    }
}

impl Clone for Node {
    fn clone(&self) -> (r: Self)
        ensures
            r@ == self@,
    {
        Node { id: NodeId(self.id.0), addr: self.addr.clone(), last_active: self.last_active }
    }
}

/// Copies twenty bytes.
pub fn to_id(b: &[u8]) -> (id: [u8; 20])
    requires
        b@.len() == 20,
    ensures
        id@ == b@,
{
    let mut id: [u8; 20] = [0u8; 20];
    let mut i: usize = 0;
    while i < 20
        invariant
            i <= 20,
            b@.len() == 20,
            forall|j: int| 0 <= j < i ==> id@[j] == b@[j],
        decreases 20 - i,
    {
        id[i] = b[i];
        i += 1;
    }
    assert(id@ =~= b@);
    id
}

/// The info-hash that a text of hexadecimal digits writes.
pub open spec fn info_hash_of(s: Seq<char>) -> Option<Seq<u8>> {
    match unhex(s) {
        Some(b) => if b.len() == 20 {
            Some(b)
        } else {
            None
        },
        None => None,
    }
}

/// Reads an info-hash from its forty hexadecimal digits.
pub fn decode_info_hash(s: &str) -> (r: Result<[u8; 20], DhtError>)
    ensures
        match r {
            Ok(id) => info_hash_of(s@) == Some(id@),
            Err(e) => info_hash_of(s@) is None && e == DhtError::InvalidInfoHash,
        },
{
    match hex_decode(s) {
        Some(b) => {
            if b.len() == 20 {
                Ok(to_id(b.as_slice()))
            } else {
                Err(DhtError::InvalidInfoHash)
            }
        },
        None => Err(DhtError::InvalidInfoHash),
    }
}

} // verus!
