//! Compact address formats and the bytes of transaction identifiers.

use vstd::prelude::*;
use vstd::slice::slice_subrange;
use crate::types::{to_id, AddrModel, IpAddr, IpModel};

verus! {

/// The bytes of a number, most significant first, without leading zero bytes.
pub open spec fn be_bytes(n: nat) -> Seq<u8>
    decreases n,
{
    if n < 256 {
        seq![n as u8]
    } else {
        be_bytes(n / 256).push((n % 256) as u8)
    }
}

/// Computes the bytes of a number, most significant first.
pub fn int2bytes(n: u64) -> (r: Vec<u8>)
    ensures
        r@ == be_bytes(n as nat),
    decreases n,
{
    if n < 256 {
        let mut r: Vec<u8> = Vec::new();
        r.push(n as u8);
        r
    } else {
        let mut r = int2bytes(n / 256);
        r.push((n % 256) as u8);
        r
    }
}

proof fn lemma_be_bytes_nonempty(n: nat)
    ensures
        be_bytes(n).len() >= 1,
        n >= 256 ==> be_bytes(n).len() >= 2,
    decreases n,
{
    if n >= 256 {
        lemma_be_bytes_nonempty(n / 256);
    }
}

/// Different numbers have different bytes.
pub proof fn law_be_bytes_injective(a: nat, b: nat)
    requires
        be_bytes(a) == be_bytes(b),
    ensures
        a == b,
    decreases a,
{
    lemma_be_bytes_nonempty(a);
    lemma_be_bytes_nonempty(b);
    assert(be_bytes(a).len() == be_bytes(b).len());
    if a < 256 {
        assert(be_bytes(a) =~= seq![a as u8]);
        assert(be_bytes(b) =~= seq![b as u8]);
        assert(be_bytes(a)[0] == a as u8 && be_bytes(b)[0] == b as u8);
    } else if b < 256 {
        assert(be_bytes(b) =~= seq![b as u8]);
    } else {
        assert(be_bytes(a).drop_last() =~= be_bytes(a / 256));
        assert(be_bytes(b).drop_last() =~= be_bytes(b / 256));
        assert(be_bytes(a).last() == be_bytes(b).last());
        law_be_bytes_injective(a / 256, b / 256);
        assert(be_bytes(a).last() == (a % 256) as u8);
        assert(be_bytes(b).last() == (b % 256) as u8);
        assert(a % 256 == b % 256);
    }
}

/// The number that bytes write, the most significant one first.
pub open spec fn be_number(b: Seq<u8>) -> nat
    decreases b.len(),
{
    if b.len() == 0 {
        0
    } else {
        be_number(b.drop_last()) * 256 + b.last() as nat
    }
}

/// The bytes of a number write this number, and the first one is no zero but where it is the only
/// one.
pub proof fn law_be_bytes_write_number(n: nat)
    ensures
        be_number(be_bytes(n)) == n,
        be_bytes(n).len() > 0,
        be_bytes(n).len() > 1 ==> be_bytes(n)[0] != 0,
    decreases n,
{
    let b = be_bytes(n);
    if n >= 256 {
        law_be_bytes_write_number(n / 256);
        assert(b.drop_last() =~= be_bytes(n / 256));
        assert(b[0] == be_bytes(n / 256)[0]);
        if be_bytes(n / 256).len() == 1 {
            let one = be_bytes(n / 256);
            assert(one.drop_last() =~= Seq::empty());
            assert(be_number(one.drop_last()) == 0);
        }
    } else {
        assert(b.drop_last() =~= Seq::empty());
        assert(be_number(b.drop_last()) == 0);
    }
}

/// A host and a port in six bytes; only an IPv4 host has this form.
pub open spec fn compact_addr(ip: IpModel, port: u16) -> Option<Seq<u8>> {
    match ip {
        IpModel::V4(a, b, c, d) => Some(
            seq![a, b, c, d, (port / 256) as u8, (port % 256) as u8],
        ),
        IpModel::V6(_) => None,
    }
}

/// The host that four bytes at `i` give.
pub open spec fn host_at(b: Seq<u8>, i: int) -> IpModel {
    IpModel::V4(b[i], b[i + 1], b[i + 2], b[i + 3])
}

/// The port that two bytes at `i` give.
pub open spec fn port_at(b: Seq<u8>, i: int) -> u16 {
    (b[i] * 256 + b[i + 1]) as u16
}

/// The addresses that a run of six-byte entries gives; a shorter rest is left out.
pub open spec fn compact_peers(b: Seq<u8>) -> Seq<(IpModel, u16)> {
    Seq::new(b.len() / 6, |i: int| (host_at(b, 6 * i), port_at(b, 6 * i + 4)))
}

/// The nodes that a run of twenty-six-byte entries gives; a shorter rest is left out.
pub open spec fn compact_nodes(b: Seq<u8>) -> Seq<(Seq<u8>, IpModel, u16)> {
    Seq::new(
        b.len() / 26,
        |i: int|
            (b.subrange(26 * i, 26 * i + 20), host_at(b, 26 * i + 20), port_at(b, 26 * i + 24)),
    )
}

/// What a list of hosts and ports stands for.
pub open spec fn peers_model(s: Seq<(IpAddr, u16)>) -> Seq<(IpModel, u16)> {
    Seq::new(s.len(), |i: int| (s[i].0@, s[i].1))
}

/// What a list of identified hosts stands for.
pub open spec fn found_model(s: Seq<([u8; 20], IpAddr, u16)>) -> Seq<(Seq<u8>, IpModel, u16)> {
    Seq::new(s.len(), |i: int| (s[i].0@, s[i].1@, s[i].2))
}

fn read_port(hi: u8, lo: u8) -> (p: u16)
    ensures
        p == hi * 256 + lo,
{
    hi as u16 * 256 + lo as u16
}

/// Writes a host and a port into six bytes.
pub fn encode_compact_ip_port(ip: &IpAddr, port: u16) -> (r: Option<Vec<u8>>)
    ensures
        match r {
            Some(b) => compact_addr(ip@, port) == Some(b@),
            None => compact_addr(ip@, port) is None,
        },
{
    match ip {
        IpAddr::V4(a, b, c, d) => {
            let mut out: Vec<u8> = Vec::new();
            out.push(*a);
            out.push(*b);
            out.push(*c);
            out.push(*d);
            out.push((port / 256) as u8);
            out.push((port % 256) as u8);
            assert(out@ =~= compact_addr(ip@, port)->0);
            Some(out)
        },
        IpAddr::V6(_) => None,
    }
}

/// Reads a host and a port from six bytes.
pub fn decode_compact_ip_port(b: &[u8]) -> (r: Option<(IpAddr, u16)>)
    ensures
        match r {
            Some((ip, port)) => b@.len() == 6 && ip@ == host_at(b@, 0) && port == port_at(b@, 4),
            None => b@.len() != 6,
        },
{
    if b.len() != 6 {
        return None;
    }
    Some((IpAddr::V4(b[0], b[1], b[2], b[3]), read_port(b[4], b[5])))
}

/// Reads a run of six-byte addresses.
pub fn decode_compact_peers(b: &[u8]) -> (r: Vec<(IpAddr, u16)>)
    ensures
        peers_model(r@) == compact_peers(b@),
{
    let mut out: Vec<(IpAddr, u16)> = Vec::new();
    let mut i: usize = 0;
    while b.len() - i >= 6
        invariant
            i <= b@.len(),
            i == 6 * out@.len(),
            peers_model(out@) =~= compact_peers(b@).take(out@.len() as int),
        decreases b.len() - i,
    {
        let ghost n = out@.len() as int;
        assert(n < b@.len() / 6);
        let ip = IpAddr::V4(b[i], b[i + 1], b[i + 2], b[i + 3]);
        out.push((ip, read_port(b[i + 4], b[i + 5])));
        assert(peers_model(out@)[n] == compact_peers(b@)[n]);
        i += 6;
    }
    assert(compact_peers(b@).take(out@.len() as int) =~= compact_peers(b@));
    out
}

/// Reads a run of twenty-six-byte nodes.
pub fn decode_compact_nodes(b: &[u8]) -> (r: Vec<([u8; 20], IpAddr, u16)>)
    ensures
        found_model(r@) == compact_nodes(b@),
{
    let mut out: Vec<([u8; 20], IpAddr, u16)> = Vec::new();
    let mut i: usize = 0;
    while b.len() - i >= 26
        invariant
            i <= b@.len(),
            i == 26 * out@.len(),
            found_model(out@) =~= compact_nodes(b@).take(out@.len() as int),
        decreases b.len() - i,
    {
        let ghost n = out@.len() as int;
        assert(n < b@.len() / 26);
        let id = to_id(slice_subrange(b, i, i + 20));
        let ip = IpAddr::V4(b[i + 20], b[i + 21], b[i + 22], b[i + 23]);
        out.push((id, ip, read_port(b[i + 24], b[i + 25])));
        assert(found_model(out@)[n] == compact_nodes(b@)[n]);
        i += 26;
    }
    assert(compact_nodes(b@).take(out@.len() as int) =~= compact_nodes(b@));
    out
}

/// An IPv4 address written in the compact form is read back.
pub proof fn law_compact_addr_read_back(a: AddrModel)
    requires
        a.ip is V4,
    ensures
        compact_addr(a.ip, a.port) is Some,
        compact_addr(a.ip, a.port)->0.len() == 6,
        host_at(compact_addr(a.ip, a.port)->0, 0) == a.ip,
        port_at(compact_addr(a.ip, a.port)->0, 4) == a.port,
{
}

/// The compact forms of addresses, one after another; an address without one is left out.
pub open spec fn compact_addrs(s: Seq<AddrModel>) -> Seq<u8>
    decreases s.len(),
{
    if s.len() == 0 {
        Seq::empty()
    } else {
        let front = compact_addrs(s.drop_last());
        match compact_addr(s.last().ip, s.last().port) {
            Some(a) => front + a,
            None => front,
        }
    }
}

/// A run of IPv4 addresses written in the compact form is read back.
pub proof fn law_compact_peers_read_back(s: Seq<AddrModel>)
    requires
        forall|i: int| 0 <= i < s.len() ==> (#[trigger] s[i]).ip is V4,
    ensures
        compact_addrs(s).len() == 6 * s.len(),
        compact_peers(compact_addrs(s)) == s.map_values(|a: AddrModel| (a.ip, a.port)),
    decreases s.len(),
{
    let f = |a: AddrModel| (a.ip, a.port);
    if s.len() == 0 {
        assert(compact_peers(compact_addrs(s)) =~= s.map_values(f));
    } else {
        let front = s.drop_last();
        let last = s.last();
        assert(s[s.len() - 1].ip is V4);
        assert forall|i: int| 0 <= i < front.len() implies (#[trigger] front[i]).ip is V4 by {
            assert(s[i].ip is V4);
        }
        law_compact_peers_read_back(front);
        law_compact_addr_read_back(last);
        let b = compact_addrs(front);
        let a = compact_addr(last.ip, last.port)->0;
        let r = compact_peers(b + a);
        assert(compact_addrs(s) == b + a);
        assert forall|i: int| 0 <= i < s.len() implies r[i] == s.map_values(f)[i] by {
            if i < front.len() {
                assert(r[i] == compact_peers(b)[i]);
                assert(compact_peers(b)[i] == front.map_values(f)[i]);
            } else {
                assert((b + a)[6 * i] == a[0] && (b + a)[6 * i + 1] == a[1] && (b + a)[6 * i + 2]
                    == a[2] && (b + a)[6 * i + 3] == a[3] && (b + a)[6 * i + 4] == a[4] && (b
                    + a)[6 * i + 5] == a[5]);
            }
        }
        assert(r =~= s.map_values(f));
    }
}

} // verus!
