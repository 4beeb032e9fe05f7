//! The peers that are known for each info-hash.

use vstd::prelude::*;
use std::collections::VecDeque;
use dashmap::DashMap;
use crate::types::{Peer, PeerModel};

verus! {

/// The most info-hashes that the table holds.
pub const MAX_INFOHASHES: usize = 50000;

/// The concurrent map of the `dashmap` crate.
#[verifier::external_type_specification]
#[verifier::external_body]
#[verifier::reject_recursive_types(K)]
#[verifier::reject_recursive_types(V)]
#[verifier::reject_recursive_types(S)]
pub struct ExDashMap<K, V, S>(DashMap<K, V, S>);

/// What a table of peers holds: for each info-hash its peers, the oldest first.
pub uninterp spec fn peer_table(m: DashMap<[u8; 20], VecDeque<Peer>>) -> Map<
    Seq<u8>,
    Seq<PeerModel>,
>;

/// What a list of peers stands for.
pub open spec fn peer_list(s: Seq<Peer>) -> Seq<PeerModel> {
    Seq::new(s.len(), |i: int| s[i]@)
}

/// `DashMap::new` makes a map without entries.
#[verifier::external_body]
fn table_new() -> (m: DashMap<[u8; 20], VecDeque<Peer>>)
    ensures
        peer_table(m).dom() == Set::<Seq<u8>>::empty(),
{
    DashMap::new()
}

/// `DashMap::len` counts the entries.
#[verifier::external_body]
fn table_len(m: &DashMap<[u8; 20], VecDeque<Peer>>) -> (n: usize)
    ensures
        n == peer_table(*m).dom().len(),
{
    m.len()
}

/// `DashMap::contains_key` tells whether a key has an entry.
#[verifier::external_body]
fn table_has(m: &DashMap<[u8; 20], VecDeque<Peer>>, ih: &[u8; 20]) -> (r: bool)
    ensures
        r == peer_table(*m).dom().contains(ih@),
{
    m.contains_key(ih)
}

/// `DashMap::get` finds the value of a key; it is copied out.
#[verifier::external_body]
fn table_get(m: &DashMap<[u8; 20], VecDeque<Peer>>, ih: &[u8; 20]) -> (r: Option<VecDeque<Peer>>)
    ensures
        match r {
            Some(v) => peer_table(*m).dom().contains(ih@) && peer_list(v@) == peer_table(*m)[ih@],
            None => !peer_table(*m).dom().contains(ih@),
        },
{
    m.get(ih).map(|e| e.value().clone())
}

/// `DashMap::remove` takes the entry of a key out of the map and hands its value over.
#[verifier::external_body]
fn table_take(m: &mut DashMap<[u8; 20], VecDeque<Peer>>, ih: &[u8; 20]) -> (r: Option<
    VecDeque<Peer>,
>)
    ensures
        peer_table(*final(m)) == peer_table(*old(m)).remove(ih@),
        match r {
            Some(v) => peer_table(*old(m)).dom().contains(ih@) && peer_list(v@) == peer_table(
                *old(m),
            )[ih@],
            None => !peer_table(*old(m)).dom().contains(ih@),
        },
{
    m.remove(ih).map(|e| e.1)
}

/// `DashMap::insert` binds a key to a value, in place of what it was bound to.
#[verifier::external_body]
fn table_put(m: &mut DashMap<[u8; 20], VecDeque<Peer>>, ih: [u8; 20], v: VecDeque<Peer>)
    ensures
        peer_table(*final(m)) == peer_table(*old(m)).insert(ih@, peer_list(v@)),
{
    m.insert(ih, v);
}

/// The peers of each info-hash, and how many are kept of one.
#[verifier::ext_equal]
pub struct PeersModel {
    pub table: Map<Seq<u8>, Seq<PeerModel>>,
    pub k: nat,
}

/// Two peers are reached at the same address.
pub open spec fn same_address(p: PeerModel, q: PeerModel) -> bool {
    p.ip == q.ip && p.port == q.port
}

/// The peers without the first one at the address of `p`.
pub open spec fn without(s: Seq<PeerModel>, p: PeerModel) -> Seq<PeerModel>
    decreases s.len(),
{
    if s.len() == 0 {
        s
    } else if same_address(s[0], p) {
        s.skip(1)
    } else {
        seq![s[0]] + without(s.skip(1), p)
    }
}

/// The last `n` peers, or all where there are no more.
pub open spec fn newest(s: Seq<PeerModel>, n: nat) -> Seq<PeerModel> {
    if s.len() > n {
        s.skip(s.len() - n)
    } else {
        s
    }
}

impl PeersModel {
    /// The peers of an info-hash, the oldest first.
    pub open spec fn of(self, ih: Seq<u8>) -> Seq<PeerModel> {
        if self.table.dom().contains(ih) {
            self.table[ih]
        } else {
            seq![]
        }
    }

    /// The table after a peer was seen: it is the newest of its info-hash, only the newest `k`
    /// stay, and a full table takes no further info-hash.
    pub open spec fn inserted(self, ih: Seq<u8>, p: PeerModel) -> PeersModel {
        if self.table.dom().len() >= MAX_INFOHASHES && !self.table.dom().contains(ih) {
            self
        } else {
            PeersModel {
                table: self.table.insert(ih, newest(without(self.of(ih), p).push(p), self.k)),
                k: self.k,
            }
        }
    }

    /// At most so many info-hashes are held, at most `k` peers of each, and no address twice.
    pub open spec fn valid(self) -> bool {
        &&& self.table.dom().finite()
        &&& self.table.dom().len() <= MAX_INFOHASHES
        &&& forall|ih: Seq<u8>| #[trigger]
            self.table.dom().contains(ih) ==> self.table[ih].len() <= self.k && distinct_addresses(
                self.table[ih],
            )
    }
}

/// No address occurs twice.
pub open spec fn distinct_addresses(s: Seq<PeerModel>) -> bool {
    forall|i: int, j: int| 0 <= i < j < s.len() ==> !same_address(#[trigger] s[i], #[trigger] s[j])
}

proof fn lemma_without(s: Seq<PeerModel>, p: PeerModel)
    requires
        distinct_addresses(s),
    ensures
        distinct_addresses(without(s, p)),
        forall|i: int|
            0 <= i < without(s, p).len() ==> !same_address(#[trigger] without(s, p)[i], p),
        forall|i: int|
            0 <= i < without(s, p).len() ==> s.contains(#[trigger] without(s, p)[i]),
    decreases s.len(),
{
    if s.len() > 0 {
        let t = s.skip(1);
        assert forall|i: int, j: int| 0 <= i < j < t.len() implies !same_address(
            #[trigger] t[i],
            #[trigger] t[j],
        ) by {
            assert(t[i] == s[i + 1] && t[j] == s[j + 1]);
        }
        lemma_without(t, p);
        let w = without(s, p);
        if same_address(s[0], p) {
            assert forall|i: int| 0 <= i < w.len() implies !same_address(#[trigger] w[i], p)
                && s.contains(w[i]) by {
                assert(w[i] == s[i + 1]);
            }
        } else {
            let v = without(t, p);
            assert forall|i: int| 0 <= i < w.len() implies !same_address(#[trigger] w[i], p)
                && s.contains(w[i]) by {
                if i > 0 {
                    assert(w[i] == v[i - 1]);
                    let k = choose|k: int| 0 <= k < t.len() && t[k] == v[i - 1];
                    assert(s[k + 1] == v[i - 1]);
                } else {
                    assert(s[0] == w[0]);
                }
            }
            assert forall|i: int, j: int| 0 <= i < j < w.len() implies !same_address(
                #[trigger] w[i],
                #[trigger] w[j],
            ) by {
                assert(w[j] == v[j - 1]);
                if i > 0 {
                    assert(w[i] == v[i - 1]);
                } else {
                    let k = choose|k: int| 0 <= k < t.len() && t[k] == v[j - 1];
                    assert(t[k] == s[k + 1]);
                }
            }
        }
    }
}

/// Seeing a peer keeps the table within its bounds and free of repeated addresses.
pub proof fn law_insert_keeps_valid(m: PeersModel, ih: Seq<u8>, p: PeerModel)
    requires
        m.valid(),
    ensures
        m.inserted(ih, p).valid(),
{
    let w = without(m.of(ih), p);
    lemma_without(m.of(ih), p);
    let all = w.push(p);
    assert forall|i: int, j: int| 0 <= i < j < all.len() implies !same_address(
        #[trigger] all[i],
        #[trigger] all[j],
    ) by {
        if j == w.len() {
            assert(!same_address(w[i], p));
        } else {
            assert(all[i] == w[i] && all[j] == w[j]);
        }
    }
    let kept = newest(all, m.k);
    assert forall|i: int, j: int| 0 <= i < j < kept.len() implies !same_address(
        #[trigger] kept[i],
        #[trigger] kept[j],
    ) by {
        let d = all.len() - kept.len();
        assert(kept[i] == all[i + d] && kept[j] == all[j + d]);
    }
}

/// A peer is among the last of a list: at most `d` stand behind it.
pub open spec fn is_recent(s: Seq<PeerModel>, e: PeerModel, d: nat) -> bool {
    exists|j: int| 0 <= j < s.len() && #[trigger] s[j] == e && s.len() - 1 - j <= d
}

proof fn lemma_without_recent(s: Seq<PeerModel>, p: PeerModel, e: PeerModel, d: nat)
    requires
        is_recent(s, e, d),
        e.ip != p.ip || e.port != p.port,
    ensures
        is_recent(without(s, p), e, d),
    decreases s.len(),
{
    let j = choose|j: int| 0 <= j < s.len() && #[trigger] s[j] == e && s.len() - 1 - j <= d;
    if same_address(s[0], p) {
        assert(j > 0);
        assert(s.skip(1)[j - 1] == e);
    } else {
        let rest = s.skip(1);
        let t = without(rest, p);
        lemma_without_len(rest, p);
        if j == 0 {
            assert((seq![s[0]] + t)[0] == e);
        } else {
            assert(rest[j - 1] == e);
            lemma_without_recent(rest, p, e, d);
            let k = choose|k: int| 0 <= k < t.len() && #[trigger] t[k] == e && t.len() - 1 - k <= d;
            assert((seq![s[0]] + t)[k + 1] == e);
        }
    }
}

proof fn lemma_without_len(s: Seq<PeerModel>, p: PeerModel)
    ensures
        without(s, p).len() <= s.len(),
    decreases s.len(),
{
    if s.len() > 0 && !same_address(s[0], p) {
        lemma_without_len(s.skip(1), p);
    }
}

/// A peer that was seen is stored as the newest of its info-hash. The others of the info-hash stay,
/// each one place further from the end, as long as so many are kept; those at the same address make
/// way. A full table takes no further info-hash.
pub proof fn law_newest_peers_stay(m: PeersModel, ih: Seq<u8>, p: PeerModel, e: PeerModel, d: nat)
    ensures
        m.k > 0 && (m.table.dom().len() < MAX_INFOHASHES || m.table.dom().contains(ih)) ==> {
            let after = m.inserted(ih, p);
            &&& after.table.dom().contains(ih)
            &&& is_recent(after.table[ih], p, 0)
            &&& after.table[ih].len() <= m.k
            &&& (m.table.dom().contains(ih) && is_recent(m.table[ih], e, d) && (e.ip != p.ip
                || e.port != p.port) && d + 1 < m.k) ==> is_recent(after.table[ih], e, d + 1)
        },
        m.table.dom().len() >= MAX_INFOHASHES && !m.table.dom().contains(ih) ==> m.inserted(ih, p)
            == m,
        m.inserted(ih, p).k == m.k,
{
    if m.k > 0 && (m.table.dom().len() < MAX_INFOHASHES || m.table.dom().contains(ih)) {
        let s = without(m.of(ih), p).push(p);
        let t = newest(s, m.k);
        assert(t[t.len() - 1] == p);
        if m.table.dom().contains(ih) && is_recent(m.table[ih], e, d) && (e.ip != p.ip || e.port
            != p.port) && d + 1 < m.k {
            let w = without(m.of(ih), p);
            lemma_without_recent(m.of(ih), p, e, d);
            let j = choose|j: int| 0 <= j < w.len() && #[trigger] w[j] == e && w.len() - 1 - j <= d;
            assert(s[j] == e);
            let i = j - (s.len() - t.len());
            assert(t[i] == e);
        }
    }
}

/// A peer that was just seen is the newest of its info-hash; other info-hashes are not touched.
pub proof fn law_insert_then_get(m: PeersModel, ih: Seq<u8>, p: PeerModel, n: nat, other: Seq<u8>)
    requires
        m.k > 0,
        m.table.dom().len() < MAX_INFOHASHES || m.table.dom().contains(ih),
        n > 0,
    ensures
        newest(m.inserted(ih, p).of(ih), n).len() > 0,
        newest(m.inserted(ih, p).of(ih), n).last() == p,
        other != ih ==> m.inserted(ih, p).of(other) == m.of(other),
{
}

/// The peers that are known for each info-hash.
pub struct PeersManager {
    table: DashMap<[u8; 20], VecDeque<Peer>>,
    k: usize,
}

impl View for PeersManager {
    type V = PeersModel;

    closed spec fn view(&self) -> PeersModel {
        PeersModel { table: peer_table(self.table), k: self.k as nat }
    }
}

impl PeersManager {
    /// An empty table that keeps `k` peers of each info-hash.
    pub fn new(k: usize) -> (r: Self)
        ensures
            r@.table.dom() == Set::<Seq<u8>>::empty(),
            r@.k == k,
            r@.valid(),
    {
        PeersManager { table: table_new(), k }
    }

    /// Notes that a peer was seen.
    pub fn insert(&mut self, ih: [u8; 20], peer: Peer)
        ensures
            final(self)@ == old(self)@.inserted(ih@, peer@),
            old(self)@.valid() ==> final(self)@.valid(),
    {
        proof {
            if self@.valid() {
                law_insert_keeps_valid(self@, ih@, peer@);
            }
        }
        if table_len(&self.table) >= MAX_INFOHASHES && !table_has(&self.table, &ih) {
            return;
        }
        let ghost before = self@;
        let ghost p = peer@;
        let mut list = match table_take(&mut self.table, &ih) {
            Some(l) => l,
            None => VecDeque::new(),
        };
        assert(peer_list(list@) =~= before.of(ih@));
        forget(&mut list, &peer);
        let ghost kept = peer_list(list@);
        list.push_back(peer);
        assert(peer_list(list@) =~= kept.push(p));
        let ghost all = peer_list(list@);
        while list.len() > self.k
            invariant
                newest(peer_list(list@), self.k as nat) == newest(all, self.k as nat),
            decreases list.len(),
        {
            let ghost l0 = peer_list(list@);
            let _ = list.pop_front();
            assert(peer_list(list@) =~= l0.skip(1));
            assert(newest(l0.skip(1), self.k as nat) =~= newest(l0, self.k as nat));
        }
        table_put(&mut self.table, ih, list);
        assert(self@.table =~= before.inserted(ih@, p).table);
    }

    /// The newest `size` peers of an info-hash, the oldest of them first.
    pub fn get(&self, ih: [u8; 20], size: usize) -> (r: Vec<Peer>)
        ensures
            peer_list(r@) == newest(self@.of(ih@), size as nat),
    {
        let mut out: Vec<Peer> = Vec::new();
        match table_get(&self.table, &ih) {
            Some(list) => {
                let len: usize = list.len();
                let start: usize = if len > size {
                    len - size
                } else {
                    0
                };
                let mut i: usize = start;
                assert(peer_list(out@) =~= peer_list(list@).subrange(start as int, i as int));
                while i < len
                    invariant
                        start <= i <= len,
                        len == list@.len(),
                        peer_list(out@) =~= peer_list(list@).subrange(start as int, i as int),
                    decreases len - i,
                {
                    let ghost o0 = peer_list(out@);
                    let p = list[i].clone();
                    out.push(p);
                    assert(peer_list(out@) =~= o0.push(p@));
                    i += 1;
                }
                assert(peer_list(out@) =~= newest(self@.of(ih@), size as nat));
            },
            None => {
                assert(peer_list(out@) =~= newest(self@.of(ih@), size as nat));
            },
        }
        out
    }
}

/// Drops the first peer at the address of `peer`.
fn forget(list: &mut VecDeque<Peer>, peer: &Peer)
    ensures
        peer_list(final(list)@) == without(peer_list(old(list)@), peer@),
{
    let ghost l0 = peer_list(list@);
    let mut i: usize = 0;
    assert(l0.skip(0) =~= l0);
    assert(l0.take(0) + without(l0, peer@) =~= without(l0, peer@));
    while i < list.len()
        invariant
            i <= list@.len(),
            l0 == peer_list(list@),
            *list == *old(list),
            without(l0, peer@) == l0.take(i as int) + without(l0.skip(i as int), peer@),
        decreases list.len() - i,
    {
        assert(l0.skip(i as int)[0] == l0[i as int]);
        if list[i].ip.same(&peer.ip) && list[i].port == peer.port {
            let _ = list.remove(i);
            assert(peer_list(list@) =~= l0.take(i as int) + l0.skip(i as int).skip(1));
            return;
        }
        assert(l0.skip(i as int).skip(1) =~= l0.skip(i + 1));
        assert(l0.take(i as int) + (seq![l0[i as int]] + without(l0.skip(i + 1), peer@)) =~= l0.take(
            i + 1,
        ) + without(l0.skip(i + 1), peer@));
        i += 1;
    }
    assert(l0.take(i as int) + without(l0.skip(i as int), peer@) =~= l0);
}

} // verus!
