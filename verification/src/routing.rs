//! The routing table: the nodes that are known, and those of them that are close to a target.

use vstd::prelude::*;
use vstd::string::*;
use crate::keyed::{
    law_put_sorted, lemma_lex_asymmetric, lemma_lex_irreflexive, lemma_lex_total, lemma_put_skips,
    lex_lt, lookup, put, rank, sorted, Rank,
};
use crate::timed::{fresh, is_fresh};
use crate::types::{addr_text, AddrModel, IpModel, Node, NodeModel, SocketAddr};
use crate::util::{compact_addr, compact_nodes, encode_compact_ip_port, law_compact_addr_read_back};

verus! {

/// The bits of a node identifier.
pub const ID_BITS: usize = 160;

/// A node under its identifier.
pub type Entry = (Seq<u8>, NodeModel);

/// The known nodes, in the order of their identifiers, and the size of a bucket.
#[verifier::ext_equal]
pub struct RoutingModel {
    pub nodes: Seq<(Seq<u8>, NodeModel)>,
    pub k: nat,
}

// ---------------------------------------------------------------------------
// Distance
// ---------------------------------------------------------------------------

/// The distance of two identifiers: the bits in which they differ.
pub open spec fn distance(a: Seq<u8>, t: Seq<u8>) -> Seq<u8> {
    Seq::new(a.len(), |i: int| a[i] ^ t[i])
}

/// One identifier lies closer to the target than another.
pub open spec fn closer(a: Seq<u8>, b: Seq<u8>, t: Seq<u8>) -> bool {
    lex_lt(distance(a, t), distance(b, t))
}

/// The nodes with one more, in front of those that lie farther from the target.
pub open spec fn ranked_in(s: Seq<Entry>, n: Entry, t: Seq<u8>) -> Seq<Entry>
    decreases s.len(),
{
    if s.len() == 0 {
        seq![n]
    } else if closer(n.0, s[0].0, t) {
        seq![n] + s
    } else {
        seq![s[0]] + ranked_in(s.skip(1), n, t)
    }
}

/// The first `n` of a sequence, or all where there are no more.
pub open spec fn at_most<T>(s: Seq<T>, n: nat) -> Seq<T> {
    if s.len() > n {
        s.take(n as int)
    } else {
        s
    }
}

/// The `n` nodes that lie closest to the target, the closest first.
pub open spec fn nearest(s: Seq<Entry>, t: Seq<u8>, n: nat) -> Seq<Entry>
    decreases s.len(),
{
    if s.len() == 0 {
        s
    } else {
        at_most(ranked_in(nearest(s.drop_last(), t, n), s.last(), t), n)
    }
}

/// The nodes stand in the order of their distance from the target.
pub open spec fn by_distance(s: Seq<Entry>, t: Seq<u8>) -> bool {
    forall|i: int, j: int|
        0 <= i < j < s.len() ==> !closer(#[trigger] s[j].0, #[trigger] s[i].0, t)
}

proof fn lemma_ranked_in(s: Seq<Entry>, n: Entry, t: Seq<u8>)
    requires
        by_distance(s, t),
    ensures
        by_distance(ranked_in(s, n, t), t),
        ranked_in(s, n, t).len() == s.len() + 1,
        ranked_in(s, n, t).to_multiset() == s.to_multiset().insert(n),
    decreases s.len(),
{
    broadcast use vstd::seq_lib::group_to_multiset_ensures;

    let r = ranked_in(s, n, t);
    if s.len() == 0 {
        assert(r =~= s.push(n));
    } else if closer(n.0, s[0].0, t) {
        assert(r =~= s.insert(0, n));
        assert forall|i: int, j: int| 0 <= i < j < r.len() implies !closer(
            #[trigger] r[j].0,
            #[trigger] r[i].0,
            t,
        ) by {
            assert(r[j] == s[j - 1]);
            if i > 0 {
                assert(r[i] == s[i - 1]);
            } else {
                lemma_lex_asymmetric(distance(n.0, t), distance(s[0].0, t));
                if j > 1 && closer(s[j - 1].0, n.0, t) {
                    assert(!closer(s[j - 1].0, s[0].0, t));
                    crate::keyed::lemma_lex_transitive(
                        distance(s[j - 1].0, t),
                        distance(n.0, t),
                        distance(s[0].0, t),
                    );
                }
            }
        }
    } else {
        let rest = s.skip(1);
        assert forall|i: int, j: int| 0 <= i < j < rest.len() implies !closer(
            #[trigger] rest[j].0,
            #[trigger] rest[i].0,
            t,
        ) by {
            assert(rest[i] == s[i + 1] && rest[j] == s[j + 1]);
        }
        lemma_ranked_in(rest, n, t);
        let q = ranked_in(rest, n, t);
        assert(r =~= q.insert(0, s[0]));
        assert(s =~= rest.insert(0, s[0]));
        assert(r.to_multiset() =~= s.to_multiset().insert(n));
        assert forall|i: int, j: int| 0 <= i < j < r.len() implies !closer(
            #[trigger] r[j].0,
            #[trigger] r[i].0,
            t,
        ) by {
            assert(r[j] == q[j - 1]);
            if i > 0 {
                assert(r[i] == q[i - 1]);
            } else {
                assert(q.to_multiset().count(q[j - 1]) > 0);
                if q[j - 1] != n {
                    assert(rest.to_multiset().count(q[j - 1]) > 0);
                    assert(rest.contains(q[j - 1]));
                    let x = choose|x: int| 0 <= x < rest.len() && rest[x] == q[j - 1];
                    assert(s[x + 1] == q[j - 1]);
                }
            }
        }
    }
}

/// The nodes that are handed out for a target are known nodes, as many as asked for or all, in the
/// order of their distance.
pub proof fn law_nearest(s: Seq<Entry>, t: Seq<u8>, n: nat)
    ensures
        nearest(s, t, n).len() == if s.len() < n {
            s.len()
        } else {
            n
        },
        by_distance(nearest(s, t, n), t),
        nearest(s, t, n).to_multiset().subset_of(s.to_multiset()),
        s.len() <= n ==> nearest(s, t, n).to_multiset() == s.to_multiset(),
    decreases s.len(),
{
    broadcast use vstd::seq_lib::group_to_multiset_ensures;

    if s.len() > 0 {
        law_nearest(s.drop_last(), t, n);
        let p = nearest(s.drop_last(), t, n);
        lemma_ranked_in(p, s.last(), t);
        let r = ranked_in(p, s.last(), t);
        let a = at_most(r, n);
        assert(s =~= s.drop_last().push(s.last()));
        assert(s.to_multiset() == s.drop_last().to_multiset().insert(s.last()));
        if r.len() > n {
            assert(r =~= r.take(n as int) + r.skip(n as int));
            vstd::seq_lib::lemma_multiset_commutative(r.take(n as int), r.skip(n as int));
            assert(a.to_multiset().subset_of(r.to_multiset()));
        }
        assert forall|i: int, j: int| 0 <= i < j < a.len() implies !closer(
            #[trigger] a[j].0,
            #[trigger] a[i].0,
            t,
        ) by {
            assert(a[i] == r[i] && a[j] == r[j]);
        }
    }
}

proof fn lemma_not_farther(x: Seq<u8>, y: Seq<u8>, z: Seq<u8>)
    requires
        !lex_lt(y, x),
        !lex_lt(z, y),
    ensures
        !lex_lt(z, x),
{
    lemma_lex_total(x, y);
    lemma_lex_total(y, z);
    lemma_lex_irreflexive(x);
    if lex_lt(z, x) {
        if lex_lt(x, y) {
            crate::keyed::lemma_lex_transitive(z, x, y);
        }
    }
}

/// No node that is left out lies closer to the target than one that is handed out.
pub proof fn law_nothing_closer_left_out(s: Seq<Entry>, t: Seq<u8>, n: nat, out: Entry, i: int)
    requires
        s.contains(out),
        !nearest(s, t, n).contains(out),
        0 <= i < nearest(s, t, n).len(),
    ensures
        !closer(out.0, nearest(s, t, n)[i].0, t),
    decreases s.len(),
{
    broadcast use vstd::seq_lib::group_to_multiset_ensures;

    law_nearest(s, t, n);
    let prev = s.drop_last();
    let p = nearest(prev, t, n);
    law_nearest(prev, t, n);
    lemma_ranked_in(p, s.last(), t);
    let r = ranked_in(p, s.last(), t);
    let a = nearest(s, t, n);
    assert(r.to_multiset() == p.to_multiset().insert(s.last()));
    if r.contains(out) {
        let x = choose|x: int| 0 <= x < r.len() && r[x] == out;
        if x < a.len() {
            assert(a[x] == out);
        }
        assert(a[i] == r[i]);
        assert(!closer(r[x].0, r[i].0, t));
    } else {
        assert(!p.contains(out)) by {
            if p.contains(out) {
                assert(p.to_multiset().count(out) > 0);
                assert(r.to_multiset().count(out) > 0);
            }
        }
        assert(out != s.last()) by {
            assert(r.to_multiset().count(s.last()) > 0);
            assert(r.contains(s.last()));
        }
        let y = choose|y: int| 0 <= y < s.len() && s[y] == out;
        assert(prev[y] == out);
        assert(prev.contains(out));
        // The new node may stand at place `i`; what it pushed back is no closer.
        if p.len() < n {
            law_nearest(prev, t, n);
            assert(prev.to_multiset().count(out) > 0);
            assert(p.to_multiset().count(out) > 0);
        } else {
            assert(p.len() == n);
            if p.contains(a[i]) {
                let z = choose|z: int| 0 <= z < p.len() && p[z] == a[i];
                law_nothing_closer_left_out(prev, t, n, out, z);
            } else {
                // a[i] is the new node, and it stands in front of the last of p.
                assert(r.to_multiset().count(a[i]) > 0) by {
                    assert(r[i] == a[i]);
                    assert(r.contains(a[i]));
                }
                assert(a[i] == s.last());
                let last = p[n - 1];
                law_nothing_closer_left_out(prev, t, n, out, n - 1);
                assert(p.to_multiset().count(last) > 0) by {
                    assert(p.contains(last));
                }
                assert(r.to_multiset().count(last) > 0);
                lemma_last_not_closer(p, s.last(), t, i);
                lemma_not_farther(
                    distance(a[i].0, t),
                    distance(last.0, t),
                    distance(out.0, t),
                );
            }
        }
    }
}

proof fn lemma_last_not_closer(p: Seq<Entry>, n: Entry, t: Seq<u8>, i: int)
    requires
        by_distance(p, t),
        p.len() > 0,
        0 <= i < p.len(),
        ranked_in(p, n, t)[i] == n,
        !p.contains(n),
    ensures
        !closer(p.last().0, n.0, t),
    decreases p.len(),
{
    if closer(n.0, p[0].0, t) {
        lemma_lex_asymmetric(distance(n.0, t), distance(p[0].0, t));
        if p.len() > 1 {
            assert(!closer(p[p.len() - 1].0, p[0].0, t));
            lemma_not_farther(
                distance(n.0, t),
                distance(p[0].0, t),
                distance(p.last().0, t),
            );
        }
    } else {
        let rest = p.skip(1);
        if i == 0 {
            assert(p.contains(p[0]));
        }
        assert forall|x: int, y: int| 0 <= x < y < rest.len() implies !closer(
            #[trigger] rest[y].0,
            #[trigger] rest[x].0,
            t,
        ) by {
            assert(rest[x] == p[x + 1] && rest[y] == p[y + 1]);
        }
        lemma_ranked_in(rest, n, t);
        assert(ranked_in(p, n, t)[i] == ranked_in(rest, n, t)[i - 1]);
        assert(!rest.contains(n)) by {
            if rest.contains(n) {
                let x = choose|x: int| 0 <= x < rest.len() && rest[x] == n;
                assert(p[x + 1] == n);
            }
        }
        lemma_last_not_closer(rest, n, t, i - 1);
        assert(rest.last() == p.last());
    }
}

// ---------------------------------------------------------------------------
// Buckets
// ---------------------------------------------------------------------------

/// The value of a bit of an identifier, counted from its front.
pub open spec fn bit(id: Seq<u8>, b: int) -> bool {
    (id[b / 8] as int / weight(b % 8)) % 2 == 1
}

/// The weight of a bit of a byte, counted from its front.
pub open spec fn weight(r: int) -> int {
    if r == 0 {
        128
    } else if r == 1 {
        64
    } else if r == 2 {
        32
    } else if r == 3 {
        16
    } else if r == 4 {
        8
    } else if r == 5 {
        4
    } else if r == 6 {
        2
    } else {
        1
    }
}

/// An identifier that shares its first `bits` bits with `id` and takes the others from `noise`.
pub open spec fn child_id(id: Seq<u8>, bits: int, noise: Seq<u8>) -> Seq<u8> {
    Seq::new(
        20,
        |i: int|
            if 8 * (i + 1) <= bits {
                id[i]
            } else if bits <= 8 * i {
                noise[i]
            } else {
                mixed(id[i], noise[i], 2 * weight(bits - 8 * i))
            },
    )
}

/// A byte whose bits below the weight `w` come from `b`, the others from `a`.
pub open spec fn mixed(a: u8, b: u8, w: int) -> u8 {
    (a as int / w * w + b as int % w) as u8
}

/// What a refresh of the table comes to: nodes to ask and for which identifier, and the addresses
/// of the nodes of the refreshed buckets.
#[verifier::ext_equal]
pub struct PlanModel {
    pub tasks: Seq<(AddrModel, Seq<u8>)>,
    pub clear: Seq<Seq<char>>,
}

/// How a refresh is carried out.
pub struct RefreshModel {
    pub k: nat,
    pub expired_after: u64,
    pub per_bucket: nat,
    pub now: u64,
    pub noise: Seq<u8>,
}

/// No node of a bucket has been heard of lately.
pub open spec fn stale(s: Seq<Entry>, expired_after: u64, now: u64) -> bool {
    forall|i: int|
        0 <= i < s.len() ==> !fresh((#[trigger] s[i]).1.last_active, expired_after, now)
}

/// The refresh of one bucket whose nodes share their first `bits` bits.
pub open spec fn bucket_plan(s: Seq<Entry>, bits: int, r: RefreshModel) -> PlanModel {
    if s.len() > 0 && stale(s, r.expired_after, r.now) {
        PlanModel {
            tasks: at_most(s, r.per_bucket).map_values(
                |e: Entry| (e.1.addr, child_id(s[0].0, bits, r.noise)),
            ),
            clear: s.map_values(|e: Entry| addr_text(e.1.addr)),
        }
    } else {
        PlanModel { tasks: seq![], clear: seq![] }
    }
}

/// The nodes whose bit `b` is `v`.
pub open spec fn with_bit(s: Seq<Entry>, b: int, v: bool) -> Seq<Entry> {
    s.filter(|e: Entry| bit(e.0, b) == v)
}

/// The refresh of all buckets: nodes that share their first `bits` bits form one bucket where it
/// has room for them, and are told apart by the next bit where it has not.
pub open spec fn plan(s: Seq<Entry>, bits: int, r: RefreshModel) -> PlanModel
    decreases ID_BITS - bits,
{
    if s.len() <= r.k || bits >= ID_BITS {
        bucket_plan(s, bits, r)
    } else {
        let zeros = plan(with_bit(s, bits, false), bits + 1, r);
        let ones = plan(with_bit(s, bits, true), bits + 1, r);
        PlanModel { tasks: zeros.tasks + ones.tasks, clear: zeros.clear + ones.clear }
    }
}

// ---------------------------------------------------------------------------
// The table
// ---------------------------------------------------------------------------

/// The compact form of nodes, one after another; a node without an IPv4 address is left out.
pub open spec fn compact_run(s: Seq<Entry>) -> Seq<u8>
    decreases s.len(),
{
    if s.len() == 0 {
        seq![]
    } else {
        let rest = compact_run(s.drop_last());
        match compact_addr(s.last().1.addr.ip, s.last().1.addr.port) {
            Some(a) => rest + (s.last().0 + a),
            None => rest,
        }
    }
}

/// The nodes that the compact form names: those with an IPv4 address.
pub open spec fn named_nodes(s: Seq<Entry>) -> Seq<(Seq<u8>, IpModel, u16)>
    decreases s.len(),
{
    if s.len() == 0 {
        Seq::empty()
    } else {
        let front = named_nodes(s.drop_last());
        let n = s.last();
        match n.1.addr.ip {
            IpModel::V4(..) => front.push((n.0, n.1.addr.ip, n.1.addr.port)),
            IpModel::V6(_) => front,
        }
    }
}

/// Nodes that are handed out in the compact form are read back.
pub proof fn law_compact_nodes_read_back(s: Seq<Entry>)
    requires
        forall|i: int| 0 <= i < s.len() ==> (#[trigger] s[i]).0.len() == 20,
    ensures
        compact_run(s).len() == 26 * named_nodes(s).len(),
        compact_nodes(compact_run(s)) == named_nodes(s),
    decreases s.len(),
{
    if s.len() == 0 {
        assert(compact_nodes(compact_run(s)) =~= named_nodes(s));
    } else {
        let front = s.drop_last();
        let n = s.last();
        assert(s[s.len() - 1].0.len() == 20);
        assert forall|i: int| 0 <= i < front.len() implies (#[trigger] front[i]).0.len() == 20 by {
            assert(s[i].0.len() == 20);
        }
        law_compact_nodes_read_back(front);
        if n.1.addr.ip is V4 {
            law_compact_addr_read_back(n.1.addr);
            let b = compact_run(front);
            let a = compact_addr(n.1.addr.ip, n.1.addr.port)->0;
            let all = b + (n.0 + a);
            let r = compact_nodes(all);
            let k = named_nodes(front).len() as int;
            assert(compact_run(s) == all);
            assert forall|i: int| 0 <= i <= k implies r[i] == named_nodes(s)[i] by {
                if i < k {
                    assert(all.subrange(26 * i, 26 * i + 20) =~= b.subrange(26 * i, 26 * i + 20));
                    assert(r[i] == compact_nodes(b)[i]);
                } else {
                    assert(all.subrange(26 * i, 26 * i + 20) =~= n.0);
                    assert(all[26 * i + 20] == a[0] && all[26 * i + 21] == a[1] && all[26 * i + 22]
                        == a[2] && all[26 * i + 23] == a[3] && all[26 * i + 24] == a[4] && all[26
                        * i + 25] == a[5]);
                }
            }
            assert(r =~= named_nodes(s));
        }
    }
}

impl RoutingModel {
    /// The table with a node, in place of what was known of it before.
    pub open spec fn inserted(self, n: NodeModel) -> RoutingModel {
        RoutingModel { nodes: put(self.nodes, n.id, n), ..self }
    }

    /// The table without the nodes at an address.
    pub open spec fn without_addr(self, addr: Seq<char>) -> RoutingModel {
        RoutingModel { nodes: self.nodes.filter(|e: Entry| addr_text(e.1.addr) != addr), ..self }
    }

    /// The nodes that have not been heard of for so long.
    pub open spec fn expired(self, after: u64, now: u64) -> Seq<Entry> {
        self.nodes.filter(|e: Entry| !fresh(e.1.last_active, after, now))
    }

    /// The table cut down to `max_nodes`, where it holds more: first by those not heard of for
    /// long.
    pub open spec fn pruned(self, after: u64, max_nodes: nat, now: u64) -> RoutingModel {
        if self.nodes.len() <= max_nodes {
            self
        } else {
            RoutingModel {
                nodes: at_most(
                    self.nodes.filter(|e: Entry| fresh(e.1.last_active, after, now)),
                    max_nodes,
                ),
                ..self
            }
        }
    }

    /// The refresh of the table; addresses to clear are only named for a crawler.
    pub open spec fn refresh(
        self,
        now: u64,
        expired_after: u64,
        per_bucket: nat,
        crawl: bool,
        noise: Seq<u8>,
    ) -> PlanModel {
        let p = plan(
            self.nodes,
            0,
            RefreshModel { k: self.k, expired_after, per_bucket, now, noise },
        );
        PlanModel {
            tasks: p.tasks,
            clear: if crawl {
                p.clear
            } else {
                seq![]
            },
        }
    }

    /// The nodes are in order, each identifier once.
    pub open spec fn valid(self) -> bool {
        sorted(self.nodes)
    }
}

/// The table never holds more nodes than it is cut down to.
pub proof fn law_pruned_bound(m: RoutingModel, after: u64, max_nodes: nat, now: u64)
    ensures
        m.pruned(after, max_nodes, now).nodes.len() <= max_nodes,
{
}

/// A node that was entered is found under its identifier, and no other node is lost.
pub proof fn law_insert_then_found(m: RoutingModel, n: NodeModel, other: Seq<u8>)
    ensures
        lookup(m.inserted(n).nodes, n.id) == Some(n),
        other != n.id ==> lookup(m.inserted(n).nodes, other) == lookup(m.nodes, other),
{
    crate::keyed::law_put_lookup(m.nodes, n.id, n, other);
}

/// Entering a node keeps the table in order.
pub proof fn law_insert_keeps_valid(m: RoutingModel, n: NodeModel)
    requires
        m.valid(),
    ensures
        m.inserted(n).valid(),
{
    law_put_sorted(m.nodes, n.id, n);
}

proof fn lemma_filter_from<T>(s: Seq<T>, f: spec_fn(T) -> bool)
    ensures
        forall|i: int| 0 <= i < s.filter(f).len() ==> s.contains(#[trigger] s.filter(f)[i]),
    decreases s.len(),
{
    reveal(Seq::filter);
    if s.len() > 0 {
        lemma_filter_from(s.drop_last(), f);
        let r = s.filter(f);
        let q = s.drop_last().filter(f);
        assert forall|i: int| 0 <= i < r.len() implies s.contains(#[trigger] r[i]) by {
            if i < q.len() {
                assert(r[i] == q[i]);
                let x = choose|x: int| 0 <= x < s.drop_last().len() && s.drop_last()[x] == q[i];
                assert(s[x] == q[i]);
            } else {
                assert(s[s.len() - 1] == r[i]);
            }
        }
    }
}

proof fn lemma_filter_sorted(s: Seq<Entry>, f: spec_fn(Entry) -> bool)
    requires
        sorted(s),
    ensures
        sorted(s.filter(f)),
    decreases s.len(),
{
    reveal(Seq::filter);
    if s.len() > 0 {
        let d = s.drop_last();
        assert forall|i: int, j: int| 0 <= i < j < d.len() implies lex_lt(
            #[trigger] d[i].0,
            #[trigger] d[j].0,
        ) by {
            assert(d[i] == s[i] && d[j] == s[j]);
        }
        lemma_filter_sorted(d, f);
        lemma_filter_from(d, f);
        let q = d.filter(f);
        let r = s.filter(f);
        assert forall|i: int, j: int| 0 <= i < j < r.len() implies lex_lt(
            #[trigger] r[i].0,
            #[trigger] r[j].0,
        ) by {
            assert(r[i] == q[i]);
            if j < q.len() {
                assert(r[j] == q[j]);
            } else {
                let x = choose|x: int| 0 <= x < d.len() && d[x] == q[i];
                assert(s[x] == q[i]);
                assert(r[j] == s[s.len() - 1]);
            }
        }
    }
}

/// Dropping nodes keeps the table in order.
pub proof fn law_removal_keeps_valid(
    m: RoutingModel,
    addr: Seq<char>,
    after: u64,
    max_nodes: nat,
    now: u64,
)
    requires
        m.valid(),
    ensures
        m.without_addr(addr).valid(),
        m.pruned(after, max_nodes, now).valid(),
{
    lemma_filter_sorted(m.nodes, |e: Entry| addr_text(e.1.addr) != addr);
    let f = |e: Entry| fresh(e.1.last_active, after, now);
    lemma_filter_sorted(m.nodes, f);
    let p = m.nodes.filter(f);
    let a = at_most(p, max_nodes);
    assert forall|i: int, j: int| 0 <= i < j < a.len() implies lex_lt(
        #[trigger] a[i].0,
        #[trigger] a[j].0,
    ) by {
        assert(a[i] == p[i] && a[j] == p[j]);
    }
}

/// After the nodes at an address were dropped, no node is known there.
pub proof fn law_removed_addr_is_gone(m: RoutingModel, addr: Seq<char>, i: int)
    requires
        0 <= i < m.without_addr(addr).nodes.len(),
    ensures
        addr_text(m.without_addr(addr).nodes[i].1.addr) != addr,
{
    let f = |e: Entry| addr_text(e.1.addr) != addr;
    m.nodes.lemma_filter_pred(f, i);
}

/// Dropping an address leaves all nodes at other addresses in the table.
pub proof fn law_other_addresses_stay(m: RoutingModel, addr: Seq<char>, i: int)
    requires
        0 <= i < m.nodes.len(),
        addr_text(m.nodes[i].1.addr) != addr,
    ensures
        m.without_addr(addr).nodes.contains(m.nodes[i]),
        m.without_addr(addr).k == m.k,
{
    let f = |e: Entry| addr_text(e.1.addr) != addr;
    m.nodes.lemma_filter_contains(f, i);
}

/// What a list of nodes stands for.
pub open spec fn node_list(s: Seq<Node>) -> Seq<Entry> {
    Seq::new(s.len(), |i: int| (s[i].id.0@, s[i]@))
}

/// What a list of addresses stands for.
pub open spec fn addr_list(s: Seq<SocketAddr>) -> Seq<AddrModel> {
    Seq::new(s.len(), |i: int| s[i]@)
}

/// What a list of tasks stands for.
pub open spec fn task_list(s: Seq<(SocketAddr, [u8; 20])>) -> Seq<(AddrModel, Seq<u8>)> {
    Seq::new(s.len(), |i: int| (s[i].0@, s[i].1@))
}

/// What a list of texts stands for.
pub open spec fn text_list(s: Seq<String>) -> Seq<Seq<char>> {
    Seq::new(s.len(), |i: int| s[i]@)
}

/// The known nodes.
pub struct RoutingTable {
    nodes: Vec<Node>,
    k: usize,
}

impl View for RoutingTable {
    type V = RoutingModel;

    closed spec fn view(&self) -> RoutingModel {
        RoutingModel { nodes: node_list(self.nodes@), k: self.k as nat }
    }
}

/// Whether one identifier lies closer to the target than another.
fn is_closer(a: &[u8; 20], b: &[u8; 20], t: &[u8; 20]) -> (r: bool)
    ensures
        r == closer(a@, b@, t@),
{
    let ghost da = distance(a@, t@);
    let ghost db = distance(b@, t@);
    let mut i: usize = 0;
    assert(da.skip(0) =~= da);
    assert(db.skip(0) =~= db);
    while i < 20
        invariant
            i <= 20,
            da == distance(a@, t@),
            db == distance(b@, t@),
            lex_lt(da, db) == lex_lt(da.skip(i as int), db.skip(i as int)),
        decreases 20 - i,
    {
        let x: u8 = a[i] ^ t[i];
        let y: u8 = b[i] ^ t[i];
        assert(da.skip(i as int)[0] == x);
        assert(db.skip(i as int)[0] == y);
        if x != y {
            return x < y;
        }
        assert(da.skip(i as int).skip(1) =~= da.skip(i + 1));
        assert(db.skip(i as int).skip(1) =~= db.skip(i + 1));
        i += 1;
    }
    false
}

proof fn lemma_ranked_skips(s: Seq<Entry>, n: Entry, t: Seq<u8>, i: int)
    requires
        0 <= i <= s.len(),
        forall|j: int| 0 <= j < i ==> !closer(n.0, (#[trigger] s[j]).0, t),
    ensures
        ranked_in(s, n, t) == s.take(i) + ranked_in(s.skip(i), n, t),
    decreases i,
{
    if i == 0 {
        assert(s.skip(0) =~= s);
        assert(s.take(0) + ranked_in(s, n, t) =~= ranked_in(s, n, t));
    } else {
        assert(!closer(n.0, s[0].0, t));
        assert forall|j: int| 0 <= j < i - 1 implies !closer(
            n.0,
            (#[trigger] s.skip(1)[j]).0,
            t,
        ) by {
            assert(s.skip(1)[j] == s[j + 1]);
        }
        lemma_ranked_skips(s.skip(1), n, t, i - 1);
        assert(s.skip(1).skip(i - 1) =~= s.skip(i));
        assert(seq![s[0]] + (s.skip(1).take(i - 1) + ranked_in(s.skip(i), n, t)) =~= s.take(i)
            + ranked_in(s.skip(i), n, t));
    }
}

/// Puts a node into a list that is ordered by the distance from the target.
fn rank_node(list: &mut Vec<Node>, n: Node, t: &[u8; 20])
    ensures
        node_list(final(list)@) == ranked_in(node_list(old(list)@), (n.id.0@, n@), t@),
{
    let ghost s = node_list(list@);
    let ghost e = (n.id.0@, n@);
    let mut i: usize = 0;
    while i < list.len()
        invariant
            i <= list@.len(),
            s == node_list(list@),
            *list == *old(list),
            e == (n.id.0@, n@),
            forall|j: int| 0 <= j < i ==> !closer(e.0, (#[trigger] s[j]).0, t@),
        decreases list.len() - i,
    {
        if is_closer(&n.id.0, &list[i].id.0, t) {
            proof {
                lemma_ranked_skips(s, e, t@, i as int);
                assert(s.skip(i as int)[0] == s[i as int]);
            }
            list.insert(i, n);
            assert(node_list(list@) =~= s.take(i as int) + (seq![e] + s.skip(i as int)));
            return;
        }
        i += 1;
    }
    proof {
        lemma_ranked_skips(s, e, t@, i as int);
    }
    list.push(n);
    assert(node_list(list@) =~= s.take(i as int) + seq![e]);
}

/// The weight of a bit of a byte, counted from its front.
fn bit_weight(r: usize) -> (w: u16)
    requires
        r < 8,
    ensures
        w == weight(r as int),
        1 <= w <= 128,
{
    if r == 0 {
        128
    } else if r == 1 {
        64
    } else if r == 2 {
        32
    } else if r == 3 {
        16
    } else if r == 4 {
        8
    } else if r == 5 {
        4
    } else if r == 6 {
        2
    } else {
        1
    }
}

/// The value of a bit of an identifier.
fn has_bit(id: &[u8; 20], b: usize) -> (r: bool)
    requires
        b < ID_BITS,
    ensures
        r == bit(id@, b as int),
{
    let w = bit_weight(b % 8);
    let byte = id[b / 8] as u16;
    byte / w % 2 == 1
}

proof fn lemma_mixed(a: u8, b: u8, r: int)
    requires
        0 < r < 8,
    ensures
        a as int / (2 * weight(r)) * (2 * weight(r)) + b as int % (2 * weight(r)) <= 255,
{
    let x = a as int;
    let y = b as int;
    assert(x / 128 * 128 + y % 128 <= 255);
    assert(x / 64 * 64 + y % 64 <= 255);
    assert(x / 32 * 32 + y % 32 <= 255);
    assert(x / 16 * 16 + y % 16 <= 255);
    assert(x / 8 * 8 + y % 8 <= 255);
    assert(x / 4 * 4 + y % 4 <= 255);
    assert(x / 2 * 2 + y % 2 <= 255);
}

proof fn lemma_high_part(a: int, n: int, w: int, k: int)
    requires
        a >= 0,
        n >= 0,
        w > 0,
        k > 0,
    ensures
        (a / w * w + n % w) / (w * k) == a / (w * k),
{
    let x = a / w * w + n % w;
    vstd::arithmetic::div_mod::lemma_fundamental_div_mod_converse(x, w, a / w, n % w);
    vstd::arithmetic::div_mod::lemma_div_denominator(x, w, k);
    vstd::arithmetic::div_mod::lemma_div_denominator(a, w, k);
}

/// The identifier that is asked for in the refresh of a bucket lies in the bucket: it shares the
/// bits that the identifiers of the bucket have in common.
pub proof fn law_refresh_target_lies_in_bucket(id: Seq<u8>, bits: int, noise: Seq<u8>, b: int)
    requires
        id.len() == 20,
        noise.len() == 20,
        0 <= b < bits <= ID_BITS,
    ensures
        child_id(id, bits, noise).len() == 20,
        bit(child_id(id, bits, noise), b) == bit(id, b),
{
    let i = b / 8;
    if 8 * (i + 1) > bits {
        lemma_mixed(id[i], noise[i], bits - 8 * i);
        let w = 2 * weight(bits - 8 * i);
        let v = weight(b % 8);
        assert(w == 128 || w == 64 || w == 32 || w == 16 || w == 8 || w == 4 || w == 2);
        let k = if w == 128 {
            v / 128
        } else if w == 64 {
            v / 64
        } else if w == 32 {
            v / 32
        } else if w == 16 {
            v / 16
        } else if w == 8 {
            v / 8
        } else if w == 4 {
            v / 4
        } else {
            v / 2
        };
        assert(w * k == v && k > 0) by {
            assert(v == 128 || v == 64 || v == 32 || v == 16 || v == 8 || v == 4 || v == 2);
        }
        lemma_high_part(id[i] as int, noise[i] as int, w, k);
    }
}

/// An identifier with the first `bits` bits of `id` and the others of `noise`.
fn make_child_id(id: &[u8; 20], bits: usize, noise: &[u8; 20]) -> (r: [u8; 20])
    requires
        bits <= ID_BITS,
    ensures
        r@ == child_id(id@, bits as int, noise@),
{
    let ghost whole = child_id(id@, bits as int, noise@);
    let mut out: [u8; 20] = [0u8; 20];
    let mut i: usize = 0;
    while i < 20
        invariant
            i <= 20,
            bits <= ID_BITS,
            whole == child_id(id@, bits as int, noise@),
            forall|j: int| 0 <= j < i ==> out@[j] == whole[j],
        decreases 20 - i,
    {
        if 8 * (i + 1) <= bits {
            out[i] = id[i];
        } else if bits <= 8 * i {
            out[i] = noise[i];
        } else {
            let w: u16 = 2 * bit_weight(bits - 8 * i);
            let a: u16 = id[i] as u16;
            let b: u16 = noise[i] as u16;
            proof {
                lemma_mixed(id@[i as int], noise@[i as int], bits - 8 * i);
                vstd::arithmetic::div_mod::lemma_fundamental_div_mod(a as int, w as int);
                assert(a as int / w as int * w as int >= 0) by (nonlinear_arith)
                    requires
                        a >= 0,
                        w > 0,
                ;
                assert(w as int * (a as int / w as int) == a as int / w as int * w as int)
                    by (nonlinear_arith);
            }
            let high: u16 = a / w * w;
            let low: u16 = b % w;
            let m = high + low;
            out[i] = m as u8;
        }
        i += 1;
    }
    assert(out@ =~= whole);
    out
}

/// How a refresh is carried out.
struct Refresh {
    k: usize,
    expired_after: u64,
    per_bucket: usize,
    now: u64,
    noise: [u8; 20],
}

impl View for Refresh {
    type V = RefreshModel;

    closed spec fn view(&self) -> RefreshModel {
        RefreshModel {
            k: self.k as nat,
            expired_after: self.expired_after,
            per_bucket: self.per_bucket as nat,
            now: self.now,
            noise: self.noise@,
        }
    }
}

/// Adds the refresh of one bucket.
fn plan_bucket(
    nodes: &Vec<Node>,
    bits: usize,
    r: &Refresh,
    tasks: &mut Vec<(SocketAddr, [u8; 20])>,
    clear: &mut Vec<String>,
)
    requires
        bits <= ID_BITS,
    ensures
        task_list(final(tasks)@) == task_list(old(tasks)@) + bucket_plan(
            node_list(nodes@),
            bits as int,
            r@,
        ).tasks,
        text_list(final(clear)@) == text_list(old(clear)@) + bucket_plan(
            node_list(nodes@),
            bits as int,
            r@,
        ).clear,
{
    let ghost s = node_list(nodes@);
    let ghost t0 = task_list(tasks@);
    let ghost c0 = text_list(clear@);
    let mut i: usize = 0;
    while i < nodes.len()
        invariant
            i <= nodes@.len(),
            s == node_list(nodes@),
            t0 == task_list(tasks@),
            c0 == text_list(clear@),
            forall|j: int|
                0 <= j < i ==> !fresh((#[trigger] s[j]).1.last_active, r@.expired_after, r@.now),
        decreases nodes.len() - i,
    {
        if is_fresh(nodes[i].last_active, r.expired_after, r.now) {
            proof {
                assert(fresh(s[i as int].1.last_active, r@.expired_after, r@.now));
                assert(!stale(s, r@.expired_after, r@.now));
                assert(t0 + seq![] =~= t0);
                assert(c0 + seq![] =~= c0);
            }
            return ;
        }
        i += 1;
    }
    if nodes.len() == 0 {
        proof {
            assert(t0 + seq![] =~= t0);
            assert(c0 + seq![] =~= c0);
        }
        return ;
    }
    assert(stale(s, r@.expired_after, r@.now));
    let child = make_child_id(&nodes[0].id.0, bits, &r.noise);
    let ghost f = |e: Entry| (e.1.addr, child_id(s[0].0, bits as int, r@.noise));
    let ghost g = |e: Entry| addr_text(e.1.addr);
    assert(t0 + at_most(s, r@.per_bucket).map_values(f).take(0) =~= t0);
    assert(c0 + s.map_values(g).take(0) =~= c0);
    let mut n: usize = 0;
    while n < nodes.len()
        invariant
            n <= nodes@.len(),
            s == node_list(nodes@),
            s.len() > 0,
            child@ == child_id(s[0].0, bits as int, r@.noise),
            f == (|e: Entry| (e.1.addr, child_id(s[0].0, bits as int, r@.noise))),
            g == (|e: Entry| addr_text(e.1.addr)),
            task_list(tasks@) == t0 + at_most(s, r@.per_bucket).map_values(f).take(
                if n <= r.per_bucket {
                    n as int
                } else {
                    r.per_bucket as int
                },
            ),
            text_list(clear@) == c0 + s.map_values(g).take(n as int),
        decreases nodes.len() - n,
    {
        let ghost t1 = task_list(tasks@);
        let ghost c1 = text_list(clear@);
        if n < r.per_bucket {
            let a = nodes[n].addr.clone();
            tasks.push((a, child));
            assert(task_list(tasks@) =~= t1.push((a@, child@)));
            assert(at_most(s, r@.per_bucket).map_values(f)[n as int] == (a@, child@));
            assert(task_list(tasks@) =~= t0 + at_most(s, r@.per_bucket).map_values(f).take(n + 1));
        }
        let text = nodes[n].addr.text();
        clear.push(text);
        assert(text_list(clear@) =~= c1.push(text@));
        assert(text_list(clear@) =~= c0 + s.map_values(g).take(n + 1));
        n += 1;
    }
    proof {
        let m = at_most(s, r@.per_bucket).map_values(f);
        let e = if n <= r.per_bucket {
            n as int
        } else {
            r.per_bucket as int
        };
        assert(m.take(e) =~= m);
        assert(s.map_values(g).take(n as int) =~= s.map_values(g));
    }
}

/// The nodes whose bit `b` is `v`.
fn pick(nodes: &Vec<Node>, b: usize, v: bool) -> (r: Vec<Node>)
    requires
        b < ID_BITS,
    ensures
        node_list(r@) == with_bit(node_list(nodes@), b as int, v),
{
    let ghost s = node_list(nodes@);
    let ghost f = |e: Entry| bit(e.0, b as int) == v;
    let mut out: Vec<Node> = Vec::new();
    let mut i: usize = 0;
    assert(node_list(out@) =~= s.take(0).filter(f)) by {
        reveal(Seq::filter);
    }
    while i < nodes.len()
        invariant
            i <= nodes@.len(),
            b < ID_BITS,
            s == node_list(nodes@),
            f == (|e: Entry| bit(e.0, b as int) == v),
            node_list(out@) == s.take(i as int).filter(f),
        decreases nodes.len() - i,
    {
        proof {
            reveal(Seq::filter);
            assert(s.take(i + 1).drop_last() =~= s.take(i as int));
            assert(s.take(i + 1).last() == s[i as int]);
        }
        if has_bit(&nodes[i].id.0, b) == v {
            let ghost o0 = node_list(out@);
            let n = nodes[i].clone();
            out.push(n);
            assert(node_list(out@) =~= o0.push(s[i as int]));
        }
        i += 1;
    }
    assert(s.take(i as int) =~= s);
    out
}

/// Adds the refresh of all buckets.
fn plan_into(
    nodes: &Vec<Node>,
    bits: usize,
    r: &Refresh,
    tasks: &mut Vec<(SocketAddr, [u8; 20])>,
    clear: &mut Vec<String>,
)
    requires
        bits <= ID_BITS,
    ensures
        task_list(final(tasks)@) == task_list(old(tasks)@) + plan(
            node_list(nodes@),
            bits as int,
            r@,
        ).tasks,
        text_list(final(clear)@) == text_list(old(clear)@) + plan(
            node_list(nodes@),
            bits as int,
            r@,
        ).clear,
    decreases ID_BITS - bits,
{
    if nodes.len() <= r.k || bits >= ID_BITS {
        plan_bucket(nodes, bits, r, tasks, clear);
    } else {
        let ghost t0 = task_list(tasks@);
        let ghost c0 = text_list(clear@);
        let zeros = pick(nodes, bits, false);
        plan_into(&zeros, bits + 1, r, tasks, clear);
        let ones = pick(nodes, bits, true);
        plan_into(&ones, bits + 1, r, tasks, clear);
        assert(task_list(tasks@) =~= t0 + plan(node_list(nodes@), bits as int, r@).tasks);
        assert(text_list(clear@) =~= c0 + plan(node_list(nodes@), bits as int, r@).clear);
    }
}

impl RoutingTable {
    /// An empty table with buckets of size `k`.
    pub fn new(k: usize) -> (r: Self)
        ensures
            r@ == (RoutingModel { nodes: Seq::empty(), k: k as nat }),
            r@.valid(),
    {
        let r = RoutingTable { nodes: Vec::new(), k };
        assert(r@.nodes =~= Seq::empty());
        r
    }

    /// How many nodes are known.
    pub fn len(&self) -> (r: usize)
        ensures
            r == self@.nodes.len(),
    {
        self.nodes.len()
    }

    /// Enters a node, in place of what was known of it before.
    pub fn insert(&mut self, n: Node)
        ensures
            final(self)@ == old(self)@.inserted(n@),
            old(self)@.valid() ==> final(self)@.valid(),
    {
        proof {
            if self@.valid() {
                law_insert_keeps_valid(self@, n@);
            }
        }
        let ghost p = self@.nodes;
        let ghost k = n.id.0@;
        let ghost v = n@;
        let ghost kept_valid = self@.valid() ==> self@.inserted(v).valid();
        let mut i: usize = 0;
        while i < self.nodes.len()
            invariant
                i <= self.nodes@.len(),
                p == self@.nodes,
                *self == *old(self),
                k == n.id.0@,
                v == n@,
                k == v.id,
                kept_valid == (old(self)@.valid() ==> old(self)@.inserted(v).valid()),
                kept_valid,
                forall|j: int| 0 <= j < i ==> (#[trigger] p[j]).0 != k && !lex_lt(k, p[j].0),
            decreases self.nodes.len() - i,
        {
            assert(p[i as int].0 == self.nodes@[i as int].id.0@);
            match rank(&n.id.0, &self.nodes[i].id.0) {
                Rank::Same => {
                    proof {
                        lemma_put_skips(p, i as int, k, v);
                        assert(p.skip(i as int)[0] == p[i as int]);
                    }
                    self.nodes.set(i, n);
                    assert(self@.nodes =~= p.take(i as int) + (seq![(k, v)] + p.skip(
                        i as int,
                    ).skip(1)));
                    return;
                },
                Rank::Before => {
                    proof {
                        lemma_lex_irreflexive(k);
                        lemma_put_skips(p, i as int, k, v);
                        assert(p.skip(i as int)[0] == p[i as int]);
                    }
                    self.nodes.insert(i, n);
                    assert(self@.nodes =~= p.take(i as int) + (seq![(k, v)] + p.skip(i as int)));
                    return;
                },
                Rank::After => {
                    proof {
                        lemma_lex_asymmetric(k, p[i as int].0);
                        lemma_lex_irreflexive(k);
                    }
                },
            }
            i += 1;
        }
        proof {
            lemma_put_skips(p, i as int, k, v);
        }
        self.nodes.push(n);
        assert(self@.nodes =~= p.take(i as int) + seq![(k, v)]);
    }

    /// The `size` nodes that lie closest to a target, the closest first.
    pub fn neighbors_by_target(&self, target: &[u8; 20], size: usize) -> (r: Vec<Node>)
        ensures
            node_list(r@) == nearest(self@.nodes, target@, size as nat),
    {
        let ghost all = self@.nodes;
        let mut out: Vec<Node> = Vec::new();
        let mut i: usize = 0;
        assert(node_list(out@) =~= nearest(all.take(0), target@, size as nat));
        while i < self.nodes.len()
            invariant
                i <= self.nodes@.len(),
                all == node_list(self.nodes@),
                node_list(out@) == nearest(all.take(i as int), target@, size as nat),
            decreases self.nodes.len() - i,
        {
            proof {
                assert(all.take(i + 1).drop_last() =~= all.take(i as int));
                assert(all.take(i + 1).last() == all[i as int]);
                law_nearest(all.take(i as int), target@, size as nat);
                lemma_ranked_in(
                    nearest(all.take(i as int), target@, size as nat),
                    all[i as int],
                    target@,
                );
            }
            let n = self.nodes[i].clone();
            rank_node(&mut out, n, target);
            let ghost ranked = node_list(out@);
            if out.len() > size {
                out.truncate(size);
                assert(node_list(out@) =~= at_most(ranked, size as nat));
            }
            i += 1;
        }
        assert(all.take(i as int) =~= all);
        out
    }

    /// The compact form of the `size` nodes that lie closest to a target.
    pub fn get_neighbors_compact(&self, target: &[u8; 20], size: usize) -> (r: Vec<u8>)
        ensures
            r@ == compact_run(nearest(self@.nodes, target@, size as nat)),
    {
        let near = self.neighbors_by_target(target, size);
        let ghost all = node_list(near@);
        let mut out: Vec<u8> = Vec::new();
        let mut i: usize = 0;
        assert(out@ =~= compact_run(all.take(0)));
        while i < near.len()
            invariant
                i <= near@.len(),
                all == node_list(near@),
                out@ == compact_run(all.take(i as int)),
            decreases near.len() - i,
        {
            proof {
                assert(all.take(i + 1).drop_last() =~= all.take(i as int));
                assert(all.take(i + 1).last() == all[i as int]);
            }
            let ghost o0 = out@;
            match encode_compact_ip_port(&near[i].addr.ip, near[i].addr.port) {
                Some(b) => {
                    out.extend_from_slice(&near[i].id.0);
                    out.extend_from_slice(b.as_slice());
                    assert(out@ =~= o0 + (all[i as int].0 + b@));
                },
                None => {},
            }
            i += 1;
        }
        assert(all.take(i as int) =~= all);
        out
    }

    /// Drops the nodes at an address.
    pub fn remove_by_addr(&mut self, addr: &str)
        ensures
            final(self)@ == old(self)@.without_addr(addr@),
            old(self)@.valid() ==> final(self)@.valid(),
    {
        proof {
            if self@.valid() {
                law_removal_keeps_valid(self@, addr@, 0, 0, 0);
            }
        }
        let ghost all = self@.nodes;
        let ghost f = |e: Entry| addr_text(e.1.addr) != addr@;
        let unwanted = addr.to_owned();
        let mut kept: Vec<Node> = Vec::new();
        let mut i: usize = 0;
        assert(node_list(kept@) =~= all.take(0).filter(f)) by {
            reveal(Seq::filter);
        }
        while i < self.nodes.len()
            invariant
                i <= self.nodes@.len(),
                all == node_list(self.nodes@),
                *self == *old(self),
                f == (|e: Entry| addr_text(e.1.addr) != addr@),
                unwanted@ == addr@,
                node_list(kept@) == all.take(i as int).filter(f),
            decreases self.nodes.len() - i,
        {
            proof {
                reveal(Seq::filter);
                assert(all.take(i + 1).drop_last() =~= all.take(i as int));
                assert(all.take(i + 1).last() == all[i as int]);
            }
            let text = self.nodes[i].addr.text();
            if text != unwanted {
                let ghost k0 = node_list(kept@);
                let n = self.nodes[i].clone();
                kept.push(n);
                assert(node_list(kept@) =~= k0.push(all[i as int]));
            }
            i += 1;
        }
        assert(all.take(i as int) =~= all);
        self.nodes = kept;
    }

    /// The addresses of the nodes that have not been heard of for `after`.
    pub fn collect_expired_nodes(&self, now: u64, after: u64) -> (r: Vec<SocketAddr>)
        ensures
            addr_list(r@) == self@.expired(after, now).map_values(|e: Entry| e.1.addr),
    {
        let ghost all = self@.nodes;
        let ghost f = |e: Entry| !fresh(e.1.last_active, after, now);
        let ghost g = |e: Entry| e.1.addr;
        let mut out: Vec<SocketAddr> = Vec::new();
        let mut i: usize = 0;
        assert(addr_list(out@) =~= all.take(0).filter(f).map_values(g)) by {
            reveal(Seq::filter);
        }
        while i < self.nodes.len()
            invariant
                i <= self.nodes@.len(),
                all == node_list(self.nodes@),
                f == (|e: Entry| !fresh(e.1.last_active, after, now)),
                g == (|e: Entry| e.1.addr),
                addr_list(out@) == all.take(i as int).filter(f).map_values(g),
            decreases self.nodes.len() - i,
        {
            proof {
                reveal(Seq::filter);
                assert(all.take(i + 1).drop_last() =~= all.take(i as int));
                assert(all.take(i + 1).last() == all[i as int]);
            }
            if !is_fresh(self.nodes[i].last_active, after, now) {
                let ghost o0 = addr_list(out@);
                let a = self.nodes[i].addr.clone();
                out.push(a);
                assert(addr_list(out@) =~= o0.push(a@));
                assert(all.take(i + 1).filter(f).map_values(g) =~= all.take(i as int).filter(
                    f,
                ).map_values(g).push(a@));
            }
            i += 1;
        }
        assert(all.take(i as int) =~= all);
        out
    }

    /// Cuts the table down to `max_nodes`, where it holds more.
    pub fn prune(&mut self, now: u64, after: u64, max_nodes: usize)
        ensures
            final(self)@ == old(self)@.pruned(after, max_nodes as nat, now),
            old(self)@.valid() ==> final(self)@.valid(),
    {
        proof {
            if self@.valid() {
                law_removal_keeps_valid(self@, seq![], after, max_nodes as nat, now);
            }
        }
        if self.nodes.len() <= max_nodes {
            return;
        }
        let ghost all = self@.nodes;
        let ghost f = |e: Entry| fresh(e.1.last_active, after, now);
        let mut kept: Vec<Node> = Vec::new();
        let mut i: usize = 0;
        assert(node_list(kept@) =~= all.take(0).filter(f)) by {
            reveal(Seq::filter);
        }
        while i < self.nodes.len()
            invariant
                i <= self.nodes@.len(),
                all == node_list(self.nodes@),
                *self == *old(self),
                f == (|e: Entry| fresh(e.1.last_active, after, now)),
                node_list(kept@) == all.take(i as int).filter(f),
            decreases self.nodes.len() - i,
        {
            proof {
                reveal(Seq::filter);
                assert(all.take(i + 1).drop_last() =~= all.take(i as int));
                assert(all.take(i + 1).last() == all[i as int]);
            }
            if is_fresh(self.nodes[i].last_active, after, now) {
                let ghost k0 = node_list(kept@);
                let n = self.nodes[i].clone();
                kept.push(n);
                assert(node_list(kept@) =~= k0.push(all[i as int]));
            }
            i += 1;
        }
        assert(all.take(i as int) =~= all);
        let ghost whole = node_list(kept@);
        if kept.len() > max_nodes {
            kept.truncate(max_nodes);
        }
        assert(node_list(kept@) =~= at_most(whole, max_nodes as nat));
        self.nodes = kept;
    }

    /// The refresh of the table: nodes to ask and for which identifier, and for a crawler the
    /// addresses of the nodes of the refreshed buckets. `noise` are random bytes.
    pub fn fresh_plan(
        &self,
        now: u64,
        expired_after: u64,
        refresh_num: usize,
        crawl: bool,
        noise: &[u8; 20],
    ) -> (r: (Vec<(SocketAddr, [u8; 20])>, Vec<String>))
        ensures
            task_list(r.0@) == self@.refresh(
                now,
                expired_after,
                refresh_num as nat,
                crawl,
                noise@,
            ).tasks,
            text_list(r.1@) == self@.refresh(
                now,
                expired_after,
                refresh_num as nat,
                crawl,
                noise@,
            ).clear,
    {
        let r = Refresh { k: self.k, expired_after, per_bucket: refresh_num, now, noise: *noise };
        let mut tasks: Vec<(SocketAddr, [u8; 20])> = Vec::new();
        let mut clear: Vec<String> = Vec::new();
        plan_into(&self.nodes, 0, &r, &mut tasks, &mut clear);
        assert(task_list(tasks@) =~= plan(self@.nodes, 0, r@).tasks);
        assert(text_list(clear@) =~= plan(self@.nodes, 0, r@).clear);
        if !crawl {
            clear = Vec::new();
            assert(text_list(clear@) =~= seq![]);
        }
        (tasks, clear)
    }
}

proof fn lemma_with_bit_len(s: Seq<Entry>, b: int)
    ensures
        with_bit(s, b, false).len() + with_bit(s, b, true).len() == s.len(),
    decreases s.len(),
{
    reveal(Seq::filter);
    if s.len() > 0 {
        lemma_with_bit_len(s.drop_last(), b);
    }
}

proof fn lemma_plan_len(s: Seq<Entry>, bits: int, r: RefreshModel)
    ensures
        plan(s, bits, r).tasks.len() <= s.len(),
        plan(s, bits, r).clear.len() <= s.len(),
    decreases ID_BITS - bits,
{
    if !(s.len() <= r.k || bits >= ID_BITS) {
        lemma_with_bit_len(s, bits);
        lemma_plan_len(with_bit(s, bits, false), bits + 1, r);
        lemma_plan_len(with_bit(s, bits, true), bits + 1, r);
    }
}

/// A refresh asks no more nodes than are known.
pub proof fn law_refresh_plan_is_small(
    m: RoutingModel,
    now: u64,
    expired_after: u64,
    per_bucket: nat,
    crawl: bool,
    noise: Seq<u8>,
)
    ensures
        m.refresh(now, expired_after, per_bucket, crawl, noise).tasks.len() <= m.nodes.len(),
        !crawl ==> m.refresh(now, expired_after, per_bucket, crawl, noise).clear.len() == 0,
{
    lemma_plan_len(
        m.nodes,
        0,
        RefreshModel { k: m.k, expired_after, per_bucket, now, noise },
    );
}

/// The nodes that have expired are those that were last heard of as long ago as said, or longer.
pub proof fn law_expired_nodes_are_found(m: RoutingModel, after: u64, now: u64, i: int)
    requires
        0 <= i < m.nodes.len(),
    ensures
        m.expired(after, now).len() <= m.nodes.len(),
        m.nodes[i].1.last_active + after <= now ==> m.expired(after, now).contains(m.nodes[i]),
        m.nodes[i].1.last_active + after > now && after > 0 ==> !m.expired(after, now).contains(
            m.nodes[i],
        ),
{
    let f = |e: Entry| !fresh(e.1.last_active, after, now);
    m.nodes.lemma_filter_len(f);
    if f(m.nodes[i]) {
        m.nodes.lemma_filter_contains(f, i);
    }
    if m.nodes.filter(f).contains(m.nodes[i]) {
        let j = choose|j: int| 0 <= j < m.nodes.filter(f).len() && m.nodes.filter(f)[j]
            == m.nodes[i];
        m.nodes.lemma_filter_pred(f, j);
    }
}

/// A table that has grown too large loses nodes that have expired, and only as many others as it
/// must: those that are left were known and have not expired, and all such are left where there is
/// room for them.
pub proof fn law_pruning_keeps_active_nodes(
    m: RoutingModel,
    after: u64,
    max_nodes: nat,
    now: u64,
    e: Entry,
)
    ensures
        m.nodes.len() <= max_nodes ==> m.pruned(after, max_nodes, now) == m,
        m.nodes.len() > max_nodes && m.pruned(after, max_nodes, now).nodes.contains(e)
            ==> m.nodes.contains(e) && (e.1.last_active + after > now && after > 0),
        m.nodes.len() > max_nodes && m.nodes.contains(e) && e.1.last_active + after > now && after
            > 0 && m.pruned(after, max_nodes, now).nodes.len() < max_nodes ==> m.pruned(
            after,
            max_nodes,
            now,
        ).nodes.contains(e),
{
    let f = |x: Entry| fresh(x.1.last_active, after, now);
    let g = m.nodes.filter(f);
    let p = m.pruned(after, max_nodes, now).nodes;
    if m.nodes.len() > max_nodes && p.contains(e) {
        let j = choose|j: int| 0 <= j < p.len() && p[j] == e;
        assert(g[j] == e);
        m.nodes.lemma_filter_pred(f, j);
        lemma_filter_from(m.nodes, f);
    }
    if m.nodes.contains(e) && f(e) {
        let i = choose|i: int| 0 <= i < m.nodes.len() && m.nodes[i] == e;
        m.nodes.lemma_filter_contains(f, i);
    }
}

proof fn lemma_plan_asks_stale(s: Seq<Entry>, bits: int, r: RefreshModel, j: int)
    requires
        0 <= j < plan(s, bits, r).tasks.len(),
    ensures
        exists|i: int|
            0 <= i < s.len() && (#[trigger] s[i]).1.addr == plan(s, bits, r).tasks[j].0 && !fresh(
                s[i].1.last_active,
                r.expired_after,
                r.now,
            ),
    decreases ID_BITS - bits,
{
    let p = plan(s, bits, r);
    if s.len() <= r.k || bits >= ID_BITS {
        assert(s[j].1.addr == p.tasks[j].0);
    } else {
        let zeros = plan(with_bit(s, bits, false), bits + 1, r);
        let v = j >= zeros.tasks.len();
        let part = with_bit(s, bits, v);
        let k = if v {
            j - zeros.tasks.len()
        } else {
            j
        };
        lemma_plan_asks_stale(part, bits + 1, r, k);
        let i = choose|i: int|
            0 <= i < part.len() && (#[trigger] part[i]).1.addr == plan(part, bits + 1, r).tasks[k].0
                && !fresh(part[i].1.last_active, r.expired_after, r.now);
        lemma_filter_from(s, |e: Entry| bit(e.0, bits) == v);
        let l = choose|l: int| 0 <= l < s.len() && s[l] == part[i];
        assert(s[l].1.addr == p.tasks[j].0);
    }
}

/// Only nodes that have not been heard of for long are asked in a refresh.
pub proof fn law_refresh_asks_expired_nodes(
    m: RoutingModel,
    now: u64,
    expired_after: u64,
    per_bucket: nat,
    crawl: bool,
    noise: Seq<u8>,
    j: int,
)
    requires
        expired_after > 0,
        0 <= j < m.refresh(now, expired_after, per_bucket, crawl, noise).tasks.len(),
    ensures
        exists|i: int|
            0 <= i < m.nodes.len() && (#[trigger] m.nodes[i]).1.addr == m.refresh(
                now,
                expired_after,
                per_bucket,
                crawl,
                noise,
            ).tasks[j].0 && m.nodes[i].1.last_active + expired_after <= now,
{
    let r = RefreshModel { k: m.k, expired_after, per_bucket, now, noise };
    lemma_plan_asks_stale(m.nodes, 0, r, j);
    let i = choose|i: int|
        0 <= i < m.nodes.len() && (#[trigger] m.nodes[i]).1.addr == plan(m.nodes, 0, r).tasks[j].0
            && !fresh(m.nodes[i].1.last_active, expired_after, now);
    assert(m.nodes[i].1.last_active + expired_after <= now);
}

proof fn lemma_plan_reaches_all(s: Seq<Entry>, bits: int, r: RefreshModel, i: int)
    requires
        0 <= i < s.len(),
        stale(s, r.expired_after, r.now),
    ensures
        r.per_bucket > 0 ==> plan(s, bits, r).tasks.len() > 0,
        s.len() <= r.per_bucket ==> exists|j: int|
            0 <= j < plan(s, bits, r).tasks.len() && (#[trigger] plan(s, bits, r).tasks[j]).0
                == s[i].1.addr,
        plan(s, bits, r).clear.contains(addr_text(s[i].1.addr)),
    decreases ID_BITS - bits,
{
    let p = plan(s, bits, r);
    if s.len() <= r.k || bits >= ID_BITS {
        assert(p.clear[i] == addr_text(s[i].1.addr));
        if s.len() <= r.per_bucket {
            assert(p.tasks[i].0 == s[i].1.addr);
        }
    } else {
        let v = bit(s[i].0, bits);
        let part = with_bit(s, bits, v);
        let f = |e: Entry| bit(e.0, bits) == v;
        s.lemma_filter_contains(f, i);
        let k = choose|k: int| 0 <= k < part.len() && part[k] == s[i];
        assert(stale(part, r.expired_after, r.now)) by {
            assert forall|j: int| 0 <= j < part.len() implies !fresh(
                (#[trigger] part[j]).1.last_active,
                r.expired_after,
                r.now,
            ) by {
                lemma_filter_from(s, f);
                let l = choose|l: int| 0 <= l < s.len() && s[l] == part[j];
                assert(!fresh(s[l].1.last_active, r.expired_after, r.now));
            }
        }
        lemma_plan_reaches_all(part, bits + 1, r, k);
        lemma_with_bit_len(s, bits);
        let zeros = plan(with_bit(s, bits, false), bits + 1, r);
        let q = plan(part, bits + 1, r);
        let c = choose|c: int| 0 <= c < q.clear.len() && q.clear[c] == addr_text(s[i].1.addr);
        if v {
            assert(p.clear[zeros.clear.len() + c] == addr_text(s[i].1.addr));
        } else {
            assert(p.clear[c] == addr_text(s[i].1.addr));
        }
        if s.len() <= r.per_bucket {
            let j = choose|j: int|
                0 <= j < q.tasks.len() && (#[trigger] q.tasks[j]).0 == s[i].1.addr;
            if v {
                assert(p.tasks[zeros.tasks.len() + j].0 == s[i].1.addr);
            } else {
                assert(p.tasks[j].0 == s[i].1.addr);
            }
        }
    }
}

/// Where no node has been heard of for long, some are asked in a refresh, all where so many are
/// asked of each bucket, and a crawler forgets them all.
pub proof fn law_silent_table_is_refreshed(
    m: RoutingModel,
    now: u64,
    expired_after: u64,
    per_bucket: nat,
    crawl: bool,
    noise: Seq<u8>,
    i: int,
)
    requires
        0 <= i < m.nodes.len(),
        forall|j: int|
            0 <= j < m.nodes.len() ==> (#[trigger] m.nodes[j]).1.last_active + expired_after <= now,
    ensures
        ({
            let p = m.refresh(now, expired_after, per_bucket, crawl, noise);
            &&& per_bucket > 0 ==> p.tasks.len() > 0
            &&& m.nodes.len() <= per_bucket ==> exists|j: int|
                0 <= j < p.tasks.len() && (#[trigger] p.tasks[j]).0 == m.nodes[i].1.addr
            &&& crawl ==> p.clear.contains(addr_text(m.nodes[i].1.addr))
        }),
{
    let r = RefreshModel { k: m.k, expired_after, per_bucket, now, noise };
    assert forall|j: int| 0 <= j < m.nodes.len() implies !fresh(
        (#[trigger] m.nodes[j]).1.last_active,
        expired_after,
        now,
    ) by {
        assert(m.nodes[j].1.last_active + expired_after <= now);
    }
    lemma_plan_reaches_all(m.nodes, 0, r, i);
}

/// The bits of an identifier are counted from the front: the first one is the highest bit of the
/// first byte.
pub proof fn law_bits_are_counted_from_the_front(id: Seq<u8>, b: int)
    requires
        0 <= b < 160,
    ensures
        bit(id, b) == ((id[b / 8] >> ((7 - b % 8) as u8)) & 1u8 == 1u8),
{
    let x = id[b / 8];
    assert((x / 128u8 % 2u8 == 1u8) == ((x >> 7u8) & 1u8 == 1u8) && (x / 64u8 % 2u8 == 1u8) == ((x
        >> 6u8) & 1u8 == 1u8) && (x / 32u8 % 2u8 == 1u8) == ((x >> 5u8) & 1u8 == 1u8) && (x / 16u8
        % 2u8 == 1u8) == ((x >> 4u8) & 1u8 == 1u8)) by (bit_vector);
    assert((x / 8u8 % 2u8 == 1u8) == ((x >> 3u8) & 1u8 == 1u8) && (x / 4u8 % 2u8 == 1u8) == ((x
        >> 2u8) & 1u8 == 1u8) && (x / 2u8 % 2u8 == 1u8) == ((x >> 1u8) & 1u8 == 1u8) && (x / 1u8
        % 2u8 == 1u8) == ((x >> 0u8) & 1u8 == 1u8)) by (bit_vector);
}

/// Two identifiers have their first `bits` bits in common.
pub open spec fn shares_bits(a: Seq<u8>, b: Seq<u8>, bits: int) -> bool {
    forall|x: int| 0 <= x < bits ==> #[trigger] bit(a, x) == bit(b, x)
}

/// These are all known nodes whose first `bits` bits are those of `id`.
pub open spec fn is_bucket(nodes: Seq<Entry>, s: Seq<Entry>, id: Seq<u8>, bits: int) -> bool {
    forall|e: Entry| #[trigger]
        s.contains(e) <==> nodes.contains(e) && shares_bits(e.0, id, bits)
}

/// Node `i` of a table is asked for an identifier in its own bucket `s`, in which no node has been
/// heard of for long.
pub open spec fn is_aimed(
    nodes: Seq<Entry>,
    r: RefreshModel,
    task: (AddrModel, Seq<u8>),
    s: Seq<Entry>,
    i: int,
    bits: int,
) -> bool {
    &&& 0 <= i < nodes.len()
    &&& nodes[i].1.addr == task.0
    &&& 0 <= bits <= 160
    &&& is_bucket(nodes, s, nodes[i].0, bits)
    &&& s.len() <= r.k || bits == 160
    &&& shares_bits(task.1, nodes[i].0, bits)
    &&& forall|l: int|
        0 <= l < s.len() ==> (#[trigger] s[l]).1.last_active + r.expired_after <= r.now
}

proof fn lemma_bucket_aimed(
    nodes: Seq<Entry>,
    s: Seq<Entry>,
    id: Seq<u8>,
    bits: int,
    r: RefreshModel,
    j: int,
)
    requires
        is_bucket(nodes, s, id, bits),
        0 <= bits <= 160,
        s.len() <= r.k || bits == 160,
        r.expired_after > 0,
        r.noise.len() == 20,
        forall|i: int| 0 <= i < nodes.len() ==> (#[trigger] nodes[i]).0.len() == 20,
        0 <= j < bucket_plan(s, bits, r).tasks.len(),
    ensures
        exists|i: int| is_aimed(nodes, r, bucket_plan(s, bits, r).tasks[j], s, i, bits),
{
    let task = bucket_plan(s, bits, r).tasks[j];
    assert(task == (s[j].1.addr, child_id(s[0].0, bits, r.noise)));
    assert(s.contains(s[j]) && s.contains(s[0]));
    let i = choose|i: int| 0 <= i < nodes.len() && nodes[i] == s[j];
    let i0 = choose|i: int| 0 <= i < nodes.len() && nodes[i] == s[0];
    assert(nodes[i0].0.len() == 20);
    assert forall|x: int| 0 <= x < bits implies #[trigger] bit(task.1, x) == bit(
        nodes[i].0,
        x,
    ) by {
        law_refresh_target_lies_in_bucket(s[0].0, bits, r.noise, x);
        assert(bit(s[0].0, x) == bit(id, x));
        assert(bit(s[j].0, x) == bit(id, x));
    }
    assert forall|e: Entry| #[trigger]
        s.contains(e) <==> nodes.contains(e) && shares_bits(e.0, nodes[i].0, bits) by {
        assert forall|x: int| 0 <= x < bits implies bit(nodes[i].0, x) == #[trigger] bit(id, x) by {
            assert(bit(s[j].0, x) == bit(id, x));
        }
        if shares_bits(e.0, nodes[i].0, bits) {
            assert forall|x: int| 0 <= x < bits implies #[trigger] bit(e.0, x) == bit(id, x) by {
                assert(bit(nodes[i].0, x) == bit(id, x));
            }
        }
        if shares_bits(e.0, id, bits) {
            assert forall|x: int| 0 <= x < bits implies #[trigger] bit(e.0, x) == bit(
                nodes[i].0,
                x,
            ) by {
                assert(bit(nodes[i].0, x) == bit(id, x));
            }
        }
    }
    assert(is_aimed(nodes, r, task, s, i, bits));
}

proof fn lemma_half_bucket(
    nodes: Seq<Entry>,
    s: Seq<Entry>,
    id: Seq<u8>,
    bits: int,
    v: bool,
)
    requires
        is_bucket(nodes, s, id, bits),
        0 <= bits,
        with_bit(s, bits, v).len() > 0,
    ensures
        is_bucket(nodes, with_bit(s, bits, v), with_bit(s, bits, v)[0].0, bits + 1),
{
    let part = with_bit(s, bits, v);
    let f = |e: Entry| bit(e.0, bits) == v;
    let first = part[0].0;
    s.lemma_filter_pred(f, 0);
    lemma_filter_from(s, f);
    assert(s.contains(part[0]));
    assert(shares_bits(first, id, bits) && bit(first, bits) == v);
    assert forall|e: Entry| #[trigger]
        part.contains(e) <==> nodes.contains(e) && shares_bits(e.0, first, bits + 1) by {
        if part.contains(e) {
            let l = choose|l: int| 0 <= l < part.len() && part[l] == e;
            s.lemma_filter_pred(f, l);
            assert(s.contains(part[l]));
            assert forall|x: int| 0 <= x < bits + 1 implies #[trigger] bit(e.0, x) == bit(
                first,
                x,
            ) by {
                if x < bits {
                    assert(bit(e.0, x) == bit(id, x) && bit(first, x) == bit(id, x));
                }
            }
        }
        if nodes.contains(e) && shares_bits(e.0, first, bits + 1) {
            assert forall|x: int| 0 <= x < bits implies #[trigger] bit(e.0, x) == bit(id, x) by {
                assert(bit(e.0, x) == bit(first, x) && bit(first, x) == bit(id, x));
            }
            assert(bit(e.0, bits) == bit(first, bits));
            assert(s.contains(e));
            let l = choose|l: int| 0 <= l < s.len() && s[l] == e;
            s.lemma_filter_contains(f, l);
        }
    }
}

proof fn lemma_plan_aimed(
    nodes: Seq<Entry>,
    s: Seq<Entry>,
    id: Seq<u8>,
    bits: int,
    r: RefreshModel,
    j: int,
)
    requires
        is_bucket(nodes, s, id, bits),
        0 <= bits <= 160,
        r.expired_after > 0,
        r.noise.len() == 20,
        forall|i: int| 0 <= i < nodes.len() ==> (#[trigger] nodes[i]).0.len() == 20,
        0 <= j < plan(s, bits, r).tasks.len(),
    ensures
        exists|b: Seq<Entry>, i: int, n: int|
            is_aimed(nodes, r, plan(s, bits, r).tasks[j], b, i, n),
    decreases ID_BITS - bits,
{
    let p = plan(s, bits, r);
    if s.len() <= r.k || bits >= ID_BITS {
        lemma_bucket_aimed(nodes, s, id, bits, r, j);
        let i = choose|i: int| is_aimed(nodes, r, p.tasks[j], s, i, bits);
        assert(is_aimed(nodes, r, p.tasks[j], s, i, bits));
    } else {
        let zeros = plan(with_bit(s, bits, false), bits + 1, r);
        let v = j >= zeros.tasks.len();
        let part = with_bit(s, bits, v);
        let k = if v {
            j - zeros.tasks.len()
        } else {
            j
        };
        lemma_plan_len(part, bits + 1, r);
        lemma_half_bucket(nodes, s, id, bits, v);
        lemma_plan_aimed(nodes, part, part[0].0, bits + 1, r, k);
        assert(p.tasks[j] == plan(part, bits + 1, r).tasks[k]);
    }
}

/// In a refresh a node is asked for an identifier that shares the bits of the node's own bucket: of
/// the bits that no more than `k` known nodes, or only nodes with this very identifier, have in
/// common. No node of this bucket has been heard of for long.
pub proof fn law_refresh_is_aimed_at_bucket(
    m: RoutingModel,
    now: u64,
    expired_after: u64,
    per_bucket: nat,
    crawl: bool,
    noise: Seq<u8>,
    j: int,
)
    requires
        expired_after > 0,
        noise.len() == 20,
        forall|i: int| 0 <= i < m.nodes.len() ==> (#[trigger] m.nodes[i]).0.len() == 20,
        0 <= j < m.refresh(now, expired_after, per_bucket, crawl, noise).tasks.len(),
    ensures
        exists|s: Seq<Entry>, i: int, bits: int|
            is_aimed(
                m.nodes,
                (RefreshModel { k: m.k, expired_after, per_bucket, now, noise }),
                m.refresh(now, expired_after, per_bucket, crawl, noise).tasks[j],
                s,
                i,
                bits,
            ),
{
    let r = RefreshModel { k: m.k, expired_after, per_bucket, now, noise };
    let none: Seq<u8> = Seq::empty();
    assert(is_bucket(m.nodes, m.nodes, none, 0));
    lemma_plan_aimed(m.nodes, m.nodes, none, 0, r, j);
}

} // verus!
