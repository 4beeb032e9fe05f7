//! What the node asks of other nodes, as it shows in the packets that it sends.

use vstd::prelude::*;
use vstd::string::*;
use crate::bencode::{bytes_at, dict_at, int_at, key, list_at, BModel};
use crate::blacklist::BlackModel;
use crate::codec::{encodable, lemma_put_encodable, MAX_DEPTH};
use crate::command::CommandModel;
use crate::hexcode::{hex_text, law_unhex_hex};
use crate::keyed::{law_put_lookup, lookup, put};
use crate::krpc::{law_query_read_back, lemma_keys_differ, message_in, Pairs};
use crate::laws::{
    lemma_announcement, lemma_nodes_query, lemma_peers_query, lemma_put_len, shunned,
};
use crate::peers::{is_recent, law_newest_peers_stay, MAX_INFOHASHES};
use crate::protocol::{
    all_by_distance, answer_step, command_step, contacts, find_steps, follow_up, found_step,
    found_steps, join_steps, purpose_of, pursue_step, response_step, seek_steps, value_steps,
    ActionModel, DhtModel, Purpose, Run,
};
use crate::routing::{law_nearest, Entry};
use crate::text::{dec_text, digits, law_dec_text_injective, lemma_digits_range};
use crate::transaction::{index_key, TransModel, TxModel, MAX_TRANSACTIONS};
use crate::types::{addr_text, host_port_text, ip_text, AddrModel, IpModel, NodeModel, PeerModel};
use crate::util::{be_bytes, compact_nodes, law_be_bytes_injective};

verus! {

// ---------------------------------------------------------------------------
// The texts of addresses
// ---------------------------------------------------------------------------

pub proof fn lemma_dec_text(n: nat)
    ensures
        dec_text(n).len() > 0,
        forall|i: int|
            0 <= i < dec_text(n).len() ==> '0' <= #[trigger] dec_text(n)[i] && dec_text(n)[i] <= '9',
{
    lemma_digits_range(n);
    assert forall|i: int| 0 <= i < dec_text(n).len() implies '0' <= #[trigger] dec_text(n)[i]
        && dec_text(n)[i] <= '9' by {
        assert(digits(n)[i] <= 9);
    }
}

proof fn lemma_split_first(x: Seq<char>, u: Seq<char>, y: Seq<char>, v: Seq<char>, c: char)
    requires
        x + seq![c] + u == y + seq![c] + v,
        forall|i: int| 0 <= i < x.len() ==> #[trigger] x[i] != c,
        forall|i: int| 0 <= i < y.len() ==> #[trigger] y[i] != c,
    ensures
        x == y,
        u == v,
{
    let s = x + seq![c] + u;
    let t = y + seq![c] + v;
    if x.len() < y.len() {
        assert(s[x.len() as int] == c);
        assert(t[x.len() as int] == y[x.len() as int]);
    }
    if y.len() < x.len() {
        assert(t[y.len() as int] == c);
        assert(s[y.len() as int] == x[y.len() as int]);
    }
    assert(x =~= s.take(x.len() as int));
    assert(y =~= t.take(y.len() as int));
    assert(u =~= s.skip(x.len() as int + 1));
    assert(v =~= t.skip(y.len() as int + 1));
}

proof fn lemma_split_last(x: Seq<char>, u: Seq<char>, y: Seq<char>, v: Seq<char>, c: char)
    requires
        x + seq![c] + u == y + seq![c] + v,
        forall|i: int| 0 <= i < u.len() ==> #[trigger] u[i] != c,
        forall|i: int| 0 <= i < v.len() ==> #[trigger] v[i] != c,
    ensures
        x == y,
        u == v,
{
    let s = x + seq![c] + u;
    let t = y + seq![c] + v;
    assert(s.len() == t.len());
    if x.len() < y.len() {
        assert(t[y.len() as int] == c);
        assert(s[y.len() as int] == u[y.len() - x.len() - 1]);
    }
    if y.len() < x.len() {
        assert(s[x.len() as int] == c);
        assert(t[x.len() as int] == v[x.len() - y.len() - 1]);
    }
    assert(x =~= s.take(x.len() as int));
    assert(y =~= t.take(y.len() as int));
    assert(u =~= s.skip(x.len() as int + 1));
    assert(v =~= t.skip(y.len() as int + 1));
}

spec fn dotted(a: Seq<char>, b: Seq<char>, c: Seq<char>, d: Seq<char>) -> Seq<char> {
    a + seq!['.'] + (b + seq!['.'] + (c + seq!['.'] + d))
}

proof fn lemma_ip_text_dotted(a: u8, b: u8, c: u8, d: u8)
    ensures
        ip_text(IpModel::V4(a, b, c, d)) == dotted(
            dec_text(a as nat),
            dec_text(b as nat),
            dec_text(c as nat),
            dec_text(d as nat),
        ),
{
    assert(ip_text(IpModel::V4(a, b, c, d)) =~= dotted(
        dec_text(a as nat),
        dec_text(b as nat),
        dec_text(c as nat),
        dec_text(d as nat),
    ));
}

proof fn lemma_next_part(x: u8, u: Seq<char>, y: u8, v: Seq<char>)
    requires
        dec_text(x as nat) + seq!['.'] + u == dec_text(y as nat) + seq!['.'] + v,
    ensures
        x == y,
        u == v,
{
    lemma_dec_text(x as nat);
    lemma_dec_text(y as nat);
    lemma_split_first(dec_text(x as nat), u, dec_text(y as nat), v, '.');
    law_dec_text_injective(x as nat, y as nat);
}

proof fn lemma_ip_text_injective(a: IpModel, b: IpModel)
    requires
        a is V4,
        b is V4,
        ip_text(a) == ip_text(b),
    ensures
        a == b,
{
    if let IpModel::V4(a0, a1, a2, a3) = a {
        if let IpModel::V4(b0, b1, b2, b3) = b {
            lemma_ip_text_dotted(a0, a1, a2, a3);
            lemma_ip_text_dotted(b0, b1, b2, b3);
            let (d1, d2, d3) = (dec_text(a1 as nat), dec_text(a2 as nat), dec_text(a3 as nat));
            let (e1, e2, e3) = (dec_text(b1 as nat), dec_text(b2 as nat), dec_text(b3 as nat));
            lemma_next_part(
                a0,
                d1 + seq!['.'] + (d2 + seq!['.'] + d3),
                b0,
                e1 + seq!['.'] + (e2 + seq!['.'] + e3),
            );
            lemma_next_part(a1, d2 + seq!['.'] + d3, b1, e2 + seq!['.'] + e3);
            lemma_next_part(a2, d3, b2, e3);
            law_dec_text_injective(a3 as nat, b3 as nat);
        }
    }
}

/// Different addresses have different texts.
pub proof fn law_addr_text_injective(a: AddrModel, b: AddrModel)
    requires
        addr_text(a) == addr_text(b),
    ensures
        a == b,
{
    let p = dec_text(a.port as nat);
    let q = dec_text(b.port as nat);
    lemma_dec_text(a.port as nat);
    lemma_dec_text(b.port as nat);
    let x = match a.ip {
        IpModel::V4(..) => ip_text(a.ip),
        IpModel::V6(t) => seq!['['] + t + seq![']'],
    };
    let y = match b.ip {
        IpModel::V4(..) => ip_text(b.ip),
        IpModel::V6(t) => seq!['['] + t + seq![']'],
    };
    assert(addr_text(a) =~= x + seq![':'] + p);
    assert(addr_text(b) =~= y + seq![':'] + q);
    lemma_split_last(x, p, y, q, ':');
    law_dec_text_injective(a.port as nat, b.port as nat);
    match (a.ip, b.ip) {
        (IpModel::V4(a0, a1, a2, a3), IpModel::V4(..)) => {
            lemma_ip_text_injective(a.ip, b.ip);
        },
        (IpModel::V6(t), IpModel::V6(u)) => {
            assert(t =~= x.subrange(1, x.len() - 1));
            assert(u =~= y.subrange(1, y.len() - 1));
        },
        (IpModel::V4(a0, a1, a2, a3), IpModel::V6(u)) => {
            lemma_dec_text(a0 as nat);
            assert(x[0] == dec_text(a0 as nat)[0]);
            assert(y[0] == '[');
        },
        (IpModel::V6(t), IpModel::V4(b0, b1, b2, b3)) => {
            lemma_dec_text(b0 as nat);
            assert(y[0] == dec_text(b0 as nat)[0]);
            assert(x[0] == '[');
        },
    }
}

// ---------------------------------------------------------------------------
// Queries that wait
// ---------------------------------------------------------------------------

/// A query of one of the kinds that a node sends.
pub open spec fn is_kind(q: Seq<char>) -> bool {
    q == "ping"@ || q == "find_node"@ || q == "get_peers"@ || q == "announce_peer"@
}

proof fn lemma_kinds_apart(q: Seq<char>)
    requires
        is_kind(q),
    ensures
        forall|i: int| 0 <= i < q.len() ==> #[trigger] q[i] != ':',
{
    reveal_strlit("ping");
    reveal_strlit("find_node");
    reveal_strlit("get_peers");
    reveal_strlit("announce_peer");
}

proof fn lemma_index_key_injective(q: Seq<char>, a: AddrModel, p: Seq<char>, b: AddrModel)
    requires
        is_kind(q),
        is_kind(p),
        index_key(q, addr_text(a)) == index_key(p, addr_text(b)),
    ensures
        q == p,
        a == b,
{
    lemma_kinds_apart(q);
    lemma_kinds_apart(p);
    lemma_split_first(q, addr_text(a), p, addr_text(b), ':');
    law_addr_text_injective(a, b);
}

/// An identifier is one of the first `n` that were handed out.
pub open spec fn handed_out(id: Seq<u8>, n: nat) -> bool {
    exists|c: nat| c < n && id == #[trigger] be_bytes(c)
}

/// The table is as it is when identifiers were handed out one after another, and none twice: those
/// in use were handed out before, each query is of a known kind and found under its kind and
/// address, and no identifier is used for two queries.
pub open spec fn orderly(m: TransModel) -> bool {
    &&& m.cursor < m.max_cursor
    &&& m.entries.len() <= MAX_TRANSACTIONS
    &&& forall|i: int|
        0 <= i < m.entries.len() ==> handed_out((#[trigger] m.entries[i]).id, m.cursor as nat)
            && is_kind(m.entries[i].qtype)
    &&& forall|k: Seq<char>|
        m.index.dom().contains(k) ==> handed_out(#[trigger] m.index[k], m.cursor as nat)
    &&& forall|k: Seq<char>, i: int|
        m.index.dom().contains(k) && 0 <= i < m.entries.len() && #[trigger] m.index[k] == (
        #[trigger] m.entries[i]).id ==> k == index_key(
            m.entries[i].qtype,
            addr_text(m.entries[i].addr),
        )
    &&& forall|i: int, j: int|
        0 <= i < j < m.entries.len() ==> (#[trigger] m.entries[i]).id != (
        #[trigger] m.entries[j]).id
}

/// A query of a kind waits for its answer from an address.
pub open spec fn waits(m: TransModel, q: Seq<char>, a: AddrModel) -> bool {
    exists|i: int|
        0 <= i < m.entries.len() && (#[trigger] m.entries[i]).qtype == q && m.entries[i].addr == a
}

pub proof fn lemma_get(m: TransModel, id: Seq<u8>)
    ensures
        match m.get(id) {
            Some(x) => x.id == id && m.entries.contains(x),
            None => forall|i: int| 0 <= i < m.entries.len() ==> (#[trigger] m.entries[i]).id != id,
        },
{
    crate::transaction::lemma_place(m.entries, id);
}

pub proof fn lemma_no_query_waits(m: TransModel, q: Seq<char>, a: AddrModel)
    requires
        orderly(m),
        is_kind(q),
        !waits(m, q, a),
    ensures
        m.get_at(q, addr_text(a)) is None,
{
    let k = index_key(q, addr_text(a));
    if m.index.dom().contains(k) {
        let id = m.index[k];
        lemma_get(m, id);
        if let Some(x) = m.get(id) {
            let i = choose|i: int| 0 <= i < m.entries.len() && m.entries[i] == x;
            assert(m.index[k] == m.entries[i].id);
            lemma_index_key_injective(q, a, x.qtype, x.addr);
            assert(waits(m, q, a));
        }
    }
}

proof fn lemma_next_id(m: TransModel)
    requires
        orderly(m),
    ensures
        m.next_id() == be_bytes(m.cursor as nat),
        !handed_out(m.next_id(), m.cursor as nat),
{
    assert(m.cursor % m.max_cursor == m.cursor) by (nonlinear_arith)
        requires
            0 <= m.cursor < m.max_cursor,
    ;
    if handed_out(m.next_id(), m.cursor as nat) {
        let c = choose|c: nat| c < m.cursor && m.next_id() == #[trigger] be_bytes(c);
        law_be_bytes_injective(c, m.cursor as nat);
    }
}

proof fn lemma_handed_out_later(id: Seq<u8>, n: nat, k: nat)
    requires
        handed_out(id, n),
        n <= k,
    ensures
        handed_out(id, k),
{
    let c = choose|c: nat| c < n && id == #[trigger] be_bytes(c);
    assert(c < k && id == be_bytes(c));
}

/// A query that is sent waits from then on for its answer, all others wait as before, and the table
/// stays orderly.
pub proof fn law_begun_query_waits(m: TransModel, x: TxModel)
    requires
        orderly(m),
        m.cursor + 1 < m.max_cursor,
        m.entries.len() < MAX_TRANSACTIONS,
        x.id == m.next_id(),
        is_kind(x.qtype),
    ensures
        orderly(m.advanced().begun(x)),
        m.advanced().begun(x).cursor == m.cursor + 1,
        m.advanced().begun(x).max_cursor == m.max_cursor,
        m.advanced().begun(x).entries == m.entries.push(x),
{
    lemma_next_id(m);
    let b = m.advanced().begun(x);
    lemma_get(m, x.id);
    crate::transaction::lemma_place(m.entries, x.id);
    if let Some(y) = m.get(x.id) {
        let i = choose|i: int| 0 <= i < m.entries.len() && m.entries[i] == y;
        assert(handed_out(m.entries[i].id, m.cursor as nat));
    }
    assert(b.entries == m.entries.push(x));
    let n = b.cursor as nat;
    assert(x.id == be_bytes(m.cursor as nat));
    assert forall|i: int| 0 <= i < b.entries.len() implies handed_out(
        (#[trigger] b.entries[i]).id,
        n,
    ) && is_kind(b.entries[i].qtype) by {
        if i < m.entries.len() {
            assert(b.entries[i] == m.entries[i]);
            lemma_handed_out_later(m.entries[i].id, m.cursor as nat, n);
        }
    }
    assert forall|k: Seq<char>| b.index.dom().contains(k) implies handed_out(
        #[trigger] b.index[k],
        n,
    ) by {
        if k != index_key(x.qtype, addr_text(x.addr)) {
            assert(b.index[k] == m.index[k]);
            lemma_handed_out_later(m.index[k], m.cursor as nat, n);
        }
    }
    assert forall|k: Seq<char>, i: int|
        b.index.dom().contains(k) && 0 <= i < b.entries.len() && #[trigger] b.index[k] == (
        #[trigger] b.entries[i]).id implies k == index_key(
        b.entries[i].qtype,
        addr_text(b.entries[i].addr),
    ) by {
        let kx = index_key(x.qtype, addr_text(x.addr));
        if k == kx {
            if i < m.entries.len() {
                assert(b.entries[i] == m.entries[i]);
                assert(handed_out(m.entries[i].id, m.cursor as nat));
            }
        } else {
            assert(b.index[k] == m.index[k]);
            assert(handed_out(m.index[k], m.cursor as nat));
            if i < m.entries.len() {
                assert(b.entries[i] == m.entries[i]);
            }
        }
    }
    assert forall|i: int, j: int| 0 <= i < j < b.entries.len() implies (#[trigger] b.entries[i]).id
        != (#[trigger] b.entries[j]).id by {
        assert(b.entries[i] == m.entries[i]);
        if j < m.entries.len() {
            assert(b.entries[j] == m.entries[j]);
        } else {
            assert(handed_out(m.entries[i].id, m.cursor as nat));
        }
    }
}

/// The end of a transaction leaves all others alone, and the table stays orderly.
pub proof fn law_ended_query_waits_no_more(m: TransModel, t: Seq<u8>)
    requires
        orderly(m),
    ensures
        orderly(m.finished(t)),
        m.finished(t).cursor == m.cursor,
        m.finished(t).max_cursor == m.max_cursor,
        m.finished(t).entries.len() <= m.entries.len(),
        forall|x: TxModel|
            #[trigger] m.finished(t).entries.contains(x) <==> m.entries.contains(x) && x.id != t,
{
    crate::transaction::lemma_place(m.entries, t);
    let b = m.finished(t);
    let at = crate::transaction::place(m.entries, t);
    if at < m.entries.len() {
        assert forall|i: int| 0 <= i < b.entries.len() implies #[trigger] b.entries[i]
            == m.entries[if i < at {
            i
        } else {
            i + 1
        }] by {}
    }
    assert forall|x: TxModel| #[trigger] b.entries.contains(x) <==> m.entries.contains(x) && x.id
        != t by {
        if b.entries.contains(x) {
            let i = choose|i: int| 0 <= i < b.entries.len() && b.entries[i] == x;
            if at < m.entries.len() {
                let j = if i < at {
                    i
                } else {
                    i + 1
                };
                assert(m.entries[j] == x);
                assert(m.entries[at].id == t);
            } else {
                assert(m.entries[i] == x);
            }
        }
        if m.entries.contains(x) && x.id != t {
            let i = choose|i: int| 0 <= i < m.entries.len() && m.entries[i] == x;
            if at < m.entries.len() {
                if i < at {
                    assert(b.entries[i] == x);
                } else {
                    assert(b.entries[i - 1] == x);
                }
            } else {
                assert(b.entries[i] == x);
            }
        }
    }
    if at < m.entries.len() {
        assert forall|i: int, j: int| 0 <= i < j < b.entries.len() implies (
        #[trigger] b.entries[i]).id != (#[trigger] b.entries[j]).id by {
            let p = if i < at {
                i
            } else {
                i + 1
            };
            let q = if j < at {
                j
            } else {
                j + 1
            };
            assert(b.entries[i] == m.entries[p]);
            assert(b.entries[j] == m.entries[q]);
        }
        assert forall|i: int| 0 <= i < b.entries.len() implies handed_out(
            (#[trigger] b.entries[i]).id,
            b.cursor as nat,
        ) && is_kind(b.entries[i].qtype) by {
            let p = if i < at {
                i
            } else {
                i + 1
            };
            assert(b.entries[i] == m.entries[p]);
        }
        assert forall|k: Seq<char>, i: int|
            b.index.dom().contains(k) && 0 <= i < b.entries.len() && #[trigger] b.index[k] == (
            #[trigger] b.entries[i]).id implies k == index_key(
            b.entries[i].qtype,
            addr_text(b.entries[i].addr),
        ) by {
            let p = if i < at {
                i
            } else {
                i + 1
            };
            assert(b.entries[i] == m.entries[p]);
            assert(m.index[k] == m.entries[p].id);
        }
    }
}

// ---------------------------------------------------------------------------
// Queries that are sent
// ---------------------------------------------------------------------------

/// A query as it is read from a packet: its transaction, its kind and its arguments.
pub struct Query {
    pub t: Seq<u8>,
    pub q: Seq<u8>,
    pub args: Pairs,
}

/// The query that is sent to an address, where an action sends one there.
pub open spec fn query_at(a: ActionModel, addr: AddrModel) -> Option<Query> {
    match a {
        ActionModel::Send { addr: to, buf } => match message_in(buf) {
            Some(m) => match (bytes_at(m.body, "q"@), dict_at(m.body, "a"@)) {
                (Some(q), Some(args)) => if to == addr && m.y == "q"@ {
                    Some(Query { t: m.t, q, args })
                } else {
                    None
                },
                _ => None,
            },
            None => None,
        },
        _ => None,
    }
}

/// An action sends a query of a kind to an address.
pub open spec fn is_query(a: ActionModel, addr: AddrModel, q: Seq<char>) -> bool {
    query_at(a, addr) is Some && query_at(a, addr)->0.q == key(q)
}

/// An action sends a query of a kind to an address, with bytes under a name, and tells who asks.
pub open spec fn asks_for(
    a: ActionModel,
    addr: AddrModel,
    q: Seq<char>,
    name: Seq<char>,
    v: Seq<u8>,
) -> bool {
    &&& is_query(a, addr, q)
    &&& bytes_at(query_at(a, addr)->0.args, name) == Some(v)
    &&& bytes_at(query_at(a, addr)->0.args, "id"@) is Some
}

/// Among what is added to be done there is exactly one query of a kind to an address, and it asks
/// for `v`.
pub open spec fn asks_once(
    a: Run,
    b: Run,
    addr: AddrModel,
    q: Seq<char>,
    name: Seq<char>,
    v: Seq<u8>,
) -> bool {
    &&& exists|i: int|
        a.out.len() <= i < b.out.len() && #[trigger] asks_for(b.out[i], addr, q, name, v)
    &&& forall|i: int, j: int|
        a.out.len() <= i < b.out.len() && a.out.len() <= j < b.out.len() && #[trigger] is_query(
            b.out[i],
            addr,
            q,
        ) && #[trigger] is_query(b.out[j], addr, q) ==> i == j
}

/// Among what is added to be done there is no query of a kind to an address.
pub open spec fn asks_not(a: Run, b: Run, addr: AddrModel, q: Seq<char>) -> bool {
    forall|i: int| a.out.len() <= i < b.out.len() ==> !#[trigger] is_query(b.out[i], addr, q)
}

/// A query for `v` is noted: it went to an address, and waits.
pub open spec fn is_noted(
    m: TransModel,
    addr: AddrModel,
    q: Seq<char>,
    name: Seq<char>,
    v: Seq<u8>,
) -> bool {
    exists|x: TxModel| #[trigger]
        m.entries.contains(x) && x.addr == addr && x.qtype == q && (if name == "info_hash"@ {
            x.info_hash == Some(v)
        } else {
            x.target == Some(v)
        })
}

pub proof fn lemma_asks_reads(
    r: Run,
    addr: AddrModel,
    q: Seq<char>,
    args: Pairs,
    info_hash: Option<Seq<u8>>,
    target: Option<Seq<u8>>,
    port: Option<u16>,
    now: u64,
    other: AddrModel,
)
    requires
        encodable(BModel::Dict(args), (MAX_DEPTH - 1) as nat),
    ensures
        ({
            let b = r.asks(addr, q, args, info_hash, target, port, now);
            let a = b.out.last();
            &&& b.out == r.out.push(a)
            &&& query_at(a, addr) == Some(Query { t: r.d.trans.next_id(), q: key(q), args })
            &&& other != addr ==> query_at(a, other) is None
        }),
{
    law_query_read_back(r.d.trans.next_id(), q, args);
}

pub proof fn lemma_kinds_differ(p: Seq<char>, q: Seq<char>)
    requires
        p != q,
    ensures
        key(p) != key(q),
{
    lemma_keys_differ(p, q);
}

/// How far the nodes that were named have been asked: of the address `at` nothing was asked yet, or
/// `v` was, once, and the query waits.
spec fn pursued(
    a: Run,
    b: Run,
    at: AddrModel,
    q: Seq<char>,
    name: Seq<char>,
    v: Seq<u8>,
    sent: bool,
    n: nat,
) -> bool {
    &&& b.d.cfg == a.d.cfg
    &&& b.d.blacklist == a.d.blacklist
    &&& b.d.callbacks == a.d.callbacks
    &&& b.d.self_id == a.d.self_id
    &&& orderly(b.d.trans)
    &&& a.d.trans.cursor <= b.d.trans.cursor <= a.d.trans.cursor + n
    &&& b.d.trans.max_cursor == a.d.trans.max_cursor
    &&& b.d.trans.entries.len() <= a.d.trans.entries.len() + n
    &&& a.out.len() <= b.out.len()
    &&& forall|i: int| 0 <= i < a.out.len() ==> #[trigger] b.out[i] == a.out[i]
    &&& forall|x: TxModel| #[trigger]
        a.d.trans.entries.contains(x) ==> b.d.trans.entries.contains(x)
    &&& if sent {
        &&& asks_once(a, b, at, q, name, v)
        &&& exists|x: TxModel| #[trigger] awaited(a, b, at, q, name, v, x)
    } else {
        &&& asks_not(a, b, at, q)
        &&& !waits(b.d.trans, q, at)
    }
}

spec fn awaited(
    a: Run,
    b: Run,
    at: AddrModel,
    q: Seq<char>,
    name: Seq<char>,
    v: Seq<u8>,
    x: TxModel,
) -> bool {
    &&& b.d.trans.entries.contains(x)
    &&& x.addr == at
    &&& x.qtype == q
    &&& (if name == "info_hash"@ {
        x.info_hash == Some(v)
    } else {
        x.target == Some(v)
    })
    &&& !handed_out(x.id, a.d.trans.cursor as nat)
    &&& b.d.trans.index.dom().contains(index_key(q, addr_text(at)))
    &&& b.d.trans.index[index_key(q, addr_text(at))] == x.id
}

proof fn lemma_awaited_is_found(m: TransModel, x: TxModel, q: Seq<char>, at: AddrModel)
    requires
        orderly(m),
        m.entries.contains(x),
        m.index.dom().contains(index_key(q, addr_text(at))),
        m.index[index_key(q, addr_text(at))] == x.id,
    ensures
        m.get_at(q, addr_text(at)) is Some,
{
    lemma_get(m, x.id);
    let i = choose|i: int| 0 <= i < m.entries.len() && m.entries[i] == x;
    assert(m.entries[i].id == x.id);
}

proof fn lemma_still_unasked(m: TransModel, x: TxModel, q: Seq<char>, at: AddrModel)
    requires
        !waits(m, q, at),
        x.qtype != q || x.addr != at,
    ensures
        forall|n: TransModel| #[trigger]
            waits(n, q, at) ==> n.entries != m.entries.push(x),
{
    assert forall|n: TransModel| #[trigger] waits(n, q, at) implies n.entries != m.entries.push(
        x,
    ) by {
        if n.entries == m.entries.push(x) {
            let i = choose|i: int|
                0 <= i < n.entries.len() && (#[trigger] n.entries[i]).qtype == q
                    && n.entries[i].addr == at;
            if i < m.entries.len() {
                assert(m.entries[i] == n.entries[i]);
                assert(waits(m, q, at));
            }
        }
    }
}

/// Another query is sent: of another kind, or to another address.
proof fn lemma_pursued_other(
    a: Run,
    b: Run,
    at: AddrModel,
    q: Seq<char>,
    name: Seq<char>,
    v: Seq<u8>,
    sent: bool,
    n: nat,
    addr: AddrModel,
    p: Seq<char>,
    args: Pairs,
    info_hash: Option<Seq<u8>>,
    target: Option<Seq<u8>>,
    port: Option<u16>,
    now: u64,
)
    requires
        pursued(a, b, at, q, name, v, sent, n),
        is_kind(p),
        is_kind(q),
        p != q || addr != at,
        encodable(BModel::Dict(args), (MAX_DEPTH - 1) as nat),
        a.d.trans.cursor + n + 1 < a.d.trans.max_cursor,
        a.d.trans.entries.len() + n < MAX_TRANSACTIONS,
    ensures
        pursued(
            a,
            b.asks(addr, p, args, info_hash, target, port, now),
            at,
            q,
            name,
            v,
            sent,
            n + 1,
        ),
{
    let c = b.asks(addr, p, args, info_hash, target, port, now);
    lemma_asks_reads(b, addr, p, args, info_hash, target, port, now, at);
    let tx = TxModel {
        id: b.d.trans.next_id(),
        addr,
        qtype: p,
        responder: None,
        info_hash,
        target,
        announce_port: port,
        announce_implied_port: false,
        created_at: now,
        retries: 0,
    };
    law_begun_query_waits(b.d.trans, tx);
    assert(c.d.trans == b.d.trans.advanced().begun(tx));
    if p != q {
        lemma_kinds_differ(p, q);
    }
    let last = c.out.last();
    assert(!is_query(last, at, q));
    assert forall|i: int| 0 <= i < a.out.len() implies #[trigger] c.out[i] == a.out[i] by {
        assert(b.out[i] == a.out[i]);
    }
    assert forall|y: TxModel| #[trigger] a.d.trans.entries.contains(y) implies c.d.trans.entries.contains(
        y,
    ) by {
        let i = choose|i: int| 0 <= i < b.d.trans.entries.len() && b.d.trans.entries[i] == y;
        assert(c.d.trans.entries[i] == y);
    }
    if sent {
        let i = choose|i: int|
            a.out.len() <= i < b.out.len() && #[trigger] asks_for(b.out[i], at, q, name, v);
        assert(asks_for(c.out[i], at, q, name, v));
        assert forall|i: int, j: int|
            a.out.len() <= i < c.out.len() && a.out.len() <= j < c.out.len() && #[trigger] is_query(
                c.out[i],
                at,
                q,
            ) && #[trigger] is_query(c.out[j], at, q) implies i == j by {
            assert(i < b.out.len() && j < b.out.len());
            assert(is_query(b.out[i], at, q) && is_query(b.out[j], at, q));
        }
        let y = choose|y: TxModel| #[trigger] awaited(a, b, at, q, name, v, y);
        let i = choose|i: int| 0 <= i < b.d.trans.entries.len() && b.d.trans.entries[i] == y;
        assert(c.d.trans.entries[i] == y);
        if index_key(p, addr_text(addr)) == index_key(q, addr_text(at)) {
            lemma_index_key_injective(p, addr, q, at);
        }
        assert(awaited(a, c, at, q, name, v, y));
    } else {
        assert forall|i: int| a.out.len() <= i < c.out.len() implies !#[trigger] is_query(
            c.out[i],
            at,
            q,
        ) by {
            if i < b.out.len() {
                assert(c.out[i] == b.out[i]);
                assert(!is_query(b.out[i], at, q));
            }
        }
        lemma_still_unasked(b.d.trans, tx, q, at);
    }
}

/// The address is asked for what is sought.
proof fn lemma_pursued_itself(
    a: Run,
    b: Run,
    at: AddrModel,
    q: Seq<char>,
    name: Seq<char>,
    v: Seq<u8>,
    n: nat,
    args: Pairs,
    info_hash: Option<Seq<u8>>,
    target: Option<Seq<u8>>,
    port: Option<u16>,
    now: u64,
)
    requires
        pursued(a, b, at, q, name, v, false, n),
        is_kind(q),
        encodable(BModel::Dict(args), (MAX_DEPTH - 1) as nat),
        bytes_at(args, name) == Some(v),
        bytes_at(args, "id"@) is Some,
        if name == "info_hash"@ {
            info_hash == Some(v)
        } else {
            target == Some(v)
        },
        a.d.trans.cursor + n + 1 < a.d.trans.max_cursor,
        a.d.trans.entries.len() + n < MAX_TRANSACTIONS,
    ensures
        pursued(a, b.asks(at, q, args, info_hash, target, port, now), at, q, name, v, true, n + 1),
{
    let c = b.asks(at, q, args, info_hash, target, port, now);
    lemma_asks_reads(b, at, q, args, info_hash, target, port, now, at);
    let tx = TxModel {
        id: b.d.trans.next_id(),
        addr: at,
        qtype: q,
        responder: None,
        info_hash,
        target,
        announce_port: port,
        announce_implied_port: false,
        created_at: now,
        retries: 0,
    };
    law_begun_query_waits(b.d.trans, tx);
    assert(c.d.trans == b.d.trans.advanced().begun(tx));
    assert forall|i: int| 0 <= i < a.out.len() implies #[trigger] c.out[i] == a.out[i] by {
        assert(b.out[i] == a.out[i]);
    }
    assert forall|y: TxModel| #[trigger] a.d.trans.entries.contains(y) implies c.d.trans.entries.contains(
        y,
    ) by {
        let i = choose|i: int| 0 <= i < b.d.trans.entries.len() && b.d.trans.entries[i] == y;
        assert(c.d.trans.entries[i] == y);
    }
    let last = c.out.len() - 1;
    assert(asks_for(c.out[last], at, q, name, v));
    assert forall|i: int, j: int|
        a.out.len() <= i < c.out.len() && a.out.len() <= j < c.out.len() && #[trigger] is_query(
            c.out[i],
            at,
            q,
        ) && #[trigger] is_query(c.out[j], at, q) implies i == j by {
        if i < last {
            assert(c.out[i] == b.out[i]);
            assert(!is_query(b.out[i], at, q));
        }
        if j < last {
            assert(c.out[j] == b.out[j]);
            assert(!is_query(b.out[j], at, q));
        }
    }
    lemma_next_id(b.d.trans);
    if handed_out(tx.id, a.d.trans.cursor as nat) {
        lemma_handed_out_later(tx.id, a.d.trans.cursor as nat, b.d.trans.cursor as nat);
    }
    assert(c.d.trans.entries.last() == tx);
    assert(awaited(a, c, at, q, name, v, tx));
}

/// What has nothing to do with queries changes nothing.
proof fn lemma_pursued_quiet(
    a: Run,
    b: Run,
    c: Run,
    at: AddrModel,
    q: Seq<char>,
    name: Seq<char>,
    v: Seq<u8>,
    sent: bool,
    n: nat,
    k: nat,
)
    requires
        pursued(a, b, at, q, name, v, sent, n),
        n <= k,
        c.d.cfg == b.d.cfg,
        c.d.blacklist == b.d.blacklist,
        c.d.callbacks == b.d.callbacks,
        c.d.self_id == b.d.self_id,
        c.d.trans == b.d.trans,
        b.out.len() <= c.out.len(),
        forall|i: int| 0 <= i < b.out.len() ==> #[trigger] c.out[i] == b.out[i],
        forall|i: int| b.out.len() <= i < c.out.len() ==> !(#[trigger] c.out[i] is Send),
    ensures
        pursued(a, c, at, q, name, v, sent, k),
{
    assert forall|i: int| 0 <= i < a.out.len() implies #[trigger] c.out[i] == a.out[i] by {
        assert(b.out[i] == a.out[i]);
    }
    assert forall|i: int| b.out.len() <= i < c.out.len() implies !#[trigger] is_query(
        c.out[i],
        at,
        q,
    ) by {
        assert(!(c.out[i] is Send));
    }
    if sent {
        let i = choose|i: int|
            a.out.len() <= i < b.out.len() && #[trigger] asks_for(b.out[i], at, q, name, v);
        assert(asks_for(c.out[i], at, q, name, v));
        assert forall|i: int, j: int|
            a.out.len() <= i < c.out.len() && a.out.len() <= j < c.out.len() && #[trigger] is_query(
                c.out[i],
                at,
                q,
            ) && #[trigger] is_query(c.out[j], at, q) implies i == j by {
            assert(i < b.out.len() && j < b.out.len());
            assert(is_query(b.out[i], at, q) && is_query(b.out[j], at, q));
        }
        let y = choose|y: TxModel| #[trigger] awaited(a, b, at, q, name, v, y);
        assert(awaited(a, c, at, q, name, v, y));
    } else {
        assert forall|i: int| a.out.len() <= i < c.out.len() implies !#[trigger] is_query(
            c.out[i],
            at,
            q,
        ) by {
            if i < b.out.len() {
                assert(c.out[i] == b.out[i]);
                assert(!is_query(b.out[i], at, q));
            }
        }
        assert(!waits(c.d.trans, q, at));
    }
}

/// What an answer is worth: it goes on to a search for peers, or to one for nodes.
pub open spec fn aims(p: Purpose, q: Seq<char>, name: Seq<char>, v: Seq<u8>) -> bool {
    ||| q == "get_peers"@ && name == "info_hash"@ && p.info_hash == Some(v)
    ||| q == "find_node"@ && name == "target"@ && p.finding && p.target == Some(v)
}

proof fn lemma_aims(p: Purpose, q: Seq<char>, name: Seq<char>, v: Seq<u8>)
    requires
        aims(p, q, name, v),
    ensures
        is_kind(q),
        is_kind("get_peers"@),
        is_kind("find_node"@),
        "get_peers"@ != "find_node"@,
        "info_hash"@ != "target"@,
{
    reveal_strlit("get_peers");
    reveal_strlit("find_node");
    reveal_strlit("info_hash");
    reveal_strlit("target");
    assert("get_peers"@[0] != "find_node"@[0]);
    assert("info_hash"@[0] != "target"@[0]);
}

/// The first half of what follows for a node that was named: it is asked for peers.
spec fn sought(r: Run, addr: AddrModel, p: Purpose, now: u64) -> Run {
    match p.info_hash {
        Some(ih) => if r.d.trans.get_at("get_peers"@, addr_text(addr)) is None {
            r.asks_get_peers(addr, ih, None, now)
        } else {
            r
        },
        None => r,
    }
}

/// The second half: it is asked for nodes.
spec fn explored(r: Run, addr: AddrModel, p: Purpose, now: u64) -> Run {
    match p.target {
        Some(target) => if p.finding && r.d.trans.get_at("find_node"@, addr_text(addr)) is None {
            r.asks_find_node(addr, target, now)
        } else {
            r
        },
        None => r,
    }
}

proof fn lemma_pursued_sought(
    a: Run,
    b: Run,
    at: AddrModel,
    q: Seq<char>,
    name: Seq<char>,
    v: Seq<u8>,
    sent: bool,
    n: nat,
    addr: AddrModel,
    p: Purpose,
    now: u64,
)
    requires
        pursued(a, b, at, q, name, v, sent, n),
        aims(p, q, name, v),
        a.d.trans.cursor + n + 1 < a.d.trans.max_cursor,
        a.d.trans.entries.len() + n < MAX_TRANSACTIONS,
    ensures
        pursued(
            a,
            sought(b, addr, p, now),
            at,
            q,
            name,
            v,
            sent || (q == "get_peers"@ && addr == at),
            n + 1,
        ),
{
    lemma_aims(p, q, name, v);
    lemma_pursued_quiet(a, b, b, at, q, name, v, sent, n, n + 1);
    if let Some(ih) = p.info_hash {
        let args = b.d.get_peers_args(ih);
        lemma_peers_query(b.d.id_for(Some(ih)), ih);
        if q == "get_peers"@ && addr == at {
            if sent {
                let x = choose|x: TxModel| #[trigger] awaited(a, b, at, q, name, v, x);
                lemma_awaited_is_found(b.d.trans, x, q, at);
            } else {
                lemma_no_query_waits(b.d.trans, q, at);
                lemma_pursued_itself(
                    a,
                    b,
                    at,
                    q,
                    name,
                    v,
                    n,
                    args,
                    Some(ih),
                    None,
                    None,
                    now,
                );
            }
        } else if b.d.trans.get_at("get_peers"@, addr_text(addr)) is None {
            lemma_pursued_other(
                a,
                b,
                at,
                q,
                name,
                v,
                sent,
                n,
                addr,
                "get_peers"@,
                args,
                Some(ih),
                None,
                None,
                now,
            );
        }
    }
}

proof fn lemma_pursued_explored(
    a: Run,
    b: Run,
    at: AddrModel,
    q: Seq<char>,
    name: Seq<char>,
    v: Seq<u8>,
    sent: bool,
    n: nat,
    addr: AddrModel,
    p: Purpose,
    now: u64,
)
    requires
        pursued(a, b, at, q, name, v, sent, n),
        aims(p, q, name, v),
        a.d.trans.cursor + n + 1 < a.d.trans.max_cursor,
        a.d.trans.entries.len() + n < MAX_TRANSACTIONS,
    ensures
        pursued(
            a,
            explored(b, addr, p, now),
            at,
            q,
            name,
            v,
            sent || (q == "find_node"@ && addr == at),
            n + 1,
        ),
{
    lemma_aims(p, q, name, v);
    lemma_pursued_quiet(a, b, b, at, q, name, v, sent, n, n + 1);
    if let Some(target) = p.target {
        if p.finding {
            let args = b.d.find_node_args(target);
            lemma_nodes_query(b.d.id_for(None), target);
            if q == "find_node"@ && addr == at {
                if sent {
                    let x = choose|x: TxModel| #[trigger] awaited(a, b, at, q, name, v, x);
                    lemma_awaited_is_found(b.d.trans, x, q, at);
                } else {
                    lemma_no_query_waits(b.d.trans, q, at);
                    lemma_pursued_itself(
                        a,
                        b,
                        at,
                        q,
                        name,
                        v,
                        n,
                        args,
                        None,
                        Some(target),
                        None,
                        now,
                    );
                }
            } else if b.d.trans.get_at("find_node"@, addr_text(addr)) is None {
                lemma_pursued_other(
                    a,
                    b,
                    at,
                    q,
                    name,
                    v,
                    sent,
                    n,
                    addr,
                    "find_node"@,
                    args,
                    None,
                    Some(target),
                    None,
                    now,
                );
            }
        }
    }
}

proof fn lemma_pursued_found(
    a: Run,
    b: Run,
    at: AddrModel,
    q: Seq<char>,
    name: Seq<char>,
    v: Seq<u8>,
    sent: bool,
    n: nat,
    f: (Seq<u8>, IpModel, u16),
    p: Purpose,
    now: u64,
)
    requires
        pursued(a, b, at, q, name, v, sent, n),
        aims(p, q, name, v),
        f.1 is V4,
        !shunned(a.d, at),
        b.d.routing.nodes.len() < b.d.cfg.max_nodes,
        a.d.trans.cursor + n + 2 < a.d.trans.max_cursor,
        a.d.trans.entries.len() + n + 1 < MAX_TRANSACTIONS,
    ensures
        pursued(
            a,
            found_step(b, f, p, now),
            at,
            q,
            name,
            v,
            sent || (AddrModel { ip: f.1, port: f.2 }) == at,
            n + 2,
        ),
        found_step(b, f, p, now).d.routing.nodes.len() <= b.d.routing.nodes.len() + 1,
{
    let addr = AddrModel { ip: f.1, port: f.2 };
    lemma_aims(p, q, name, v);
    lemma_pursued_quiet(a, b, b, at, q, name, v, sent, n, n + 2);
    if !b.d.blacklist.has(ip_text(f.1), Some(f.2)) {
        let r1 = b.enters(f.0, addr, now);
        lemma_put_len(
            b.d.routing.nodes,
            f.0,
            crate::types::NodeModel { id: f.0, addr, last_active: now },
        );
        let r2 = r1.tells(
            b.d.callbacks.on_node,
            ActionModel::Node {
                id: crate::hexcode::hex_text(f.0),
                ip: ip_text(f.1),
                port: f.2,
            },
        );
        lemma_pursued_quiet(a, b, r2, at, q, name, v, sent, n, n);
        let r3 = sought(r2, addr, p, now);
        lemma_pursued_sought(a, r2, at, q, name, v, sent, n, addr, p, now);
        let now_sent = sent || (q == "get_peers"@ && addr == at);
        let r4 = explored(r3, addr, p, now);
        lemma_pursued_explored(a, r3, at, q, name, v, now_sent, n + 1, addr, p, now);
        assert(pursue_step(r2, addr, p, now) == r4);
    }
}

proof fn lemma_pursued_all(
    a: Run,
    s: Seq<(Seq<u8>, IpModel, u16)>,
    at: AddrModel,
    q: Seq<char>,
    name: Seq<char>,
    v: Seq<u8>,
    p: Purpose,
    now: u64,
)
    requires
        orderly(a.d.trans),
        !waits(a.d.trans, q, at),
        aims(p, q, name, v),
        !shunned(a.d, at),
        forall|i: int| 0 <= i < s.len() ==> (#[trigger] s[i]).1 is V4,
        a.d.routing.nodes.len() + s.len() <= a.d.cfg.max_nodes,
        a.d.trans.cursor + 2 * s.len() < a.d.trans.max_cursor,
        a.d.trans.entries.len() + 2 * s.len() <= MAX_TRANSACTIONS,
    ensures
        pursued(
            a,
            found_steps(a, s, p, now),
            at,
            q,
            name,
            v,
            exists|i: int|
                0 <= i < s.len() && #[trigger] s[i].1 == at.ip && s[i].2 == at.port,
            2 * s.len(),
        ),
        found_steps(a, s, p, now).d.routing.nodes.len() <= a.d.routing.nodes.len() + s.len(),
    decreases s.len(),
{
    if s.len() > 0 {
        let front = s.drop_last();
        assert forall|i: int| 0 <= i < front.len() implies (#[trigger] front[i]).1 is V4 by {
            assert(front[i] == s[i]);
        }
        lemma_pursued_all(a, front, at, q, name, v, p, now);
        let b = found_steps(a, front, p, now);
        let before = exists|i: int|
            0 <= i < front.len() && #[trigger] front[i].1 == at.ip && front[i].2 == at.port;
        assert(s[s.len() - 1].1 is V4);
        lemma_pursued_found(a, b, at, q, name, v, before, 2 * front.len(), s.last(), p, now);
        let f = s.last();
        let after = exists|i: int|
            0 <= i < s.len() && #[trigger] s[i].1 == at.ip && s[i].2 == at.port;
        assert(after == (before || (AddrModel { ip: f.1, port: f.2 }) == at)) by {
            if before {
                let i = choose|i: int|
                    0 <= i < front.len() && #[trigger] front[i].1 == at.ip && front[i].2 == at.port;
                assert(s[i].1 == at.ip && s[i].2 == at.port);
            }
            if (AddrModel { ip: f.1, port: f.2 }) == at {
                assert(s[s.len() - 1].1 == at.ip && s[s.len() - 1].2 == at.port);
            }
            if after {
                let i = choose|i: int|
                    0 <= i < s.len() && #[trigger] s[i].1 == at.ip && s[i].2 == at.port;
                if i < s.len() - 1 {
                    assert(front[i].1 == at.ip && front[i].2 == at.port);
                }
            }
        }
    }
}

// ---------------------------------------------------------------------------
// Answers to searches
// ---------------------------------------------------------------------------

/// What is added to be done holds no query of a kind, to whatever address.
pub open spec fn asks_nobody(a: Run, b: Run, q: Seq<char>) -> bool {
    &&& a.out.len() <= b.out.len()
    &&& forall|i: int| 0 <= i < a.out.len() ==> #[trigger] b.out[i] == a.out[i]
    &&& forall|i: int, addr: AddrModel|
        a.out.len() <= i < b.out.len() ==> !#[trigger] is_query(b.out[i], addr, q)
}

proof fn lemma_asks_nobody_trans(a: Run, b: Run, c: Run, q: Seq<char>)
    requires
        asks_nobody(a, b, q),
        asks_nobody(b, c, q),
    ensures
        asks_nobody(a, c, q),
{
    assert forall|i: int| 0 <= i < a.out.len() implies #[trigger] c.out[i] == a.out[i] by {
        assert(b.out[i] == a.out[i]);
    }
    assert forall|i: int, addr: AddrModel| a.out.len() <= i < c.out.len() implies !#[trigger] is_query(
        c.out[i],
        addr,
        q,
    ) by {
        if i < b.out.len() {
            assert(c.out[i] == b.out[i]);
            assert(!is_query(b.out[i], addr, q));
        }
    }
}

proof fn lemma_asks_other_kind(
    r: Run,
    addr: AddrModel,
    p: Seq<char>,
    args: Pairs,
    info_hash: Option<Seq<u8>>,
    target: Option<Seq<u8>>,
    port: Option<u16>,
    now: u64,
    q: Seq<char>,
)
    requires
        p != q,
        encodable(BModel::Dict(args), (MAX_DEPTH - 1) as nat),
    ensures
        asks_nobody(r, r.asks(addr, p, args, info_hash, target, port, now), q),
{
    let b = r.asks(addr, p, args, info_hash, target, port, now);
    lemma_kinds_differ(p, q);
    assert forall|i: int, x: AddrModel| r.out.len() <= i < b.out.len() implies !#[trigger] is_query(
        b.out[i],
        x,
        q,
    ) by {
        lemma_asks_reads(r, addr, p, args, info_hash, target, port, now, x);
    }
}

proof fn lemma_found_asks_no_announcement(
    r: Run,
    s: Seq<(Seq<u8>, IpModel, u16)>,
    p: Purpose,
    now: u64,
)
    ensures
        asks_nobody(r, found_steps(r, s, p, now), "announce_peer"@),
        asks_nobody(r, found_steps(r, s, p, now), "ping"@),
    decreases s.len(),
{
    if s.len() > 0 {
        let b = found_steps(r, s.drop_last(), p, now);
        lemma_found_asks_no_announcement(r, s.drop_last(), p, now);
        let f = s.last();
        let addr = AddrModel { ip: f.1, port: f.2 };
        let c = found_step(b, f, p, now);
        let r2 = b.enters(f.0, addr, now).tells(
            b.d.callbacks.on_node,
            ActionModel::Node {
                id: crate::hexcode::hex_text(f.0),
                ip: ip_text(f.1),
                port: f.2,
            },
        );
        lemma_pursue_asks_no_announcement(r2, addr, p, now);
        lemma_asks_nobody_trans(b, r2, pursue_step(r2, addr, p, now), "announce_peer"@);
        lemma_asks_nobody_trans(b, r2, pursue_step(r2, addr, p, now), "ping"@);
        lemma_asks_nobody_trans(r, b, c, "announce_peer"@);
        lemma_asks_nobody_trans(r, b, c, "ping"@);
    }
}

proof fn lemma_pursue_asks_no_announcement(r: Run, addr: AddrModel, p: Purpose, now: u64)
    ensures
        asks_nobody(r, pursue_step(r, addr, p, now), "announce_peer"@),
        asks_nobody(r, pursue_step(r, addr, p, now), "ping"@),
{
    reveal_strlit("get_peers");
    reveal_strlit("find_node");
    reveal_strlit("announce_peer");
    reveal_strlit("ping");
    assert("get_peers"@[0] != "announce_peer"@[0] && "find_node"@[0] != "announce_peer"@[0]
        && "get_peers"@[0] != "ping"@[0] && "find_node"@[0] != "ping"@[0]);
    let text = host_port_text(addr.ip, addr.port);
    let m = match p.info_hash {
        Some(ih) => if r.d.trans.get_at("get_peers"@, text) is None {
            r.asks_get_peers(addr, ih, None, now)
        } else {
            r
        },
        None => r,
    };
    if let Some(ih) = p.info_hash {
        let args = r.d.get_peers_args(ih);
        lemma_peers_query(r.d.id_for(Some(ih)), ih);
        lemma_asks_other_kind(
            r,
            addr,
            "get_peers"@,
            args,
            Some(ih),
            None,
            None,
            now,
            "announce_peer"@,
        );
        lemma_asks_other_kind(r, addr, "get_peers"@, args, Some(ih), None, None, now, "ping"@);
    }
    if let Some(target) = p.target {
        let args = m.d.find_node_args(target);
        let c = m.asks_find_node(addr, target, now);
        lemma_nodes_query(m.d.id_for(None), target);
        lemma_asks_other_kind(
            m,
            addr,
            "find_node"@,
            args,
            None,
            Some(target),
            None,
            now,
            "announce_peer"@,
        );
        lemma_asks_other_kind(m, addr, "find_node"@, args, None, Some(target), None, now, "ping"@);
        lemma_asks_nobody_trans(r, m, c, "announce_peer"@);
        lemma_asks_nobody_trans(r, m, c, "ping"@);
    }
}

proof fn lemma_values_quiet(r: Run, s: Seq<BModel>, ih: Seq<u8>)
    ensures
        ({
            let b = value_steps(r, s, ih);
            &&& b.d.trans == r.d.trans
            &&& b.d.cfg == r.d.cfg
            &&& b.d.blacklist == r.d.blacklist
            &&& b.d.callbacks == r.d.callbacks
            &&& b.d.self_id == r.d.self_id
            &&& b.d.routing == r.d.routing
            &&& b.d.tokens == r.d.tokens
            &&& r.out.len() <= b.out.len()
            &&& forall|i: int| 0 <= i < r.out.len() ==> #[trigger] b.out[i] == r.out[i]
            &&& forall|i: int| r.out.len() <= i < b.out.len() ==> !(#[trigger] b.out[i] is Send)
        }),
    decreases s.len(),
{
    if s.len() > 0 {
        lemma_values_quiet(r, s.drop_last(), ih);
    }
}

/// What an announcement says.
pub open spec fn announces_to(
    a: ActionModel,
    addr: AddrModel,
    ih: Seq<u8>,
    port: u16,
    token: Seq<u8>,
    implied: bool,
) -> bool {
    &&& is_query(a, addr, "announce_peer"@)
    &&& bytes_at(query_at(a, addr)->0.args, "id"@) is Some
    &&& bytes_at(query_at(a, addr)->0.args, "info_hash"@) == Some(ih)
    &&& int_at(query_at(a, addr)->0.args, "port"@) == Some(port as i64)
    &&& bytes_at(query_at(a, addr)->0.args, "token"@) == Some(token)
    &&& int_at(query_at(a, addr)->0.args, "implied_port"@) == if implied {
        Some(1i64)
    } else {
        None::<i64>
    }
}

proof fn lemma_announce_args(
    d: DhtModel,
    remote: Seq<u8>,
    ih: Seq<u8>,
    port: u16,
    token: Seq<u8>,
    implied: bool,
)
    ensures
        ({
            let a = d.announce_args(remote, ih, port, token, implied);
            &&& encodable(BModel::Dict(a), (MAX_DEPTH - 1) as nat)
            &&& bytes_at(a, "id"@) is Some
            &&& bytes_at(a, "info_hash"@) == Some(ih)
            &&& int_at(a, "port"@) == Some(port as i64)
            &&& bytes_at(a, "token"@) == Some(token)
            &&& int_at(a, "implied_port"@) == if implied {
                Some(1i64)
            } else {
                None::<i64>
            }
        }),
{
    let id = d.id_for(Some(remote));
    let a = crate::laws::announcement(id, ih, port, token);
    lemma_announcement(id, ih, port, token);
    if implied {
        let one = BModel::Int(1);
        reveal_strlit("id");
        reveal_strlit("info_hash");
        reveal_strlit("implied_port");
        reveal_strlit("port");
        reveal_strlit("token");
        lemma_keys_differ("id"@, "implied_port"@);
        lemma_keys_differ("info_hash"@, "implied_port"@);
        lemma_keys_differ("port"@, "implied_port"@);
        lemma_keys_differ("token"@, "implied_port"@);
        lemma_put_encodable(a, key("implied_port"@), one, (MAX_DEPTH - 2) as nat);
        law_put_lookup(a, key("implied_port"@), one, key("id"@));
        law_put_lookup(a, key("implied_port"@), one, key("info_hash"@));
        law_put_lookup(a, key("implied_port"@), one, key("port"@));
        law_put_lookup(a, key("implied_port"@), one, key("token"@));
    }
}

/// The state after the nodes that an answer names have been taken up, and its peers.
spec fn taken_up(r: Run, t: Seq<u8>, answer: Pairs, p: Purpose, now: u64) -> Run {
    let found = match bytes_at(answer, "nodes"@) {
        Some(b) => found_steps(r, compact_nodes(b), p, now),
        None => r,
    };
    match (list_at(answer, "values"@), p.info_hash) {
        (Some(l), Some(ih)) => value_steps(found, l, ih).finishes(t),
        _ => found,
    }
}

proof fn lemma_taken_up_announces_nothing(
    r: Run,
    t: Seq<u8>,
    answer: Pairs,
    p: Purpose,
    now: u64,
)
    ensures
        asks_nobody(r, taken_up(r, t, answer, p, now), "announce_peer"@),
{
    let q = "announce_peer"@;
    let found = match bytes_at(answer, "nodes"@) {
        Some(b) => found_steps(r, compact_nodes(b), p, now),
        None => r,
    };
    if let Some(b) = bytes_at(answer, "nodes"@) {
        lemma_found_asks_no_announcement(r, compact_nodes(b), p, now);
    }
    if let Some(l) = list_at(answer, "values"@) {
        if let Some(ih) = p.info_hash {
            lemma_values_quiet(found, l, ih);
            let v = value_steps(found, l, ih).finishes(t);
            assert forall|i: int, x: AddrModel| found.out.len() <= i < v.out.len() implies !#[trigger] is_query(
                v.out[i],
                x,
                q,
            ) by {
                assert(!(v.out[i] is Send));
            }
            assert(asks_nobody(found, v, q));
            lemma_asks_nobody_trans(r, found, v, q);
        }
    }
}

/// Where an announcement was planned, the token of the answer is used for it at once, whatever else
/// the answer holds: the one who answered is told the info-hash, the port and its token. Nothing
/// else is announced.
pub proof fn law_announcement_follows_token(
    r: Run,
    t: Seq<u8>,
    body: Pairs,
    answer: Pairs,
    from: AddrModel,
    now: u64,
    x: TxModel,
    ih: Seq<u8>,
    port: u16,
    token: Seq<u8>,
)
    requires
        dict_at(body, "r"@) == Some(answer),
        bytes_at(answer, "id"@) is Some,
        bytes_at(answer, "id"@)->0.len() == 20,
        r.d.trans.get(t) == Some(x),
        x.addr == from,
        x.qtype == "get_peers"@,
        x.info_hash == Some(ih),
        x.announce_port == Some(port),
        bytes_at(answer, "token"@) == Some(token),
    ensures
        ({
            let b = response_step(r, t, body, from, now);
            &&& exists|i: int|
                r.out.len() <= i < b.out.len() && #[trigger] announces_to(
                    b.out[i],
                    from,
                    ih,
                    port,
                    token,
                    x.announce_implied_port,
                )
            &&& forall|i: int, j: int, y: AddrModel, z: AddrModel|
                r.out.len() <= i < b.out.len() && r.out.len() <= j < b.out.len()
                    && #[trigger] is_query(b.out[i], y, "announce_peer"@) && #[trigger] is_query(
                    b.out[j],
                    z,
                    "announce_peer"@,
                ) ==> i == j
        }),
{
    let q = "announce_peer"@;
    let p = purpose_of(Some(x));
    let remote = bytes_at(answer, "id"@)->0;
    let implied = x.announce_implied_port;
    let m = taken_up(r, t, answer, p, now);
    lemma_taken_up_announces_nothing(r, t, answer, p, now);
    let args = m.d.announce_args(remote, ih, port, token, implied);
    lemma_announce_args(m.d, remote, ih, port, token, implied);
    lemma_asks_reads(m, from, q, args, Some(ih), None, None, now, from);
    let b = response_step(r, t, body, from, now);
    let sent = m.asks(from, q, args, Some(ih), None, None, now);
    assert(b.out == sent.out);
    let last = m.out.len() as int;
    assert(announces_to(b.out[last], from, ih, port, token, implied));
    assert forall|i: int, j: int, y: AddrModel, z: AddrModel|
        r.out.len() <= i < b.out.len() && r.out.len() <= j < b.out.len() && #[trigger] is_query(
            b.out[i],
            y,
            q,
        ) && #[trigger] is_query(b.out[j], z, q) implies i == j by {
        if i < last {
            assert(b.out[i] == m.out[i]);
            assert(!is_query(m.out[i], y, q));
        }
        if j < last {
            assert(b.out[j] == m.out[j]);
            assert(!is_query(m.out[j], z, q));
        }
    }
}

/// Where no announcement was planned, or the answer has no token, nothing is announced.
pub proof fn law_nothing_is_announced_unasked(
    r: Run,
    t: Seq<u8>,
    body: Pairs,
    from: AddrModel,
    now: u64,
)
    requires
        match r.d.trans.get(t) {
            Some(x) => x.announce_port is None || x.qtype != "get_peers"@ || match dict_at(
                body,
                "r"@,
            ) {
                Some(answer) => bytes_at(answer, "token"@) is None,
                None => true,
            },
            None => true,
        },
    ensures
        asks_nobody(r, response_step(r, t, body, from, now), "announce_peer"@),
{
    if let Some(answer) = dict_at(body, "r"@) {
        lemma_taken_up_announces_nothing(r, t, answer, purpose_of(r.d.trans.get(t)), now);
    }
}

/// What comes after the nodes of an answer have been taken up: no query of a kind is added, and no
/// query but `t` ceases to wait.
spec fn carries(a: Run, b: Run, t: Seq<u8>, q: Seq<char>) -> bool {
    &&& asks_nobody(a, b, q)
    &&& orderly(b.d.trans)
    &&& b.d.routing == a.d.routing
    &&& forall|x: TxModel|
        a.d.trans.entries.contains(x) && x.id != t ==> #[trigger] b.d.trans.entries.contains(x)
}

proof fn lemma_carries_trans(a: Run, b: Run, c: Run, t: Seq<u8>, q: Seq<char>)
    requires
        carries(a, b, t, q),
        carries(b, c, t, q),
    ensures
        carries(a, c, t, q),
{
    lemma_asks_nobody_trans(a, b, c, q);
    assert forall|x: TxModel| a.d.trans.entries.contains(x) && x.id != t implies #[trigger] c.d.trans.entries.contains(
        x,
    ) by {
        assert(b.d.trans.entries.contains(x));
    }
}

proof fn lemma_carries_end(a: Run, t: Seq<u8>, q: Seq<char>)
    requires
        orderly(a.d.trans),
    ensures
        carries(a, a.finishes(t), t, q),
        a.finishes(t).d.trans.cursor == a.d.trans.cursor,
        a.finishes(t).d.trans.max_cursor == a.d.trans.max_cursor,
        a.finishes(t).d.trans.entries.len() <= a.d.trans.entries.len(),
{
    law_ended_query_waits_no_more(a.d.trans, t);
}

proof fn lemma_carries_values(a: Run, l: Seq<BModel>, ih: Seq<u8>, t: Seq<u8>, q: Seq<char>)
    requires
        orderly(a.d.trans),
    ensures
        carries(a, value_steps(a, l, ih).finishes(t), t, q),
        value_steps(a, l, ih).finishes(t).d.trans.cursor == a.d.trans.cursor,
        value_steps(a, l, ih).finishes(t).d.trans.max_cursor == a.d.trans.max_cursor,
        value_steps(a, l, ih).finishes(t).d.trans.entries.len() <= a.d.trans.entries.len(),
{
    let b = value_steps(a, l, ih);
    lemma_values_quiet(a, l, ih);
    assert forall|i: int, x: AddrModel| a.out.len() <= i < b.out.len() implies !#[trigger] is_query(
        b.out[i],
        x,
        q,
    ) by {
        assert(!(b.out[i] is Send));
    }
    assert(carries(a, b, t, q));
    lemma_carries_end(b, t, q);
    lemma_carries_trans(a, b, b.finishes(t), t, q);
}

proof fn lemma_carries_follow_up(
    a: Run,
    t: Seq<u8>,
    answer: Pairs,
    remote: Seq<u8>,
    from: AddrModel,
    p: Purpose,
    now: u64,
    q: Seq<char>,
)
    requires
        orderly(a.d.trans),
        a.d.trans.cursor + 1 < a.d.trans.max_cursor,
        a.d.trans.entries.len() < MAX_TRANSACTIONS,
        q != "announce_peer"@,
    ensures
        carries(a, follow_up(a, t, answer, remote, from, p, now), t, q),
{
    if p.announce is Some && p.info_hash is Some {
        let (port, implied) = p.announce->0;
        let ih = p.info_hash->0;
        if let Some(token) = bytes_at(answer, "token"@) {
            let args = a.d.announce_args(remote, ih, port, token, implied);
            lemma_announce_args(a.d, remote, ih, port, token, implied);
            lemma_asks_other_kind(a, from, "announce_peer"@, args, Some(ih), None, None, now, q);
            let sent = a.asks(from, "announce_peer"@, args, Some(ih), None, None, now);
            let tx = TxModel {
                id: a.d.trans.next_id(),
                addr: from,
                qtype: "announce_peer"@,
                responder: None,
                info_hash: Some(ih),
                target: None,
                announce_port: None,
                announce_implied_port: false,
                created_at: now,
                retries: 0,
            };
            law_begun_query_waits(a.d.trans, tx);
            assert(sent.d.trans == a.d.trans.advanced().begun(tx));
            assert forall|x: TxModel| a.d.trans.entries.contains(x) implies #[trigger] sent.d.trans.entries.contains(
                x,
            ) by {
                let i = choose|i: int|
                    0 <= i < a.d.trans.entries.len() && a.d.trans.entries[i] == x;
                assert(sent.d.trans.entries[i] == x);
            }
            assert(carries(a, sent, t, q));
            lemma_carries_end(sent, t, q);
            lemma_carries_trans(a, sent, sent.finishes(t), t, q);
        } else {
            lemma_carries_end(a, t, q);
        }
    }
}

proof fn lemma_rest_of_answer(
    r: Run,
    t: Seq<u8>,
    answer: Pairs,
    remote: Seq<u8>,
    from: AddrModel,
    p: Purpose,
    now: u64,
    q: Seq<char>,
    nodes: Seq<u8>,
)
    requires
        bytes_at(answer, "nodes"@) == Some(nodes),
        ({
            let f = found_steps(r, compact_nodes(nodes), p, now);
            &&& orderly(f.d.trans)
            &&& f.d.trans.cursor + 1 < f.d.trans.max_cursor
            &&& f.d.trans.entries.len() < MAX_TRANSACTIONS
        }),
        q != "announce_peer"@,
    ensures
        carries(
            found_steps(r, compact_nodes(nodes), p, now),
            answer_step(r, t, answer, remote, from, p, now),
            t,
            q,
        ),
{
    let f = found_steps(r, compact_nodes(nodes), p, now);
    let stored = match (list_at(answer, "values"@), p.info_hash) {
        (Some(l), Some(ih)) => value_steps(f, l, ih).finishes(t),
        _ => f,
    };
    if let Some(l) = list_at(answer, "values"@) {
        if let Some(ih) = p.info_hash {
            lemma_carries_values(f, l, ih, t, q);
        }
    }
    assert(carries(f, stored, t, q));
    let announced = follow_up(stored, t, answer, remote, from, p, now);
    lemma_carries_follow_up(stored, t, answer, remote, from, p, now, q);
    lemma_carries_trans(f, stored, announced, t, q);
    lemma_carries_end(announced, t, q);
    lemma_carries_trans(f, announced, announced.finishes(t), t, q);
}

proof fn lemma_asked_once_still(
    r: Run,
    f: Run,
    end: Run,
    t: Seq<u8>,
    at: AddrModel,
    q: Seq<char>,
    name: Seq<char>,
    v: Seq<u8>,
    n: nat,
)
    requires
        pursued(r, f, at, q, name, v, true, n),
        carries(f, end, t, q),
        handed_out(t, r.d.trans.cursor as nat),
    ensures
        asks_once(r, end, at, q, name, v),
        is_noted(end.d.trans, at, q, name, v),
{
    let k = choose|k: int| r.out.len() <= k < f.out.len() && #[trigger] asks_for(
        f.out[k],
        at,
        q,
        name,
        v,
    );
    assert(asks_for(end.out[k], at, q, name, v));
    assert forall|i: int, j: int|
        r.out.len() <= i < end.out.len() && r.out.len() <= j < end.out.len() && #[trigger] is_query(
            end.out[i],
            at,
            q,
        ) && #[trigger] is_query(end.out[j], at, q) implies i == j by {
        assert(i < f.out.len() && j < f.out.len());
        assert(end.out[i] == f.out[i] && end.out[j] == f.out[j]);
        assert(is_query(f.out[i], at, q) && is_query(f.out[j], at, q));
    }
    let y = choose|y: TxModel| #[trigger] awaited(r, f, at, q, name, v, y);
    assert(f.d.trans.entries.contains(y) && y.id != t);
    assert(end.d.trans.entries.contains(y));
}

/// What is noted of a node that an answer names.
pub open spec fn named_at(b: Seq<u8>, i: int, at: AddrModel) -> bool {
    &&& 0 <= i
    &&& 26 * i + 26 <= b.len()
    &&& at.ip == IpModel::V4(b[26 * i + 20], b[26 * i + 21], b[26 * i + 22], b[26 * i + 23])
    &&& at.port == b[26 * i + 24] * 256 + b[26 * i + 25]
}

proof fn lemma_search_goes_on(
    r: Run,
    t: Seq<u8>,
    body: Pairs,
    answer: Pairs,
    from: AddrModel,
    now: u64,
    x: TxModel,
    b: Seq<u8>,
    i: int,
    at: AddrModel,
    q: Seq<char>,
    name: Seq<char>,
    v: Seq<u8>,
)
    requires
        orderly(r.d.trans),
        r.d.trans.cursor + b.len() / 13 + 1 < r.d.trans.max_cursor,
        r.d.trans.entries.len() + b.len() / 13 < MAX_TRANSACTIONS,
        dict_at(body, "r"@) == Some(answer),
        bytes_at(answer, "id"@) is Some,
        bytes_at(answer, "id"@)->0.len() == 20,
        r.d.trans.get(t) == Some(x),
        x.addr == from,
        aims(purpose_of(Some(x)), q, name, v),
        bytes_at(answer, "nodes"@) == Some(b),
        named_at(b, i, at),
        !shunned(r.d, at),
        r.d.routing.nodes.len() + b.len() / 26 <= r.d.cfg.max_nodes,
        !waits(r.d.trans, q, at),
    ensures
        asks_once(r, response_step(r, t, body, from, now), at, q, name, v),
        is_noted(response_step(r, t, body, from, now).d.trans, at, q, name, v),
{
    let p = purpose_of(Some(x));
    let s = compact_nodes(b);
    let remote = bytes_at(answer, "id"@)->0;
    assert(s.len() == b.len() / 26);
    assert(2 * s.len() <= b.len() / 13);
    lemma_pursued_all(r, s, at, q, name, v, p, now);
    assert(s[i].1 == at.ip && s[i].2 == at.port);
    let f = found_steps(r, s, p, now);
    lemma_aims(p, q, name, v);
    reveal_strlit("get_peers");
    reveal_strlit("find_node");
    reveal_strlit("announce_peer");
    assert("get_peers"@[0] != "announce_peer"@[0] && "find_node"@[0] != "announce_peer"@[0]);
    lemma_rest_of_answer(r, t, answer, remote, from, p, now, q, b);
    lemma_get(r.d.trans, t);
    let j = choose|j: int| 0 <= j < r.d.trans.entries.len() && r.d.trans.entries[j] == x;
    assert(handed_out(r.d.trans.entries[j].id, r.d.trans.cursor as nat));
    let end = answer_step(r, t, answer, remote, from, p, now);
    assert(response_step(r, t, body, from, now) == end);
    lemma_asked_once_still(r, f, end, t, at, q, name, v, 2 * s.len());
}

/// The search for the peers of an info-hash goes on from answer to answer: a node that is named in
/// the answer to a query for them is asked for them in its turn, once, and its answer is waited
/// for. Left out are only nodes that are blacklisted or of whom the same is being asked, and all
/// where there is no room for more.
pub proof fn law_search_for_peers_goes_on(
    r: Run,
    t: Seq<u8>,
    body: Pairs,
    answer: Pairs,
    from: AddrModel,
    now: u64,
    x: TxModel,
    ih: Seq<u8>,
    b: Seq<u8>,
    i: int,
    at: AddrModel,
)
    requires
        orderly(r.d.trans),
        r.d.trans.cursor + b.len() / 13 + 1 < r.d.trans.max_cursor,
        r.d.trans.entries.len() + b.len() / 13 < MAX_TRANSACTIONS,
        dict_at(body, "r"@) == Some(answer),
        bytes_at(answer, "id"@) is Some,
        bytes_at(answer, "id"@)->0.len() == 20,
        r.d.trans.get(t) == Some(x),
        x.addr == from,
        x.info_hash == Some(ih),
        bytes_at(answer, "nodes"@) == Some(b),
        named_at(b, i, at),
        !shunned(r.d, at),
        r.d.routing.nodes.len() + b.len() / 26 <= r.d.cfg.max_nodes,
        !waits(r.d.trans, "get_peers"@, at),
    ensures
        asks_once(
            r,
            response_step(r, t, body, from, now),
            at,
            "get_peers"@,
            "info_hash"@,
            ih,
        ),
        is_noted(
            response_step(r, t, body, from, now).d.trans,
            at,
            "get_peers"@,
            "info_hash"@,
            ih,
        ),
{
    lemma_search_goes_on(
        r,
        t,
        body,
        answer,
        from,
        now,
        x,
        b,
        i,
        at,
        "get_peers"@,
        "info_hash"@,
        ih,
    );
}

/// So does the search for the nodes next to a target.
pub proof fn law_search_for_nodes_goes_on(
    r: Run,
    t: Seq<u8>,
    body: Pairs,
    answer: Pairs,
    from: AddrModel,
    now: u64,
    x: TxModel,
    target: Seq<u8>,
    b: Seq<u8>,
    i: int,
    at: AddrModel,
)
    requires
        orderly(r.d.trans),
        r.d.trans.cursor + b.len() / 13 + 1 < r.d.trans.max_cursor,
        r.d.trans.entries.len() + b.len() / 13 < MAX_TRANSACTIONS,
        dict_at(body, "r"@) == Some(answer),
        bytes_at(answer, "id"@) is Some,
        bytes_at(answer, "id"@)->0.len() == 20,
        r.d.trans.get(t) == Some(x),
        x.addr == from,
        x.qtype == "find_node"@,
        x.target == Some(target),
        bytes_at(answer, "nodes"@) == Some(b),
        named_at(b, i, at),
        !shunned(r.d, at),
        r.d.routing.nodes.len() + b.len() / 26 <= r.d.cfg.max_nodes,
        !waits(r.d.trans, "find_node"@, at),
    ensures
        asks_once(r, response_step(r, t, body, from, now), at, "find_node"@, "target"@, target),
        is_noted(
            response_step(r, t, body, from, now).d.trans,
            at,
            "find_node"@,
            "target"@,
            target,
        ),
{
    lemma_search_goes_on(
        r,
        t,
        body,
        answer,
        from,
        now,
        x,
        b,
        i,
        at,
        "find_node"@,
        "target"@,
        target,
    );
}

proof fn lemma_found_enters(
    r: Run,
    s: Seq<(Seq<u8>, IpModel, u16)>,
    p: Purpose,
    now: u64,
    i: int,
)
    requires
        0 <= i < s.len(),
        !shunned(r.d, AddrModel { ip: s[i].1, port: s[i].2 }),
        r.d.routing.nodes.len() + s.len() <= r.d.cfg.max_nodes,
        forall|j: int| i < j < s.len() ==> (#[trigger] s[j]).0 != s[i].0,
    ensures
        lookup(found_steps(r, s, p, now).d.routing.nodes, s[i].0) == Some(
            (NodeModel {
                id: s[i].0,
                addr: AddrModel { ip: s[i].1, port: s[i].2 },
                last_active: now,
            }),
        ),
        r.d.callbacks.on_node ==> exists|k: int|
            r.out.len() <= k < found_steps(r, s, p, now).out.len() && #[trigger] found_steps(
                r,
                s,
                p,
                now,
            ).out[k] == (ActionModel::Node {
                id: crate::hexcode::hex_text(s[i].0),
                ip: ip_text(s[i].1),
                port: s[i].2,
            }),
    decreases s.len(),
{
    let front = s.drop_last();
    let b = found_steps(r, front, p, now);
    let c = found_steps(r, s, p, now);
    let f = s.last();
    let addr = AddrModel { ip: f.1, port: f.2 };
    lemma_found_frame(r, front, p, now);
    lemma_found_frame(r, s, p, now);
    lemma_found_one_frame(b, f, p, now);
    law_put_lookup(
        b.d.routing.nodes,
        f.0,
        NodeModel { id: f.0, addr, last_active: now },
        s[i].0,
    );
    if i < front.len() {
        assert forall|j: int| i < j < front.len() implies (#[trigger] front[j]).0 != front[i].0 by {
            assert(front[j] == s[j]);
        }
        lemma_found_enters(r, front, p, now, i);
        assert(s[s.len() - 1].0 != s[i].0);
        if r.d.callbacks.on_node {
            let k = choose|k: int| r.out.len() <= k < b.out.len() && #[trigger] b.out[k] == (
            ActionModel::Node {
                id: crate::hexcode::hex_text(s[i].0),
                ip: ip_text(s[i].1),
                port: s[i].2,
            });
            assert(c.out[k] == b.out[k]);
        }
    } else if r.d.callbacks.on_node {
        assert(c.out[b.out.len() as int] == (ActionModel::Node {
            id: crate::hexcode::hex_text(s[i].0),
            ip: ip_text(s[i].1),
            port: s[i].2,
        }));
    }
}

proof fn lemma_found_one_frame(b: Run, f: (Seq<u8>, IpModel, u16), p: Purpose, now: u64)
    ensures
        ({
            let c = found_step(b, f, p, now);
            let addr = AddrModel { ip: f.1, port: f.2 };
            let n = NodeModel { id: f.0, addr, last_active: now };
            let taken = !shunned(b.d, addr) && b.d.routing.nodes.len() < b.d.cfg.max_nodes;
            &&& c.d.routing.nodes == if taken {
                put(b.d.routing.nodes, f.0, n)
            } else {
                b.d.routing.nodes
            }
            &&& c.d.cfg == b.d.cfg
            &&& c.d.blacklist == b.d.blacklist
            &&& c.d.callbacks == b.d.callbacks
            &&& b.out.len() <= c.out.len()
            &&& forall|i: int| 0 <= i < b.out.len() ==> #[trigger] c.out[i] == b.out[i]
            &&& taken && b.d.callbacks.on_node ==> c.out.len() > b.out.len()
                && c.out[b.out.len() as int] == (ActionModel::Node {
                id: crate::hexcode::hex_text(f.0),
                ip: ip_text(f.1),
                port: f.2,
            })
        }),
{
}

proof fn lemma_found_frame(r: Run, s: Seq<(Seq<u8>, IpModel, u16)>, p: Purpose, now: u64)
    ensures
        ({
            let c = found_steps(r, s, p, now);
            &&& c.d.cfg == r.d.cfg
            &&& c.d.blacklist == r.d.blacklist
            &&& c.d.callbacks == r.d.callbacks
            &&& c.d.routing.nodes.len() <= r.d.routing.nodes.len() + s.len()
            &&& r.out.len() <= c.out.len()
            &&& forall|i: int| 0 <= i < r.out.len() ==> #[trigger] c.out[i] == r.out[i]
        }),
    decreases s.len(),
{
    if s.len() > 0 {
        let b = found_steps(r, s.drop_last(), p, now);
        let f = s.last();
        lemma_found_frame(r, s.drop_last(), p, now);
        lemma_found_one_frame(b, f, p, now);
        lemma_put_len(
            b.d.routing.nodes,
            f.0,
            NodeModel { id: f.0, addr: AddrModel { ip: f.1, port: f.2 }, last_active: now },
        );
    }
}

/// A node that an answer names is known from then on under its identifier and at its address, and
/// told of where the owner wants to hear of it, unless it is blacklisted or there is no room.
pub proof fn law_named_node_becomes_known(
    r: Run,
    t: Seq<u8>,
    body: Pairs,
    answer: Pairs,
    from: AddrModel,
    now: u64,
    b: Seq<u8>,
    i: int,
    at: AddrModel,
)
    requires
        dict_at(body, "r"@) == Some(answer),
        bytes_at(answer, "id"@) is Some,
        bytes_at(answer, "id"@)->0.len() == 20,
        r.d.trans.get(t) is Some ==> r.d.trans.get(t)->0.addr == from,
        bytes_at(answer, "nodes"@) == Some(b),
        named_at(b, i, at),
        forall|j: int|
            i < j < b.len() / 26 ==> #[trigger] b.subrange(26 * j, 26 * j + 20) != b.subrange(
                26 * i,
                26 * i + 20,
            ),
        !shunned(r.d, at),
        r.d.routing.nodes.len() + b.len() / 26 <= r.d.cfg.max_nodes,
    ensures
        ({
            let id = b.subrange(26 * i, 26 * i + 20);
            let c = response_step(r, t, body, from, now);
            &&& lookup(c.d.routing.nodes, id) == Some(
                (NodeModel { id, addr: at, last_active: now }),
            )
            &&& r.d.callbacks.on_node ==> exists|k: int|
                r.out.len() <= k < c.out.len() && #[trigger] c.out[k] == (ActionModel::Node {
                    id: crate::hexcode::hex_text(id),
                    ip: ip_text(at.ip),
                    port: at.port,
                })
        }),
{
    let p = purpose_of(r.d.trans.get(t));
    let s = compact_nodes(b);
    let id = b.subrange(26 * i, 26 * i + 20);
    assert forall|j: int| i < j < s.len() implies (#[trigger] s[j]).0 != s[i].0 by {
        assert(b.subrange(26 * j, 26 * j + 20) != id);
    }
    lemma_found_enters(r, s, p, now, i);
    let f = found_steps(r, s, p, now);
    let c = response_step(r, t, body, from, now);
    lemma_answer_frame(r, t, answer, bytes_at(answer, "id"@)->0, from, p, now);
    if r.d.callbacks.on_node {
        let k = choose|k: int| r.out.len() <= k < f.out.len() && #[trigger] f.out[k] == (
        ActionModel::Node { id: crate::hexcode::hex_text(id), ip: ip_text(at.ip), port: at.port });
        assert(c.out[k] == f.out[k]);
    }
}

proof fn lemma_answer_frame(
    r: Run,
    t: Seq<u8>,
    answer: Pairs,
    remote: Seq<u8>,
    from: AddrModel,
    p: Purpose,
    now: u64,
)
    ensures
        ({
            let f = match bytes_at(answer, "nodes"@) {
                Some(b) => found_steps(r, compact_nodes(b), p, now),
                None => r,
            };
            let c = answer_step(r, t, answer, remote, from, p, now);
            &&& c.d.routing == f.d.routing
            &&& f.out.len() <= c.out.len()
            &&& forall|i: int| 0 <= i < f.out.len() ==> #[trigger] c.out[i] == f.out[i]
        }),
{
    let f = match bytes_at(answer, "nodes"@) {
        Some(b) => found_steps(r, compact_nodes(b), p, now),
        None => r,
    };
    if let Some(l) = list_at(answer, "values"@) {
        if let Some(ih) = p.info_hash {
            lemma_values_quiet(f, l, ih);
        }
    }
}

// ---------------------------------------------------------------------------
// Requests of the owner
// ---------------------------------------------------------------------------

proof fn lemma_sought_all(
    a: Run,
    s: Seq<Entry>,
    at: AddrModel,
    ih: Seq<u8>,
    port: Option<u16>,
    now: u64,
)
    requires
        orderly(a.d.trans),
        !waits(a.d.trans, "get_peers"@, at),
        a.d.trans.cursor + s.len() < a.d.trans.max_cursor,
        a.d.trans.entries.len() + s.len() <= MAX_TRANSACTIONS,
    ensures
        pursued(
            a,
            seek_steps(a, s, ih, port, true, now),
            at,
            "get_peers"@,
            "info_hash"@,
            ih,
            exists|i: int| 0 <= i < s.len() && (#[trigger] s[i]).1.addr == at,
            s.len(),
        ),
        forall|x: TxModel| #[trigger]
            seek_steps(a, s, ih, port, true, now).d.trans.entries.contains(x)
                ==> a.d.trans.entries.contains(x) || x.announce_port == port,
    decreases s.len(),
{
    let q = "get_peers"@;
    let name = "info_hash"@;
    if s.len() > 0 {
        let front = s.drop_last();
        lemma_sought_all(a, front, at, ih, port, now);
        let b = seek_steps(a, front, ih, port, true, now);
        let c = seek_steps(a, s, ih, port, true, now);
        let addr = s.last().1.addr;
        let args = b.d.get_peers_args(ih);
        lemma_peers_query(b.d.id_for(Some(ih)), ih);
        let before = exists|i: int| 0 <= i < front.len() && (#[trigger] front[i]).1.addr == at;
        let after = exists|i: int| 0 <= i < s.len() && (#[trigger] s[i]).1.addr == at;
        assert(after == (before || addr == at)) by {
            if before {
                let i = choose|i: int|
                    0 <= i < front.len() && (#[trigger] front[i]).1.addr == at;
                assert(s[i].1.addr == at);
            }
            if addr == at {
                assert(s[s.len() - 1].1.addr == at);
            }
            if after {
                let i = choose|i: int| 0 <= i < s.len() && (#[trigger] s[i]).1.addr == at;
                if i < front.len() {
                    assert(front[i].1.addr == at);
                }
            }
        }
        lemma_pursued_quiet(a, b, b, at, q, name, ih, before, front.len(), s.len());
        if addr == at {
            if before {
                let x = choose|x: TxModel| #[trigger] awaited(a, b, at, q, name, ih, x);
                lemma_awaited_is_found(b.d.trans, x, q, at);
            } else {
                lemma_no_query_waits(b.d.trans, q, at);
                lemma_pursued_itself(
                    a,
                    b,
                    at,
                    q,
                    name,
                    ih,
                    front.len(),
                    args,
                    Some(ih),
                    None,
                    port,
                    now,
                );
            }
        } else if b.d.trans.get_at(q, addr_text(addr)) is None {
            lemma_pursued_other(
                a,
                b,
                at,
                q,
                name,
                ih,
                before,
                front.len(),
                addr,
                q,
                args,
                Some(ih),
                None,
                port,
                now,
            );
        }
        if b.d.trans.get_at(q, addr_text(addr)) is None {
            let tx = TxModel {
                id: b.d.trans.next_id(),
                addr,
                qtype: q,
                responder: None,
                info_hash: Some(ih),
                target: None,
                announce_port: port,
                announce_implied_port: false,
                created_at: now,
                retries: 0,
            };
            law_begun_query_waits(b.d.trans, tx);
            assert(c.d.trans == b.d.trans.advanced().begun(tx));
            assert forall|x: TxModel| #[trigger] c.d.trans.entries.contains(x) implies a.d.trans.entries.contains(
                x,
            ) || x.announce_port == port by {
                let i = choose|i: int| 0 <= i < c.d.trans.entries.len() && c.d.trans.entries[i] == x;
                if i < b.d.trans.entries.len() {
                    assert(b.d.trans.entries[i] == x);
                    assert(b.d.trans.entries.contains(x));
                }
            }
        }
    }
}

proof fn lemma_everybody_is_there(d: DhtModel, ih: Seq<u8>, i: int)
    requires
        0 <= i < d.routing.nodes.len(),
    ensures
        all_by_distance(d, ih).len() == d.routing.nodes.len(),
        all_by_distance(d, ih).contains(d.routing.nodes[i]),
{
    broadcast use vstd::seq_lib::group_to_multiset_ensures;

    let known = d.routing.nodes;
    law_nearest(known, ih, known.len());
    assert(known.contains(known[i]));
    assert(known.to_multiset().count(known[i]) > 0);
}

/// A query for the peers of an info-hash is noted, with the port that is to be announced where one
/// is.
pub open spec fn is_planned(
    m: TransModel,
    addr: AddrModel,
    ih: Seq<u8>,
    port: Option<u16>,
) -> bool {
    exists|x: TxModel| #[trigger]
        m.entries.contains(x) && x.addr == addr && x.qtype == "get_peers"@ && x.info_hash == Some(
            ih,
        ) && x.announce_port == port
}

proof fn lemma_owner_search(
    r: Run,
    ih: Seq<u8>,
    port: Option<u16>,
    now: u64,
    i: int,
)
    requires
        orderly(r.d.trans),
        r.d.trans.cursor + r.d.routing.nodes.len() < r.d.trans.max_cursor,
        r.d.trans.entries.len() + r.d.routing.nodes.len() <= MAX_TRANSACTIONS,
        0 <= i < r.d.routing.nodes.len(),
        !waits(r.d.trans, "get_peers"@, r.d.routing.nodes[i].1.addr),
    ensures
        ({
            let b = seek_steps(r, all_by_distance(r.d, ih), ih, port, true, now);
            let at = r.d.routing.nodes[i].1.addr;
            &&& asks_once(r, b, at, "get_peers"@, "info_hash"@, ih)
            &&& is_planned(b.d.trans, at, ih, port)
        }),
{
    let s = all_by_distance(r.d, ih);
    let at = r.d.routing.nodes[i].1.addr;
    lemma_everybody_is_there(r.d, ih, i);
    let j = choose|j: int| 0 <= j < s.len() && s[j] == r.d.routing.nodes[i];
    assert(s[j].1.addr == at);
    lemma_sought_all(r, s, at, ih, port, now);
    let b = seek_steps(r, s, ih, port, true, now);
    let x = choose|x: TxModel| #[trigger]
        awaited(r, b, at, "get_peers"@, "info_hash"@, ih, x);
    assert(b.d.trans.entries.contains(x));
    if r.d.trans.entries.contains(x) {
        let k = choose|k: int| 0 <= k < r.d.trans.entries.len() && r.d.trans.entries[k] == x;
        assert(handed_out(r.d.trans.entries[k].id, r.d.trans.cursor as nat));
    }
}

/// A search of the owner asks every node that is known for the peers of the info-hash, once, and
/// waits for its answer; left out are only those of whom peers are being asked already.
pub proof fn law_search_asks_everybody(r: Run, ih: Seq<u8>, now: u64, i: int)
    requires
        ih.len() == 20,
        orderly(r.d.trans),
        r.d.trans.cursor + r.d.routing.nodes.len() < r.d.trans.max_cursor,
        r.d.trans.entries.len() + r.d.routing.nodes.len() <= MAX_TRANSACTIONS,
        0 <= i < r.d.routing.nodes.len(),
        !waits(r.d.trans, "get_peers"@, r.d.routing.nodes[i].1.addr),
    ensures
        ({
            let c = CommandModel::GetPeers { info_hash: hex_text(ih) };
            let b = command_step(r, c, now);
            let at = r.d.routing.nodes[i].1.addr;
            &&& asks_once(r, b, at, "get_peers"@, "info_hash"@, ih)
            &&& is_planned(b.d.trans, at, ih, None)
        }),
{
    law_unhex_hex(ih);
    lemma_owner_search(r, ih, None, now, i);
}

/// To announce a peer, every node that is known is asked for the peers of the info-hash in the same
/// way, and the port is kept for when its answer comes.
pub proof fn law_announcing_asks_everybody(r: Run, ih: Seq<u8>, port: u16, now: u64, i: int)
    requires
        ih.len() == 20,
        orderly(r.d.trans),
        r.d.trans.cursor + r.d.routing.nodes.len() < r.d.trans.max_cursor,
        r.d.trans.entries.len() + r.d.routing.nodes.len() <= MAX_TRANSACTIONS,
        0 <= i < r.d.routing.nodes.len(),
        !waits(r.d.trans, "get_peers"@, r.d.routing.nodes[i].1.addr),
    ensures
        ({
            let c = CommandModel::AnnouncePeer { info_hash: hex_text(ih), port };
            let b = command_step(r, c, now);
            let at = r.d.routing.nodes[i].1.addr;
            &&& asks_once(r, b, at, "get_peers"@, "info_hash"@, ih)
            &&& is_planned(b.d.trans, at, ih, Some(port))
        }),
{
    law_unhex_hex(ih);
    lemma_owner_search(r, ih, Some(port), now, i);
}

/// Text that is not the hexadecimal form of twenty bytes starts no search, and shutting down does
/// nothing.
pub proof fn law_unreadable_info_hash_does_nothing(r: Run, text: Seq<char>, port: u16, now: u64)
    requires
        text.len() != 40 || exists|i: int|
            0 <= i < text.len() && !('0' <= #[trigger] text[i] <= '9' || 'a' <= text[i] <= 'f'
                || 'A' <= text[i] <= 'F'),
    ensures
        command_step(r, CommandModel::GetPeers { info_hash: text }, now) == r,
        command_step(r, CommandModel::AnnouncePeer { info_hash: text, port }, now) == r,
        command_step(r, CommandModel::Shutdown, now) == r,
{
    if exists|i: int|
        0 <= i < text.len() && !('0' <= #[trigger] text[i] <= '9' || 'a' <= text[i] <= 'f' || 'A'
            <= text[i] <= 'F') {
        let i = choose|i: int|
            0 <= i < text.len() && !('0' <= #[trigger] text[i] <= '9' || 'a' <= text[i] <= 'f'
                || 'A' <= text[i] <= 'F');
        assert(crate::hexcode::hex_value(text[i]) is None);
    }
}

proof fn lemma_seek_every_one(
    r: Run,
    s: Seq<Entry>,
    ih: Seq<u8>,
    port: Option<u16>,
    now: u64,
    i: int,
)
    ensures
        ({
            let b = seek_steps(r, s, ih, port, false, now);
            &&& b.d.cfg == r.d.cfg
            &&& b.d.self_id == r.d.self_id
            &&& b.out.len() == r.out.len() + s.len()
            &&& b.out.take(r.out.len() as int) == r.out
            &&& 0 <= i < s.len() ==> asks_for(
                b.out[r.out.len() + i],
                s[i].1.addr,
                "get_peers"@,
                "info_hash"@,
                ih,
            )
        }),
    decreases s.len(),
{
    if s.len() > 0 {
        let front = s.drop_last();
        lemma_seek_every_one(r, front, ih, port, now, i);
        let b = seek_steps(r, front, ih, port, false, now);
        let c = seek_steps(r, s, ih, port, false, now);
        let addr = s.last().1.addr;
        let args = b.d.get_peers_args(ih);
        lemma_peers_query(b.d.id_for(Some(ih)), ih);
        lemma_asks_reads(b, addr, "get_peers"@, args, Some(ih), None, port, now, addr);
        assert(c.out.take(r.out.len() as int) =~= b.out.take(r.out.len() as int));
        if 0 <= i < front.len() {
            assert(front[i] == s[i]);
            assert(c.out[r.out.len() + i] == b.out[r.out.len() + i]);
        }
    } else {
        assert(r.out.take(r.out.len() as int) =~= r.out);
    }
}

/// A search that is not to leave anybody out asks every node that is known, one query each.
pub proof fn law_search_leaves_nobody_out(r: Run, ih: Seq<u8>, now: u64, i: int)
    requires
        0 <= i < r.d.routing.nodes.len(),
    ensures
        ({
            let b = seek_steps(r, all_by_distance(r.d, ih), ih, None, false, now);
            &&& b.out.len() == r.out.len() + r.d.routing.nodes.len()
            &&& exists|j: int|
                r.out.len() <= j < b.out.len() && #[trigger] asks_for(
                    b.out[j],
                    r.d.routing.nodes[i].1.addr,
                    "get_peers"@,
                    "info_hash"@,
                    ih,
                )
        }),
{
    let s = all_by_distance(r.d, ih);
    lemma_everybody_is_there(r.d, ih, i);
    let k = choose|k: int| 0 <= k < s.len() && s[k] == r.d.routing.nodes[i];
    lemma_seek_every_one(r, s, ih, None, now, k);
    let b = seek_steps(r, s, ih, None, false, now);
    assert(asks_for(
        b.out[r.out.len() + k],
        r.d.routing.nodes[i].1.addr,
        "get_peers"@,
        "info_hash"@,
        ih,
    ));
}

// ---------------------------------------------------------------------------
// Joining
// ---------------------------------------------------------------------------

pub proof fn lemma_find_every_one(r: Run, s: Seq<(AddrModel, Seq<u8>)>, now: u64)
    ensures
        ({
            let b = find_steps(r, s, now);
            &&& b.d.self_id == r.d.self_id
            &&& b.d.cfg == r.d.cfg
            &&& b.out.len() == r.out.len() + s.len()
            &&& forall|i: int| 0 <= i < r.out.len() ==> #[trigger] b.out[i] == r.out[i]
            &&& forall|i: int|
                0 <= i < s.len() ==> asks_for(
                    b.out[r.out.len() + i],
                    (#[trigger] s[i]).0,
                    "find_node"@,
                    "target"@,
                    s[i].1,
                )
        }),
    decreases s.len(),
{
    if s.len() > 0 {
        let front = s.drop_last();
        lemma_find_every_one(r, front, now);
        let b = find_steps(r, front, now);
        let c = find_steps(r, s, now);
        let (addr, target) = s.last();
        let args = b.d.find_node_args(target);
        lemma_nodes_query(b.d.id_for(None), target);
        lemma_asks_reads(b, addr, "find_node"@, args, None, Some(target), None, now, addr);
        assert forall|i: int| 0 <= i < s.len() implies asks_for(
            c.out[r.out.len() + i],
            (#[trigger] s[i]).0,
            "find_node"@,
            "target"@,
            s[i].1,
        ) by {
            if i < front.len() {
                assert(front[i] == s[i]);
                assert(c.out[r.out.len() + i] == b.out[r.out.len() + i]);
            }
        }
    }
}

/// To join the network, every address of every node to begin with is asked for the nodes next to
/// this one.
pub proof fn law_joining_asks_everybody(
    r: Run,
    hosts: Seq<Seq<AddrModel>>,
    now: u64,
    i: int,
    j: int,
)
    requires
        0 <= i < hosts.len(),
        0 <= j < hosts[i].len(),
    ensures
        ({
            let b = join_steps(r, hosts, now);
            exists|k: int|
                r.out.len() <= k < b.out.len() && #[trigger] asks_for(
                    b.out[k],
                    hosts[i][j],
                    "find_node"@,
                    "target"@,
                    r.d.self_id,
                )
        }),
    decreases hosts.len(),
{
    let front = hosts.drop_last();
    let b = join_steps(r, front, now);
    let c = join_steps(r, hosts, now);
    let id = r.d.self_id;
    let s = hosts.last().map_values(|a: AddrModel| (a, id));
    lemma_join_frame(r, front, now);
    lemma_find_every_one(b, s, now);
    if i < front.len() {
        assert(front[i] == hosts[i]);
        law_joining_asks_everybody(r, front, now, i, j);
        let k = choose|k: int| r.out.len() <= k < b.out.len() && #[trigger] asks_for(
            b.out[k],
            hosts[i][j],
            "find_node"@,
            "target"@,
            id,
        );
        assert(c.out[k] == b.out[k]);
    } else {
        assert(s[j] == (hosts[i][j], id));
        assert(asks_for(c.out[b.out.len() + j], hosts[i][j], "find_node"@, "target"@, id));
    }
}

proof fn lemma_join_frame(r: Run, hosts: Seq<Seq<AddrModel>>, now: u64)
    ensures
        join_steps(r, hosts, now).d.self_id == r.d.self_id,
        join_steps(r, hosts, now).out.len() >= r.out.len(),
    decreases hosts.len(),
{
    if hosts.len() > 0 {
        lemma_join_frame(r, hosts.drop_last(), now);
        let id = r.d.self_id;
        lemma_find_every_one(
            join_steps(r, hosts.drop_last(), now),
            hosts.last().map_values(|a: AddrModel| (a, id)),
            now,
        );
    }
}

// ---------------------------------------------------------------------------
// Peers that are found
// ---------------------------------------------------------------------------

/// A value writes an address of a peer: six bytes, four of the host and two of the port.
pub open spec fn is_peer_value(v: BModel, p: PeerModel) -> bool {
    match v {
        BModel::Bytes(b) => {
            &&& b.len() == 6
            &&& p.ip == IpModel::V4(b[0], b[1], b[2], b[3])
            &&& p.port == b[4] * 256 + b[5]
            &&& p.token is None
        },
        _ => false,
    }
}

proof fn lemma_values_are_taken(r: Run, s: Seq<BModel>, ih: Seq<u8>, i: int, p: PeerModel)
    requires
        0 <= i < s.len(),
        is_peer_value(s[i], p),
    ensures
        ({
            let b = value_steps(r, s, ih);
            &&& b.d.peers.k == r.d.peers.k
            &&& b.d.callbacks == r.d.callbacks
            &&& r.d.callbacks.on_get_peers_response ==> exists|k: int|
                r.out.len() <= k < b.out.len() && #[trigger] b.out[k] == (
                ActionModel::GetPeersResponse { info_hash: hex_text(ih), peer: p })
            &&& (r.d.peers.table.dom().len() < MAX_INFOHASHES || r.d.peers.table.dom().contains(
                ih,
            )) && s.len() - i <= r.d.peers.k ==> {
                &&& b.d.peers.table.dom().contains(ih)
                &&& is_recent(b.d.peers.table[ih], p, (s.len() - 1 - i) as nat)
            }
        }),
    decreases s.len(),
{
    let front = s.drop_last();
    let a = value_steps(r, front, ih);
    let b = value_steps(r, s, ih);
    lemma_values_quiet(r, front, ih);
    lemma_values_room(r, front, ih);
    let e = ActionModel::GetPeersResponse { info_hash: hex_text(ih), peer: p };
    if i < front.len() {
        assert(front[i] == s[i]);
        lemma_values_are_taken(r, front, ih, i, p);
        if r.d.callbacks.on_get_peers_response {
            let k = choose|k: int| r.out.len() <= k < a.out.len() && #[trigger] a.out[k] == e;
            assert(b.out[k] == e);
        }
        if let BModel::Bytes(x) = s.last() {
            if x.len() == 6 {
                let other = PeerModel {
                    ip: crate::util::host_at(x, 0),
                    port: crate::util::port_at(x, 4),
                    token: None,
                };
                law_newest_peers_stay(a.d.peers, ih, other, p, (front.len() - 1 - i) as nat);
                if other.ip == p.ip && other.port == p.port {
                    assert(other == p);
                }
            }
        }
    } else {
        let x = s.last()->Bytes_0;
        let peer = PeerModel {
            ip: crate::util::host_at(x, 0),
            port: crate::util::port_at(x, 4),
            token: None,
        };
        assert(peer == p);
        law_newest_peers_stay(a.d.peers, ih, p, p, 0);
        if r.d.callbacks.on_get_peers_response {
            assert(b.out[a.out.len() as int] == e);
        }
    }
}

proof fn lemma_values_room(r: Run, s: Seq<BModel>, ih: Seq<u8>)
    ensures
        value_steps(r, s, ih).d.peers.k == r.d.peers.k,
        (r.d.peers.table.dom().len() < MAX_INFOHASHES || r.d.peers.table.dom().contains(ih)) ==> (
        value_steps(r, s, ih).d.peers.table.dom().len() < MAX_INFOHASHES || value_steps(
            r,
            s,
            ih,
        ).d.peers.table.dom().contains(ih)),
    decreases s.len(),
{
    if s.len() > 0 {
        lemma_values_room(r, s.drop_last(), ih);
    }
}

/// Every peer that is named in the answer to a query for the peers of an info-hash is told to the
/// owner, where it wants to hear of them, and stored: it is among the last ones, with no more behind
/// it than were named behind it, as far as so many are kept.
pub proof fn law_named_peers_are_stored_and_told(
    r: Run,
    t: Seq<u8>,
    body: Pairs,
    answer: Pairs,
    from: AddrModel,
    now: u64,
    x: TxModel,
    ih: Seq<u8>,
    l: Seq<BModel>,
    i: int,
    p: PeerModel,
)
    requires
        dict_at(body, "r"@) == Some(answer),
        bytes_at(answer, "id"@) is Some,
        bytes_at(answer, "id"@)->0.len() == 20,
        r.d.trans.get(t) == Some(x),
        x.addr == from,
        x.info_hash == Some(ih),
        list_at(answer, "values"@) == Some(l),
        0 <= i < l.len(),
        is_peer_value(l[i], p),
    ensures
        ({
            let b = response_step(r, t, body, from, now);
            &&& r.d.callbacks.on_get_peers_response ==> exists|k: int|
                r.out.len() <= k < b.out.len() && #[trigger] b.out[k] == (
                ActionModel::GetPeersResponse { info_hash: hex_text(ih), peer: p })
            &&& (r.d.peers.table.dom().len() < MAX_INFOHASHES || r.d.peers.table.dom().contains(
                ih,
            )) && l.len() - i <= r.d.peers.k ==> {
                &&& b.d.peers.table.dom().contains(ih)
                &&& is_recent(b.d.peers.table[ih], p, (l.len() - 1 - i) as nat)
            }
        }),
{
    let purpose = purpose_of(Some(x));
    let f = match bytes_at(answer, "nodes"@) {
        Some(b) => found_steps(r, compact_nodes(b), purpose, now),
        None => r,
    };
    if let Some(b) = bytes_at(answer, "nodes"@) {
        lemma_found_keeps_peers(r, compact_nodes(b), purpose, now);
        lemma_found_frame(r, compact_nodes(b), purpose, now);
    }
    lemma_values_are_taken(f, l, ih, i, p);
    let v = value_steps(f, l, ih);
    let b = response_step(r, t, body, from, now);
    let remote = bytes_at(answer, "id"@)->0;
    assert(b.d.peers == v.d.peers);
    if r.d.callbacks.on_get_peers_response {
        let e = ActionModel::GetPeersResponse { info_hash: hex_text(ih), peer: p };
        let k = choose|k: int| f.out.len() <= k < v.out.len() && #[trigger] v.out[k] == e;
        assert(b.out[k] == e);
    }
}

proof fn lemma_found_keeps_peers(
    r: Run,
    s: Seq<(Seq<u8>, IpModel, u16)>,
    p: Purpose,
    now: u64,
)
    ensures
        found_steps(r, s, p, now).d.peers == r.d.peers,
    decreases s.len(),
{
    if s.len() > 0 {
        lemma_found_keeps_peers(r, s.drop_last(), p, now);
    }
}

// ---------------------------------------------------------------------------
// Blacklisting
// ---------------------------------------------------------------------------

/// Blacklisting an address shuts out this address, where there is room, and no other one.
pub proof fn law_only_the_listed_address_is_shut_out(
    m: BlackModel,
    a: AddrModel,
    b: AddrModel,
    now: u64,
)
    requires
        a.ip is V4,
        b.ip is V4,
    ensures
        m.listed.dom().len() < m.max_size ==> m.inserted(ip_text(a.ip), Some(a.port), now).has(
            ip_text(a.ip),
            Some(a.port),
        ),
        b != a ==> m.inserted(ip_text(a.ip), Some(a.port), now).has(ip_text(b.ip), Some(b.port))
            == m.has(ip_text(b.ip), Some(b.port)),
{
    let k = crate::blacklist::black_key(ip_text(a.ip), Some(a.port));
    assert(k == addr_text(a));
    assert(crate::blacklist::black_key(ip_text(b.ip), Some(b.port)) == addr_text(b));
    if b != a {
        if addr_text(a) == addr_text(b) {
            law_addr_text_injective(a, b);
        }
        if ip_text(b.ip) == k {
            lemma_no_colon(b.ip);
            assert(k[ip_text(a.ip).len() as int] == ':');
        }
    }
}

proof fn lemma_no_colon(ip: IpModel)
    requires
        ip is V4,
    ensures
        forall|i: int| 0 <= i < ip_text(ip).len() ==> #[trigger] ip_text(ip)[i] != ':',
{
    if let IpModel::V4(a, b, c, d) = ip {
        lemma_dec_text(a as nat);
        lemma_dec_text(b as nat);
        lemma_dec_text(c as nat);
        lemma_dec_text(d as nat);
    }
}

/// Blacklisting a host shuts out all its ports, where there is room.
pub proof fn law_listed_host_is_shut_out(m: BlackModel, ip: Seq<char>, port: u16, now: u64)
    requires
        m.listed.dom().len() < m.max_size,
    ensures
        m.inserted(ip, None, now).has(ip, Some(port)),
{
}

// ---------------------------------------------------------------------------
// What an answer does not do
// ---------------------------------------------------------------------------

proof fn lemma_found_keeps_others(
    r: Run,
    s: Seq<(Seq<u8>, IpModel, u16)>,
    p: Purpose,
    now: u64,
    other: Seq<u8>,
)
    requires
        forall|i: int| 0 <= i < s.len() ==> (#[trigger] s[i]).0 != other,
    ensures
        lookup(found_steps(r, s, p, now).d.routing.nodes, other) == lookup(
            r.d.routing.nodes,
            other,
        ),
    decreases s.len(),
{
    if s.len() > 0 {
        let front = s.drop_last();
        assert forall|i: int| 0 <= i < front.len() implies (#[trigger] front[i]).0 != other by {
            assert(front[i] == s[i]);
        }
        lemma_found_keeps_others(r, front, p, now, other);
        let b = found_steps(r, front, p, now);
        let f = s.last();
        assert(s[s.len() - 1].0 != other);
        lemma_found_one_frame(b, f, p, now);
        law_put_lookup(
            b.d.routing.nodes,
            f.0,
            NodeModel { id: f.0, addr: AddrModel { ip: f.1, port: f.2 }, last_active: now },
            other,
        );
    }
}

/// Of the nodes that an answer does not name, nothing that is known changes.
pub proof fn law_unnamed_nodes_stay_as_they_are(
    r: Run,
    t: Seq<u8>,
    body: Pairs,
    from: AddrModel,
    now: u64,
    other: Seq<u8>,
)
    requires
        match dict_at(body, "r"@) {
            Some(answer) => match bytes_at(answer, "nodes"@) {
                Some(b) => forall|i: int|
                    0 <= i < b.len() / 26 ==> #[trigger] b.subrange(26 * i, 26 * i + 20) != other,
                None => true,
            },
            None => true,
        },
    ensures
        lookup(response_step(r, t, body, from, now).d.routing.nodes, other) == lookup(
            r.d.routing.nodes,
            other,
        ),
{
    if let Some(answer) = dict_at(body, "r"@) {
        let p = purpose_of(r.d.trans.get(t));
        let remote = bytes_at(answer, "id"@)->0;
        lemma_answer_frame(r, t, answer, remote, from, p, now);
        if let Some(b) = bytes_at(answer, "nodes"@) {
            let s = compact_nodes(b);
            assert forall|i: int| 0 <= i < s.len() implies (#[trigger] s[i]).0 != other by {
                assert(s[i].0 == b.subrange(26 * i, 26 * i + 20));
            }
            lemma_found_keeps_others(r, s, p, now, other);
        }
    }
}

proof fn lemma_full_table_found(r: Run, s: Seq<(Seq<u8>, IpModel, u16)>, p: Purpose, now: u64)
    requires
        r.d.routing.nodes.len() >= r.d.cfg.max_nodes,
    ensures
        found_steps(r, s, p, now) == r,
    decreases s.len(),
{
    if s.len() > 0 {
        lemma_full_table_found(r, s.drop_last(), p, now);
    }
}

/// Where there is no room for more nodes, those that an answer names are neither entered nor asked.
pub proof fn law_full_table_ends_search(
    r: Run,
    t: Seq<u8>,
    body: Pairs,
    answer: Pairs,
    from: AddrModel,
    now: u64,
    q: Seq<char>,
)
    requires
        orderly(r.d.trans),
        r.d.trans.cursor + 1 < r.d.trans.max_cursor,
        r.d.trans.entries.len() < MAX_TRANSACTIONS,
        r.d.routing.nodes.len() >= r.d.cfg.max_nodes,
        dict_at(body, "r"@) == Some(answer),
        bytes_at(answer, "nodes"@) is Some,
        q == "get_peers"@ || q == "find_node"@,
    ensures
        asks_nobody(r, response_step(r, t, body, from, now), q),
        response_step(r, t, body, from, now).d.routing == r.d.routing,
{
    let p = purpose_of(r.d.trans.get(t));
    let remote = bytes_at(answer, "id"@)->0;
    let b = bytes_at(answer, "nodes"@)->0;
    reveal_strlit("get_peers");
    reveal_strlit("find_node");
    reveal_strlit("announce_peer");
    assert("get_peers"@[0] != "announce_peer"@[0] && "find_node"@[0] != "announce_peer"@[0]);
    lemma_full_table_found(r, compact_nodes(b), p, now);
    lemma_rest_of_answer(r, t, answer, remote, from, p, now, q, b);
}

/// An answer that does not say who answers has no effect.
pub proof fn law_answer_without_id_does_nothing(
    r: Run,
    t: Seq<u8>,
    body: Pairs,
    from: AddrModel,
    now: u64,
)
    requires
        match dict_at(body, "r"@) {
            Some(answer) => match bytes_at(answer, "id"@) {
                Some(id) => id.len() != 20,
                None => true,
            },
            None => true,
        },
    ensures
        response_step(r, t, body, from, now) == r,
{
}

// ---------------------------------------------------------------------------
// Whom to begin with
// ---------------------------------------------------------------------------

/// A node to begin with is reached at all addresses that its name was resolved to, and where there
/// are none, at the one that its name writes.
pub proof fn law_resolved_addresses_come_first(resolved: Seq<AddrModel>, written: AddrModel)
    ensures
        resolved.len() > 0 ==> contacts(resolved, Some(written)) == resolved,
        resolved.len() > 0 ==> contacts(resolved, None) == resolved,
        resolved.len() == 0 ==> contacts(resolved, Some(written)) == seq![written],
        resolved.len() == 0 ==> contacts(resolved, None).len() == 0,
{
}

/// A request to shut down changes nothing, and nothing is sent.
pub proof fn law_shutdown_sends_nothing(r: Run, now: u64)
    ensures
        command_step(r, CommandModel::Shutdown, now) == r,
{
}

} // verus!
