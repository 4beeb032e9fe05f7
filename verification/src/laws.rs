//! What holds of the node as a whole.

use vstd::prelude::*;
use vstd::string::*;
use vstd::utf8::{decode_utf8, encode_utf8_decode_utf8, encode_utf8_valid_utf8, valid_utf8};
use crate::bencode::{bytes_at, dict_at, int_at, key, list_at, BModel};
use crate::command::CommandModel;
use crate::codec::{encodable, lemma_put_encodable, MAX_DEPTH};
use crate::keyed::{law_put_lookup, lookup, put};
use crate::krpc::{
    law_query_read_back, law_response_read_back, lemma_keys_differ, message_in, packet, query_msg,
    response_msg, with_bytes, MessageModel, Pairs,
};
use crate::peers::{newest, PeersModel};
use crate::protocol::{
    all_by_distance, announce_step, announced_port, answer_step, cleared, command_step,
    compact_values, drop_steps, find_node_step, find_steps, follow_up, found_step, found_steps,
    get_peers_answer, get_peers_step, give_up_step, give_up_steps, id_args, id_at, join_steps,
    message_step, packet_step, ping_steps, purpose_of, pursue_step, refresh_step, request_step,
    response_step, retry_step, retry_steps, seek_steps, shown_id, tick_step, value_step,
    value_steps, ActionModel, DhtCallbacks, DhtModel, Purpose, Run, QUERY_TIMEOUT,
};
use crate::routing::{law_compact_nodes_read_back, law_nearest, named_nodes, nearest, Entry};
use crate::text::readable;
use crate::transaction::{law_begin_keeps_valid, law_finish, law_retry, TxModel};
use crate::types::{addr_text, ip_text, AddrModel, IpModel, Mode, NodeModel, PeerModel};
use crate::util::{compact_addr, law_compact_addr_read_back};

verus! {

// ---------------------------------------------------------------------------
// What every step keeps
// ---------------------------------------------------------------------------

/// The owner wants to hear of an action; packets and joining are not for the owner to hear of.
pub open spec fn wanted(c: DhtCallbacks, a: ActionModel) -> bool {
    match a {
        ActionModel::Send { .. } => true,
        ActionModel::Join => true,
        ActionModel::GetPeers { .. } => c.on_get_peers,
        ActionModel::GetPeersResponse { .. } => c.on_get_peers_response,
        ActionModel::AnnouncePeer { .. } => c.on_announce_peer,
        ActionModel::Node { .. } => c.on_node,
    }
}

/// The routing table is within its bound.
pub open spec fn within(d: DhtModel) -> bool {
    d.routing.nodes.len() <= d.cfg.max_nodes
}

/// What every step keeps: the set-up and the identifier, order and bounds of the tables, and what
/// was already to be done. What it adds to that, the owner wants to hear of.
pub open spec fn kept(a: Run, b: Run) -> bool {
    &&& b.d.cfg == a.d.cfg
    &&& b.d.ready == a.d.ready
    &&& b.d.callbacks == a.d.callbacks
    &&& b.d.self_id == a.d.self_id
    &&& a.d.valid() ==> b.d.valid()
    &&& b.d.routing.nodes.len() <= a.d.routing.nodes.len() || within(b.d)
    &&& a.out.len() <= b.out.len()
    &&& forall|i: int| 0 <= i < a.out.len() ==> #[trigger] b.out[i] == a.out[i]
    &&& forall|i: int|
        a.out.len() <= i < b.out.len() ==> wanted(a.d.callbacks, #[trigger] b.out[i])
}

pub proof fn lemma_kept_trans(a: Run, b: Run, c: Run)
    requires
        kept(a, b),
        kept(b, c),
    ensures
        kept(a, c),
{
    assert forall|i: int| 0 <= i < a.out.len() implies #[trigger] c.out[i] == a.out[i] by {
        assert(b.out[i] == a.out[i]);
    }
    assert forall|i: int| a.out.len() <= i < c.out.len() implies wanted(
        a.d.callbacks,
        #[trigger] c.out[i],
    ) by {
        if i < b.out.len() {
            assert(c.out[i] == b.out[i]);
        }
    }
}

proof fn lemma_tells(r: Run, is_wanted: bool, a: ActionModel)
    requires
        is_wanted ==> wanted(r.d.callbacks, a),
    ensures
        kept(r, r.tells(is_wanted, a)),
{
}

proof fn lemma_asks(
    r: Run,
    addr: AddrModel,
    q: Seq<char>,
    a: Pairs,
    info_hash: Option<Seq<u8>>,
    target: Option<Seq<u8>>,
    announce_port: Option<u16>,
    now: u64,
)
    ensures
        kept(r, r.asks(addr, q, a, info_hash, target, announce_port, now)),
{
    let tx = TxModel {
        id: r.d.trans.next_id(),
        addr,
        qtype: q,
        responder: None,
        info_hash,
        target,
        announce_port,
        announce_implied_port: false,
        created_at: now,
        retries: 0,
    };
    if r.d.valid() {
        assert(r.d.trans.advanced().valid());
        law_begin_keeps_valid(r.d.trans.advanced(), tx);
    }
}

/// The end of a transaction changes neither the set-up nor the order and the bounds of the tables.
pub proof fn law_ending_keeps(r: Run, t: Seq<u8>)
    ensures
        kept(r, r.finishes(t)),
{
    if r.d.valid() {
        law_finish(r.d.trans, t, t);
    }
}

pub proof fn lemma_put_len(p: Seq<Entry>, k: Seq<u8>, v: NodeModel)
    ensures
        put(p, k, v).len() <= p.len() + 1,
    decreases p.len(),
{
    if p.len() > 0 && p[0].0 != k && !crate::keyed::lex_lt(k, p[0].0) {
        lemma_put_len(p.skip(1), k, v);
    }
}

proof fn lemma_enters(r: Run, id: Seq<u8>, addr: AddrModel, now: u64)
    requires
        r.d.routing.nodes.len() < r.d.cfg.max_nodes,
    ensures
        kept(r, r.enters(id, addr, now)),
{
    let n = NodeModel { id, addr, last_active: now };
    lemma_put_len(r.d.routing.nodes, id, n);
    if r.d.valid() {
        crate::routing::law_insert_keeps_valid(r.d.routing, n);
    }
}

proof fn lemma_notes(r: Run, id: Seq<u8>, addr: AddrModel, now: u64)
    ensures
        kept(r, r.notes(id, addr, now)),
{
    if r.d.routing.nodes.len() < r.d.cfg.max_nodes {
        lemma_enters(r, id, addr, now);
    }
}

proof fn lemma_drops(r: Run, addr: Seq<char>)
    ensures
        kept(r, r.drops(addr)),
{
    r.d.routing.nodes.lemma_filter_len(|e: Entry| addr_text(e.1.addr) != addr);
    if r.d.valid() {
        crate::routing::law_removal_keeps_valid(r.d.routing, addr, 0, 0, 0);
    }
}

proof fn lemma_stores(r: Run, ih: Seq<u8>, p: PeerModel)
    ensures
        kept(r, r.stores(ih, p)),
{
    if r.d.valid() {
        crate::peers::law_insert_keeps_valid(r.d.peers, ih, p);
    }
}

proof fn lemma_pursue(r: Run, addr: AddrModel, p: Purpose, now: u64)
    ensures
        kept(r, pursue_step(r, addr, p, now)),
{
    let text = crate::types::host_port_text(addr.ip, addr.port);
    let m = match p.info_hash {
        Some(ih) => if r.d.trans.get_at("get_peers"@, text) is None {
            r.asks_get_peers(addr, ih, None, now)
        } else {
            r
        },
        None => r,
    };
    if let Some(ih) = p.info_hash {
        lemma_asks(
            r,
            addr,
            "get_peers"@,
            r.d.get_peers_args(ih),
            Some(ih),
            None,
            None,
            now,
        );
    }
    if let Some(target) = p.target {
        lemma_asks(
            m,
            addr,
            "find_node"@,
            m.d.find_node_args(target),
            None,
            Some(target),
            None,
            now,
        );
        lemma_kept_trans(r, m, m.asks_find_node(addr, target, now));
    }
}

proof fn lemma_found(r: Run, n: (Seq<u8>, IpModel, u16), p: Purpose, now: u64)
    ensures
        kept(r, found_step(r, n, p, now)),
{
    let addr = AddrModel { ip: n.1, port: n.2 };
    if !(r.d.blacklist.has(ip_text(n.1), Some(n.2)) || r.d.routing.nodes.len()
        >= r.d.cfg.max_nodes) {
        let r1 = r.enters(n.0, addr, now);
        lemma_enters(r, n.0, addr, now);
        let e = ActionModel::Node {
            id: crate::hexcode::hex_text(n.0),
            ip: ip_text(n.1),
            port: n.2,
        };
        let r2 = r1.tells(r.d.callbacks.on_node, e);
        lemma_tells(r1, r.d.callbacks.on_node, e);
        lemma_kept_trans(r, r1, r2);
        lemma_pursue(r2, addr, p, now);
        lemma_kept_trans(r, r2, pursue_step(r2, addr, p, now));
    }
}

proof fn lemma_found_all(r: Run, s: Seq<(Seq<u8>, IpModel, u16)>, p: Purpose, now: u64)
    ensures
        kept(r, found_steps(r, s, p, now)),
    decreases s.len(),
{
    if s.len() > 0 {
        lemma_found_all(r, s.drop_last(), p, now);
        let b = found_steps(r, s.drop_last(), p, now);
        lemma_found(b, s.last(), p, now);
        lemma_kept_trans(r, b, found_step(b, s.last(), p, now));
    }
}

proof fn lemma_value(r: Run, v: BModel, ih: Seq<u8>)
    ensures
        kept(r, value_step(r, v, ih)),
{
    if let BModel::Bytes(b) = v {
        if b.len() == 6 {
            let peer = PeerModel {
                ip: crate::util::host_at(b, 0),
                port: crate::util::port_at(b, 4),
                token: None,
            };
            let r1 = r.stores(ih, peer);
            lemma_stores(r, ih, peer);
            let e = ActionModel::GetPeersResponse {
                info_hash: crate::hexcode::hex_text(ih),
                peer,
            };
            lemma_tells(r1, r.d.callbacks.on_get_peers_response, e);
            lemma_kept_trans(r, r1, r1.tells(r.d.callbacks.on_get_peers_response, e));
        }
    }
}

proof fn lemma_values(r: Run, s: Seq<BModel>, ih: Seq<u8>)
    ensures
        kept(r, value_steps(r, s, ih)),
    decreases s.len(),
{
    if s.len() > 0 {
        lemma_values(r, s.drop_last(), ih);
        let b = value_steps(r, s.drop_last(), ih);
        lemma_value(b, s.last(), ih);
        lemma_kept_trans(r, b, value_step(b, s.last(), ih));
    }
}

proof fn lemma_follow_up(
    r: Run,
    t: Seq<u8>,
    answer: Pairs,
    remote: Seq<u8>,
    addr: AddrModel,
    p: Purpose,
    now: u64,
)
    ensures
        kept(r, follow_up(r, t, answer, remote, addr, p, now)),
{
    if p.announce is Some && p.info_hash is Some {
        let (port, implied) = p.announce->0;
        let ih = p.info_hash->0;
        match bytes_at(answer, "token"@) {
            Some(token) => {
                let a = r.d.announce_args(remote, ih, port, token, implied);
                lemma_asks(r, addr, "announce_peer"@, a, Some(ih), None, None, now);
                let m = r.asks(addr, "announce_peer"@, a, Some(ih), None, None, now);
                law_ending_keeps(m, t);
                lemma_kept_trans(r, m, m.finishes(t));
            },
            None => {
                law_ending_keeps(r, t);
            },
        }
    }
}

proof fn lemma_answer(
    r: Run,
    t: Seq<u8>,
    answer: Pairs,
    remote: Seq<u8>,
    addr: AddrModel,
    p: Purpose,
    now: u64,
)
    ensures
        kept(r, answer_step(r, t, answer, remote, addr, p, now)),
{
    let r1 = match bytes_at(answer, "nodes"@) {
        Some(b) => found_steps(r, crate::util::compact_nodes(b), p, now),
        None => r,
    };
    if bytes_at(answer, "nodes"@) is Some {
        lemma_found_all(r, crate::util::compact_nodes(bytes_at(answer, "nodes"@)->0), p, now);
    }
    let r2 = match (list_at(answer, "values"@), p.info_hash) {
        (Some(l), Some(ih)) => value_steps(r1, l, ih).finishes(t),
        _ => r1,
    };
    if list_at(answer, "values"@) is Some && p.info_hash is Some {
        let l = list_at(answer, "values"@)->0;
        let ih = p.info_hash->0;
        lemma_values(r1, l, ih);
        law_ending_keeps(value_steps(r1, l, ih), t);
        lemma_kept_trans(r1, value_steps(r1, l, ih), r2);
    }
    lemma_kept_trans(r, r1, r2);
    let r3 = follow_up(r2, t, answer, remote, addr, p, now);
    lemma_follow_up(r2, t, answer, remote, addr, p, now);
    lemma_kept_trans(r, r2, r3);
    law_ending_keeps(r3, t);
    lemma_kept_trans(r, r3, r3.finishes(t));
}

/// Whatever query comes in, the node keeps its set-up, its tables stay in order and within their
/// bounds, and its owner only hears of what it wants to hear of.
pub proof fn law_request_keeps(
    r: Run,
    t: Seq<u8>,
    body: Pairs,
    addr: AddrModel,
    fresh: Seq<char>,
    now: u64,
)
    ensures
        kept(r, request_step(r, t, body, addr, fresh, now)),
{
    let end = request_step(r, t, body, addr, fresh, now);
    if bytes_at(body, "q"@) is Some && dict_at(body, "a"@) is Some && valid_utf8(
        bytes_at(body, "q"@)->0,
    ) && id_at(dict_at(body, "a"@)->0, "id"@) is Some {
        let q = decode_utf8(bytes_at(body, "q"@)->0);
        let a = dict_at(body, "a"@)->0;
        let remote = id_at(a, "id"@)->0;
        if q == "ping"@ {
        } else if q == "find_node"@ {
            if r.d.cfg.mode == Mode::Crawl {
                lemma_notes(r, remote, addr, now);
            } else if id_at(a, "target"@) is Some {
                let target = id_at(a, "target"@)->0;
                let m = r.answers(
                    addr,
                    t,
                    with_bytes(
                        id_args(r.d.id_for(Some(target))),
                        "nodes"@,
                        crate::routing::compact_run(
                            crate::routing::nearest(r.d.routing.nodes, target, r.d.cfg.k),
                        ),
                    ),
                );
                lemma_notes(m, remote, addr, now);
                lemma_kept_trans(r, m, end);
            }
        } else if q == "get_peers"@ {
            if id_at(a, "info_hash"@) is Some {
                let ih = id_at(a, "info_hash"@)->0;
                let ip = ip_text(addr.ip);
                let token = r.d.tokens.token(ip, fresh, now);
                let d = DhtModel { tokens: r.d.tokens.issued(ip, fresh, now), ..r.d };
                let r1 = (Run { d, ..r }).answers(addr, t, get_peers_answer(d, ih, token));
                assert(kept(r, r1));
                let e = ActionModel::GetPeers {
                    info_hash: crate::hexcode::hex_text(ih),
                    ip,
                    port: addr.port,
                };
                let r2 = r1.tells(d.callbacks.on_get_peers, e);
                lemma_tells(r1, d.callbacks.on_get_peers, e);
                lemma_kept_trans(r, r1, r2);
                lemma_notes(r2, remote, addr, now);
                lemma_kept_trans(r, r2, end);
            }
        } else if q == "announce_peer"@ {
            lemma_announce(r, t, a, remote, addr, now);
        } else {
            lemma_notes(r, remote, addr, now);
        }
    }
}

proof fn lemma_announce(
    r: Run,
    t: Seq<u8>,
    a: Pairs,
    remote: Seq<u8>,
    addr: AddrModel,
    now: u64,
)
    ensures
        kept(r, announce_step(r, t, a, remote, addr, now)),
{
    let end = announce_step(r, t, a, remote, addr, now);
    let ip = ip_text(addr.ip);
    if id_at(a, "info_hash"@) is Some && int_at(a, "port"@) is Some && bytes_at(a, "token"@) is Some
        && r.d.tokens.accepts(ip, readable(bytes_at(a, "token"@)->0), now) {
        let ih = id_at(a, "info_hash"@)->0;
        let token = readable(bytes_at(a, "token"@)->0);
        let port = announced_port(a, int_at(a, "port"@)->0, addr);
        let p = PeerModel { ip: addr.ip, port, token: Some(token) };
        let r1 = if r.d.cfg.mode == Mode::Standard {
            r.stores(ih, p).answers(addr, t, id_args(r.d.id_for(Some(remote))))
        } else {
            r
        };
        if r.d.cfg.mode == Mode::Standard {
            lemma_stores(r, ih, p);
            lemma_kept_trans(r, r.stores(ih, p), r1);
        }
        let e = ActionModel::AnnouncePeer { info_hash: crate::hexcode::hex_text(ih), ip, port };
        let r2 = r1.tells(r.d.callbacks.on_announce_peer, e);
        lemma_tells(r1, r.d.callbacks.on_announce_peer, e);
        lemma_kept_trans(r, r1, r2);
        lemma_notes(r2, remote, addr, now);
        lemma_kept_trans(r, r2, end);
    }
}

/// The same holds of an answer.
pub proof fn law_response_keeps(r: Run, t: Seq<u8>, body: Pairs, addr: AddrModel, now: u64)
    ensures
        kept(r, response_step(r, t, body, addr, now)),
{
    if let Some(answer) = dict_at(body, "r"@) {
        if let Some(remote) = id_at(answer, "id"@) {
            lemma_answer(r, t, answer, remote, addr, purpose_of(r.d.trans.get(t)), now);
        }
    }
}

/// The same holds of every message.
pub proof fn law_message_keeps(
    r: Run,
    m: MessageModel,
    addr: AddrModel,
    fresh: Seq<char>,
    now: u64,
)
    ensures
        kept(r, message_step(r, m, addr, fresh, now)),
{
    law_request_keeps(r, m.t, m.body, addr, fresh, now);
    law_response_keeps(r, m.t, m.body, addr, now);
    law_ending_keeps(r, m.t);
}

/// The same holds of every packet.
pub proof fn law_packet_keeps(
    r: Run,
    data: Seq<u8>,
    addr: AddrModel,
    fresh: Seq<char>,
    now: u64,
)
    ensures
        kept(r, packet_step(r, data, addr, fresh, now)),
{
    if let Some(m) = message_in(data) {
        law_message_keeps(r, m, addr, fresh, now);
    }
}

/// The same holds of a search for the peers of an info-hash.
pub proof fn law_search_keeps(
    r: Run,
    s: Seq<Entry>,
    ih: Seq<u8>,
    announce_port: Option<u16>,
    once: bool,
    now: u64,
)
    ensures
        kept(r, seek_steps(r, s, ih, announce_port, once, now)),
    decreases s.len(),
{
    if s.len() > 0 {
        law_search_keeps(r, s.drop_last(), ih, announce_port, once, now);
        let b = seek_steps(r, s.drop_last(), ih, announce_port, once, now);
        let addr = s.last().1.addr;
        lemma_asks(
            b,
            addr,
            "get_peers"@,
            b.d.get_peers_args(ih),
            Some(ih),
            None,
            announce_port,
            now,
        );
        lemma_kept_trans(r, b, b.asks_get_peers(addr, ih, announce_port, now));
    }
}

/// The same holds of every request of the owner.
pub proof fn law_command_keeps(r: Run, c: CommandModel, now: u64)
    ensures
        kept(r, command_step(r, c, now)),
{
    match c {
        CommandModel::GetPeers { info_hash } => {
            if let Some(ih) = crate::types::info_hash_of(info_hash) {
                law_search_keeps(r, all_by_distance(r.d, ih), ih, None, true, now);
            }
        },
        CommandModel::AnnouncePeer { info_hash, port } => {
            if let Some(ih) = crate::types::info_hash_of(info_hash) {
                law_search_keeps(r, all_by_distance(r.d, ih), ih, Some(port), true, now);
            }
        },
        CommandModel::Shutdown => {},
    }
}

pub proof fn lemma_find(r: Run, s: Seq<(AddrModel, Seq<u8>)>, now: u64)
    ensures
        kept(r, find_steps(r, s, now)),
    decreases s.len(),
{
    if s.len() > 0 {
        lemma_find(r, s.drop_last(), now);
        let b = find_steps(r, s.drop_last(), now);
        let target = s.last().1;
        lemma_asks(
            b,
            s.last().0,
            "find_node"@,
            b.d.find_node_args(target),
            None,
            Some(target),
            None,
            now,
        );
        lemma_kept_trans(r, b, b.asks_find_node(s.last().0, target, now));
    }
}

/// The same holds of joining the network.
pub proof fn law_join_keeps(r: Run, hosts: Seq<Seq<AddrModel>>, now: u64)
    ensures
        kept(r, join_steps(r, hosts, now)),
    decreases hosts.len(),
{
    if hosts.len() > 0 {
        law_join_keeps(r, hosts.drop_last(), now);
        let b = join_steps(r, hosts.drop_last(), now);
        let id = r.d.self_id;
        let s = hosts.last().map_values(|a: AddrModel| (a, id));
        lemma_find(b, s, now);
        lemma_kept_trans(r, b, find_steps(b, s, now));
    }
}

pub proof fn lemma_retry(r: Run, s: Seq<TxModel>, now: u64)
    ensures
        kept(r, retry_steps(r, s, now)),
    decreases s.len(),
{
    if s.len() > 0 {
        lemma_retry(r, s.drop_last(), now);
        let b = retry_steps(r, s.drop_last(), now);
        if b.d.valid() {
            law_retry(b.d.trans, s.last().id, now, s.last().id);
        }
        assert(kept(b, retry_step(b, s.last(), now)));
        lemma_kept_trans(r, b, retry_step(b, s.last(), now));
    }
}

pub proof fn lemma_give_up(r: Run, s: Seq<TxModel>, managed: bool, now: u64)
    ensures
        kept(r, give_up_steps(r, s, managed, now)),
    decreases s.len(),
{
    if s.len() > 0 {
        lemma_give_up(r, s.drop_last(), managed, now);
        let b = give_up_steps(r, s.drop_last(), managed, now);
        let t = s.last().id;
        let m = match b.d.trans.get(t) {
            Some(x) => if managed && x.qtype == "ping"@ {
                b.drops(addr_text(x.addr))
            } else {
                Run {
                    d: DhtModel {
                        blacklist: b.d.blacklist.inserted(
                            ip_text(x.addr.ip),
                            Some(x.addr.port),
                            now,
                        ),
                        ..b.d
                    },
                    ..b
                }
            },
            None => b,
        };
        if let Some(x) = b.d.trans.get(t) {
            lemma_drops(b, addr_text(x.addr));
            if b.d.valid() {
                crate::blacklist::law_insert_keeps_bound(
                    b.d.blacklist,
                    ip_text(x.addr.ip),
                    Some(x.addr.port),
                    now,
                );
            }
        }
        assert(kept(b, m));
        law_ending_keeps(m, t);
        lemma_kept_trans(b, m, m.finishes(t));
        lemma_kept_trans(r, b, give_up_step(b, t, managed, now));
    }
}

pub proof fn lemma_drop_all(r: Run, s: Seq<Seq<char>>)
    ensures
        kept(r, drop_steps(r, s)),
    decreases s.len(),
{
    if s.len() > 0 {
        lemma_drop_all(r, s.drop_last());
        let b = drop_steps(r, s.drop_last());
        lemma_drops(b, s.last());
        lemma_kept_trans(r, b, b.drops(s.last()));
    }
}

pub proof fn lemma_refresh(r: Run, noise: Seq<u8>, now: u64)
    ensures
        kept(r, refresh_step(r, noise, now)),
{
    let plan = r.d.routing.refresh(
        now,
        r.d.cfg.kbucket_expired_after,
        r.d.cfg.refresh_node_num,
        r.d.cfg.mode == Mode::Crawl,
        noise,
    );
    let m = find_steps(r, plan.tasks, now);
    lemma_find(r, plan.tasks, now);
    lemma_drop_all(m, plan.clear);
    lemma_kept_trans(r, m, drop_steps(m, plan.clear));
}

pub proof fn lemma_ping(r: Run, s: Seq<Entry>, now: u64)
    ensures
        kept(r, ping_steps(r, s, now)),
    decreases s.len(),
{
    if s.len() > 0 {
        lemma_ping(r, s.drop_last(), now);
        let b = ping_steps(r, s.drop_last(), now);
        let addr = s.last().1.addr;
        lemma_asks(b, addr, "ping"@, id_args(b.d.id_for(None)), None, None, None, now);
        lemma_kept_trans(r, b, b.asks_ping(addr, now));
    }
}

pub proof fn lemma_cleared(r: Run, now: u64)
    ensures
        kept(r, cleared(r, now)),
{
    if r.d.valid() {
        crate::blacklist::law_clear_keeps_bound(r.d.blacklist, now);
    }
}

pub proof fn lemma_pruned(r: Run, now: u64)
    ensures
        ({
            let routing = r.d.routing.pruned(r.d.cfg.node_expired_after, r.d.cfg.max_nodes, now);
            let end = Run { d: DhtModel { routing, ..r.d }, ..r };
            kept(r, end) && within(end.d)
        }),
{
    crate::routing::law_pruned_bound(
        r.d.routing,
        r.d.cfg.node_expired_after,
        r.d.cfg.max_nodes,
        now,
    );
    if r.d.valid() {
        crate::routing::law_removal_keeps_valid(
            r.d.routing,
            Seq::empty(),
            r.d.cfg.node_expired_after,
            r.d.cfg.max_nodes,
            now,
        );
    }
}

/// The same holds of the upkeep. A managed node comes out of it within the bound of its routing
/// table, unless it knows no other.
pub proof fn law_tick_keeps(r: Run, managed: bool, noise: Seq<u8>, now: u64)
    ensures
        kept(r, tick_step(r, managed, noise, now)),
        managed ==> within(tick_step(r, managed, noise, now).d),
{
    if r.d.routing.nodes.len() > 0 {
        let tries = r.d.cfg.try_times;
        let due = r.d.trans.to_retry(QUERY_TIMEOUT, tries, now);
        let over = r.d.trans.to_remove(QUERY_TIMEOUT, tries, now);
        let r1 = retry_steps(r, due, now);
        lemma_retry(r, due, now);
        let r2 = give_up_steps(r1, over, managed, now);
        lemma_give_up(r1, over, managed, now);
        lemma_kept_trans(r, r1, r2);
        let r3 = refresh_step(r2, noise, now);
        lemma_refresh(r2, noise, now);
        lemma_kept_trans(r, r2, r3);
        if managed {
            let e = r3.d.routing.expired(r3.d.cfg.node_expired_after, now);
            let r4 = ping_steps(r3, e, now);
            lemma_ping(r3, e, now);
            lemma_kept_trans(r, r3, r4);
            let r5 = cleared(r4, now);
            lemma_cleared(r4, now);
            lemma_kept_trans(r, r4, r5);
            lemma_pruned(r5, now);
            lemma_kept_trans(r, r5, tick_step(r, managed, noise, now));
        } else {
            lemma_cleared(r3, now);
            lemma_kept_trans(r, r3, cleared(r3, now));
        }
    }
}

// ---------------------------------------------------------------------------
// Queries and their answers
// ---------------------------------------------------------------------------

pub proof fn lemma_id_args(id: Seq<u8>)
    ensures
        encodable(BModel::Dict(id_args(id)), (MAX_DEPTH - 1) as nat),
        bytes_at(id_args(id), "id"@) == Some(id),
{
    let empty: Pairs = Seq::empty();
    lemma_put_encodable(empty, key("id"@), BModel::Bytes(id), (MAX_DEPTH - 2) as nat);
    law_put_lookup(empty, key("id"@), BModel::Bytes(id), key("id"@));
}

/// A ping is answered to its sender, under its transaction, with the identifier of the node, and
/// changes nothing.
pub proof fn law_ping_is_answered(
    r: Run,
    t: Seq<u8>,
    id: Seq<u8>,
    addr: AddrModel,
    fresh: Seq<char>,
    now: u64,
)
    requires
        id.len() == 20,
        !r.d.blacklist.has(ip_text(addr.ip), Some(addr.port)),
    ensures
        packet_step(r, packet(query_msg(t, "ping"@, id_args(id))), addr, fresh, now) == r.sends(
            addr,
            packet(response_msg(t, id_args(r.d.id_for(Some(id))))),
        ),
{
    lemma_id_args(id);
    law_query_read_back(t, "ping"@, id_args(id));
    encode_utf8_valid_utf8("ping"@);
    encode_utf8_decode_utf8("ping"@);
}

/// A query that does not name its sender is refused under its transaction, and changes nothing.
pub proof fn law_query_without_id_is_refused(
    r: Run,
    t: Seq<u8>,
    q: Seq<char>,
    a: Pairs,
    addr: AddrModel,
    fresh: Seq<char>,
    now: u64,
)
    requires
        encodable(BModel::Dict(a), (MAX_DEPTH - 1) as nat),
        id_at(a, "id"@) is None,
        !r.d.blacklist.has(ip_text(addr.ip), Some(addr.port)),
    ensures
        packet_step(r, packet(query_msg(t, q, a)), addr, fresh, now) == r.refuses(
            addr,
            t,
            "invalid id"@,
        ),
{
    law_query_read_back(t, q, a);
    encode_utf8_valid_utf8(q);
}

/// Nothing that a blacklisted sender sends has any effect.
pub proof fn law_blacklisted_sender_is_ignored(
    r: Run,
    data: Seq<u8>,
    addr: AddrModel,
    fresh: Seq<char>,
    now: u64,
)
    requires
        r.d.blacklist.has(ip_text(addr.ip), Some(addr.port)),
    ensures
        packet_step(r, data, addr, fresh, now) == r,
{
}

/// An answer has no effect where it comes from another address than the query went to.
pub proof fn law_answer_from_elsewhere_is_ignored(
    r: Run,
    data: Seq<u8>,
    addr: AddrModel,
    fresh: Seq<char>,
    now: u64,
)
    requires
        message_in(data) is Some,
        message_in(data)->0.y == "r"@,
        r.d.trans.get(message_in(data)->0.t) is Some,
        r.d.trans.get(message_in(data)->0.t)->0.addr != addr,
    ensures
        packet_step(r, data, addr, fresh, now) == r,
{
    reveal_strlit("r");
    reveal_strlit("q");
    assert("r"@[0] != "q"@[0]);
}

/// An error ends the transaction that it belongs to, and does nothing else.
pub proof fn law_error_ends_transaction(
    r: Run,
    data: Seq<u8>,
    addr: AddrModel,
    fresh: Seq<char>,
    now: u64,
)
    requires
        r.d.valid(),
        message_in(data) is Some,
        message_in(data)->0.y == "e"@,
        !r.d.blacklist.has(ip_text(addr.ip), Some(addr.port)),
    ensures
        packet_step(r, data, addr, fresh, now) == r.finishes(message_in(data)->0.t),
        packet_step(r, data, addr, fresh, now).d.trans.get(message_in(data)->0.t) is None,
{
    reveal_strlit("e");
    reveal_strlit("r");
    reveal_strlit("q");
    assert("e"@[0] != "q"@[0] && "e"@[0] != "r"@[0]);
    law_finish(r.d.trans, message_in(data)->0.t, message_in(data)->0.t);
}

/// A query for nodes has come to its end once it is answered.
pub proof fn law_answered_find_node_has_ended(
    r: Run,
    t: Seq<u8>,
    answer: Pairs,
    remote: Seq<u8>,
    addr: AddrModel,
    p: Purpose,
    now: u64,
)
    requires
        r.d.valid(),
        p.finding,
        p.info_hash is None,
    ensures
        answer_step(r, t, answer, remote, addr, p, now).d.trans.get(t) is None,
{
    let r1 = match bytes_at(answer, "nodes"@) {
        Some(b) => found_steps(r, crate::util::compact_nodes(b), p, now),
        None => r,
    };
    if let Some(b) = bytes_at(answer, "nodes"@) {
        lemma_found_all(r, crate::util::compact_nodes(b), p, now);
    }
    law_finish(r1.d.trans, t, t);
}

/// A query for peers has come to its end once an answer names peers, and whatever the answer where
/// a peer was to be announced.
pub proof fn law_answered_get_peers_has_ended(
    r: Run,
    t: Seq<u8>,
    body: Pairs,
    answer: Pairs,
    addr: AddrModel,
    now: u64,
    x: TxModel,
)
    requires
        r.d.valid(),
        r.d.trans.get(t) == Some(x),
        x.addr == addr,
        x.qtype == "get_peers"@,
        x.info_hash is Some,
        dict_at(body, "r"@) == Some(answer),
        bytes_at(answer, "id"@) is Some,
        bytes_at(answer, "id"@)->0.len() == 20,
        list_at(answer, "values"@) is Some || x.announce_port is Some,
    ensures
        ({
            let after = response_step(r, t, body, addr, now).d.trans.entries;
            forall|i: int| 0 <= i < after.len() ==> (#[trigger] after[i]).id != t
        }),
{
    let p = purpose_of(Some(x));
    let ih = x.info_hash->0;
    let remote = bytes_at(answer, "id"@)->0;
    let found = match bytes_at(answer, "nodes"@) {
        Some(b) => found_steps(r, crate::util::compact_nodes(b), p, now),
        None => r,
    };
    if let Some(b) = bytes_at(answer, "nodes"@) {
        lemma_found_all(r, crate::util::compact_nodes(b), p, now);
    }
    let stored = match list_at(answer, "values"@) {
        Some(l) => value_steps(found, l, ih).finishes(t),
        None => found,
    };
    if let Some(l) = list_at(answer, "values"@) {
        let v = value_steps(found, l, ih);
        lemma_values(found, l, ih);
        law_finish(v.d.trans, t, t);
        law_ending_keeps(v, t);
    }
    assert(stored.d.valid());
    if let Some((port, implied)) = p.announce {
        let sent = match bytes_at(answer, "token"@) {
            Some(token) => {
                let a = stored.d.announce_args(remote, ih, port, token, implied);
                stored.asks(addr, "announce_peer"@, a, Some(ih), None, None, now)
            },
            None => stored,
        };
        if let Some(token) = bytes_at(answer, "token"@) {
            let a = stored.d.announce_args(remote, ih, port, token, implied);
            lemma_asks(stored, addr, "announce_peer"@, a, Some(ih), None, None, now);
        }
        law_finish(sent.d.trans, t, t);
    }
    let end = response_step(r, t, body, addr, now);
    assert(end == follow_up(stored, t, answer, remote, addr, p, now));
    assert(end.d.trans.get(t) is None);
    crate::transaction::lemma_place(end.d.trans.entries, t);
}

// ---------------------------------------------------------------------------
// Announcements
// ---------------------------------------------------------------------------

/// An announcement has no effect without a token that its host holds.
pub proof fn law_announce_without_token_is_ignored(
    r: Run,
    t: Seq<u8>,
    a: Pairs,
    remote: Seq<u8>,
    addr: AddrModel,
    now: u64,
)
    requires
        bytes_at(a, "token"@) is None || !r.d.tokens.accepts(
            ip_text(addr.ip),
            readable(bytes_at(a, "token"@)->0),
            now,
        ),
    ensures
        announce_step(r, t, a, remote, addr, now) == r,
{
}

/// The token that a host is given when it asks for peers is what its announcement needs, as long as
/// it has not expired.
pub proof fn law_given_token_is_accepted(
    r: Run,
    t: Seq<u8>,
    a: Pairs,
    remote: Seq<u8>,
    addr: AddrModel,
    fresh: Seq<char>,
    now: u64,
    later: u64,
)
    requires
        id_at(a, "info_hash"@) is Some,
        get_peers_step(r, t, a, remote, addr, fresh, now).d.tokens.holds(ip_text(addr.ip), later),
    ensures
        ({
            let given = r.d.tokens.token(ip_text(addr.ip), fresh, now);
            let after = get_peers_step(r, t, a, remote, addr, fresh, now).d;
            &&& after.tokens.accepts(ip_text(addr.ip), readable(key(given)), later)
            &&& bytes_at(
                get_peers_answer(
                    DhtModel { tokens: after.tokens, ..r.d },
                    id_at(a, "info_hash"@)->0,
                    given,
                ),
                "token"@,
            ) == Some(key(given))
        }),
{
    let ip = ip_text(addr.ip);
    let given = r.d.tokens.token(ip, fresh, now);
    crate::token::law_issued_token_is_accepted(r.d.tokens, ip, fresh, now, later, given);
    encode_utf8_valid_utf8(given);
    encode_utf8_decode_utf8(given);
    let d = DhtModel { tokens: r.d.tokens.issued(ip, fresh, now), ..r.d };
    assert(get_peers_step(r, t, a, remote, addr, fresh, now).d.tokens == d.tokens);
    lemma_token_given(d, id_at(a, "info_hash"@)->0, given);
}

/// A peer that was announced is handed out, as the last of the peers and with no nodes beside them,
/// to whoever then asks for the peers of the info-hash.
pub proof fn law_announced_peer_is_handed_out(
    r: Run,
    t: Seq<u8>,
    a: Pairs,
    remote: Seq<u8>,
    addr: AddrModel,
    now: u64,
    token: Seq<char>,
)
    requires
        r.d.cfg.mode == Mode::Standard,
        r.d.cfg.k > 0,
        r.d.peers.k > 0,
        addr.ip is V4,
        id_at(a, "info_hash"@) is Some,
        int_at(a, "port"@) is Some,
        bytes_at(a, "token"@) is Some,
        r.d.tokens.accepts(ip_text(addr.ip), readable(bytes_at(a, "token"@)->0), now),
        r.d.peers.table.dom().len() < crate::peers::MAX_INFOHASHES
            || r.d.peers.table.dom().contains(id_at(a, "info_hash"@)->0),
    ensures
        ({
            let ih = id_at(a, "info_hash"@)->0;
            let port = announced_port(a, int_at(a, "port"@)->0, addr);
            let after = announce_step(r, t, a, remote, addr, now).d;
            let values = list_at(get_peers_answer(after, ih, token), "values"@);
            &&& values is Some
            &&& values->0.len() > 0
            &&& values->0.last() == BModel::Bytes(compact_addr(addr.ip, port)->0)
            &&& lookup(get_peers_answer(after, ih, token), key("nodes"@)) is None
        }),
{
    let ih = id_at(a, "info_hash"@)->0;
    let port = announced_port(a, int_at(a, "port"@)->0, addr);
    let p = PeerModel {
        ip: addr.ip,
        port,
        token: Some(readable(bytes_at(a, "token"@)->0)),
    };
    let after = announce_step(r, t, a, remote, addr, now).d;
    assert(after.peers == r.d.peers.inserted(ih, p));
    assert(after.cfg == r.d.cfg);
    crate::peers::law_insert_then_get(r.d.peers, ih, p, r.d.cfg.k, ih);
    let stored = newest(after.peers.of(ih), after.cfg.k);
    assert(stored.len() > 0 && stored.last() == p);
    let id = id_args(after.id_for(Some(ih)));
    let vals = BModel::List(compact_values(stored));
    reveal_strlit("token");
    reveal_strlit("values");
    assert("token"@[0] != "values"@[0]);
    lemma_keys_differ("token"@, "values"@);
    law_put_lookup(id, key("values"@), vals, key("values"@));
    law_put_lookup(
        put(id, key("values"@), vals),
        key("token"@),
        BModel::Bytes(key(token)),
        key("values"@),
    );
    reveal_strlit("id");
    reveal_strlit("nodes");
    assert("nodes"@[0] != "token"@[0] && "nodes"@[0] != "values"@[0] && "nodes"@[0] != "id"@[0]);
    lemma_keys_differ("nodes"@, "token"@);
    lemma_keys_differ("nodes"@, "values"@);
    lemma_keys_differ("nodes"@, "id"@);
    let empty: Pairs = Seq::empty();
    assert(lookup(empty, key("nodes"@)) is None);
    law_put_lookup(empty, key("id"@), BModel::Bytes(after.id_for(Some(ih))), key("nodes"@));
    law_put_lookup(id, key("values"@), vals, key("nodes"@));
    law_put_lookup(
        put(id, key("values"@), vals),
        key("token"@),
        BModel::Bytes(key(token)),
        key("nodes"@),
    );
}

// ---------------------------------------------------------------------------
// The two modes
// ---------------------------------------------------------------------------

/// A standard node shows one identifier to everybody. A crawler shows one that lies next to
/// whatever is asked for, and is told apart by its last five bytes.
pub proof fn law_shown_id(mode: Mode, self_id: Seq<u8>, target: Seq<u8>)
    requires
        self_id.len() == 20,
        target.len() == 20,
    ensures
        shown_id(Mode::Standard, self_id, Some(target)) == self_id,
        shown_id(mode, self_id, None) == self_id,
        shown_id(mode, self_id, Some(target)).len() == 20,
        shown_id(Mode::Crawl, self_id, Some(target)).take(15) == target.take(15),
        shown_id(Mode::Crawl, self_id, Some(target)).skip(15) == self_id.skip(15),
{
    let s = shown_id(Mode::Crawl, self_id, Some(target));
    assert(s.take(15) =~= target.take(15));
    assert(s.skip(15) =~= self_id.skip(15));
}

/// No query makes a crawler store a peer.
pub proof fn law_crawler_stores_no_announced_peer(
    r: Run,
    t: Seq<u8>,
    body: Pairs,
    addr: AddrModel,
    fresh: Seq<char>,
    now: u64,
)
    requires
        r.d.cfg.mode == Mode::Crawl,
    ensures
        request_step(r, t, body, addr, fresh, now).d.peers == r.d.peers,
{
}

/// A crawler finds torrents: whoever asks it for peers and then announces a peer with the token that
/// it was given tells the owner of the crawler the info-hash, the host and the port.
pub proof fn law_crawler_hears_of_announcements(
    r: Run,
    t: Seq<u8>,
    a: Pairs,
    announcement: Pairs,
    remote: Seq<u8>,
    addr: AddrModel,
    fresh: Seq<char>,
    now: u64,
    later: u64,
)
    requires
        r.d.cfg.mode == Mode::Crawl,
        r.d.callbacks.on_announce_peer,
        id_at(a, "info_hash"@) is Some,
        get_peers_step(r, t, a, remote, addr, fresh, now).d.tokens.holds(ip_text(addr.ip), later),
        id_at(announcement, "info_hash"@) is Some,
        int_at(announcement, "port"@) is Some,
        bytes_at(announcement, "token"@) == Some(
            key(r.d.tokens.token(ip_text(addr.ip), fresh, now)),
        ),
    ensures
        ({
            let asked = get_peers_step(r, t, a, remote, addr, fresh, now);
            announce_step(asked, t, announcement, remote, addr, later).out == asked.out.push(
                ActionModel::AnnouncePeer {
                    info_hash: crate::hexcode::hex_text(id_at(announcement, "info_hash"@)->0),
                    ip: ip_text(addr.ip),
                    port: announced_port(announcement, int_at(announcement, "port"@)->0, addr),
                },
            )
        }),
{
    law_given_token_is_accepted(r, t, a, remote, addr, fresh, now, later);
}

/// A crawler hands out no nodes: it leaves queries for them unanswered, and names none to those who
/// ask for peers.
pub proof fn law_crawler_names_no_nodes(
    r: Run,
    t: Seq<u8>,
    a: Pairs,
    remote: Seq<u8>,
    addr: AddrModel,
    ih: Seq<u8>,
    token: Seq<char>,
    now: u64,
)
    requires
        r.d.cfg.mode == Mode::Crawl,
    ensures
        find_node_step(r, t, a, remote, addr, now).out == r.out,
        bytes_at(get_peers_answer(r.d, ih, token), "nodes"@) == Some(Seq::<u8>::empty()),
{
    let id = id_args(r.d.id_for(Some(ih)));
    law_put_lookup(
        with_bytes(id, "token"@, key(token)),
        key("nodes"@),
        BModel::Bytes(Seq::empty()),
        key("nodes"@),
    );
}

// ---------------------------------------------------------------------------
// Upkeep
// ---------------------------------------------------------------------------

/// An address that never answered is blacklisted when its query is given up, as long as the
/// blacklist has room, and the query is no longer waited for.
pub proof fn law_silent_address_is_blacklisted(r: Run, t: Seq<u8>, managed: bool, now: u64)
    requires
        r.d.valid(),
        r.d.trans.get(t) is Some,
        !managed || r.d.trans.get(t)->0.qtype != "ping"@,
        r.d.blacklist.listed.dom().len() < r.d.blacklist.max_size,
    ensures
        give_up_step(r, t, managed, now).d.blacklist.has(
            ip_text(r.d.trans.get(t)->0.addr.ip),
            Some(r.d.trans.get(t)->0.addr.port),
        ),
        give_up_step(r, t, managed, now).d.trans.get(t) is None,
{
    law_finish(r.d.trans, t, t);
}

/// Where a managed node gives up a ping, it knows no node at that address any more.
pub proof fn law_silent_node_is_dropped(r: Run, t: Seq<u8>, now: u64, i: int)
    requires
        r.d.trans.get(t) is Some,
        r.d.trans.get(t)->0.qtype == "ping"@,
        0 <= i < give_up_step(r, t, true, now).d.routing.nodes.len(),
    ensures
        addr_text(give_up_step(r, t, true, now).d.routing.nodes[i].1.addr) != addr_text(
            r.d.trans.get(t)->0.addr,
        ),
{
    crate::routing::law_removed_addr_is_gone(
        r.d.routing,
        addr_text(r.d.trans.get(t)->0.addr),
        i,
    );
}

/// A query that is tried again goes to the same address under the same transaction, and waits anew.
pub proof fn law_retry_resends(r: Run, x: TxModel, now: u64)
    requires
        r.d.valid(),
        r.d.trans.get(x.id) == Some(x),
        x.qtype == "get_peers"@ && x.info_hash is Some || x.qtype == "find_node"@
            && x.target is Some,
    ensures
        ({
            let after = retry_step(r, x, now);
            let a = if x.qtype == "get_peers"@ {
                r.d.get_peers_args(x.info_hash->0)
            } else {
                r.d.find_node_args(x.target->0)
            };
            &&& after.out == r.out.push(
                ActionModel::Send { addr: x.addr, buf: packet(query_msg(x.id, x.qtype, a)) },
            )
            &&& after.d.trans.get(x.id) is Some
            &&& after.d.trans.get(x.id)->0.created_at == now
            &&& x.retries < u8::MAX ==> after.d.trans.get(x.id)->0.retries == x.retries + 1
        }),
{
    reveal_strlit("get_peers");
    reveal_strlit("find_node");
    assert("get_peers"@[0] != "find_node"@[0]);
    law_retry(r.d.trans, x.id, now, x.id);
}

/// A node that knows no other joins the network, and does nothing else.
pub proof fn law_lonely_node_joins(r: Run, managed: bool, noise: Seq<u8>, now: u64)
    requires
        r.d.routing.nodes.len() == 0,
    ensures
        tick_step(r, managed, noise, now).d == r.d,
        tick_step(r, managed, noise, now).out == r.out.push(ActionModel::Join),
{
}

// ---------------------------------------------------------------------------
// Blacklisted addresses
// ---------------------------------------------------------------------------

/// An address is blacklisted.
pub open spec fn shunned(d: DhtModel, a: AddrModel) -> bool {
    d.blacklist.has(ip_text(a.ip), Some(a.port))
}

/// An action has nothing to do with a blacklisted address: nothing is sent there, and no node is
/// told of there.
pub open spec fn clean(d: DhtModel, a: ActionModel) -> bool {
    match a {
        ActionModel::Send { addr, .. } => !shunned(d, addr),
        ActionModel::Node { ip, port, .. } => !d.blacklist.has(ip, Some(port)),
        _ => true,
    }
}

/// What was done between two states has nothing to do with blacklisted addresses: no node was
/// entered, told of or sent anything there.
pub open spec fn shuns(a: Run, b: Run) -> bool {
    &&& b.d.blacklist == a.d.blacklist
    &&& a.out.len() <= b.out.len()
    &&& forall|i: int| 0 <= i < a.out.len() ==> #[trigger] b.out[i] == a.out[i]
    &&& forall|i: int| a.out.len() <= i < b.out.len() ==> clean(a.d, #[trigger] b.out[i])
    &&& forall|j: int|
        0 <= j < b.d.routing.nodes.len() ==> a.d.routing.nodes.contains(
            #[trigger] b.d.routing.nodes[j],
        ) || !shunned(a.d, b.d.routing.nodes[j].1.addr)
}

proof fn lemma_shuns_trans(a: Run, b: Run, c: Run)
    requires
        shuns(a, b),
        shuns(b, c),
    ensures
        shuns(a, c),
{
    assert forall|i: int| 0 <= i < a.out.len() implies #[trigger] c.out[i] == a.out[i] by {
        assert(b.out[i] == a.out[i]);
    }
    assert forall|i: int| a.out.len() <= i < c.out.len() implies clean(
        a.d,
        #[trigger] c.out[i],
    ) by {
        if i < b.out.len() {
            assert(c.out[i] == b.out[i]);
        } else {
            assert(clean(b.d, c.out[i]));
        }
    }
    assert forall|j: int| 0 <= j < c.d.routing.nodes.len() implies a.d.routing.nodes.contains(
        #[trigger] c.d.routing.nodes[j],
    ) || !shunned(a.d, c.d.routing.nodes[j].1.addr) by {
        let n = c.d.routing.nodes[j];
        if b.d.routing.nodes.contains(n) {
            let i = choose|i: int| 0 <= i < b.d.routing.nodes.len() && b.d.routing.nodes[i] == n;
            assert(a.d.routing.nodes.contains(b.d.routing.nodes[i]) || !shunned(
                a.d,
                b.d.routing.nodes[i].1.addr,
            ));
        }
    }
}

proof fn lemma_shuns_quiet(a: Run, b: Run)
    requires
        b.d.blacklist == a.d.blacklist,
        b.d.routing == a.d.routing,
        b.out == a.out,
    ensures
        shuns(a, b),
{
    assert forall|j: int| 0 <= j < b.d.routing.nodes.len() implies a.d.routing.nodes.contains(
        #[trigger] b.d.routing.nodes[j],
    ) by {
        assert(a.d.routing.nodes[j] == b.d.routing.nodes[j]);
    }
}

proof fn lemma_shuns_action(a: Run, b: Run, x: ActionModel)
    requires
        b.d.blacklist == a.d.blacklist,
        b.d.routing == a.d.routing,
        b.out == a.out.push(x),
        clean(a.d, x),
    ensures
        shuns(a, b),
{
    assert forall|j: int| 0 <= j < b.d.routing.nodes.len() implies a.d.routing.nodes.contains(
        #[trigger] b.d.routing.nodes[j],
    ) by {
        assert(a.d.routing.nodes[j] == b.d.routing.nodes[j]);
    }
}

proof fn lemma_shuns_tells(r: Run, is_wanted: bool, x: ActionModel)
    requires
        clean(r.d, x),
    ensures
        shuns(r, r.tells(is_wanted, x)),
{
    if is_wanted {
        lemma_shuns_action(r, r.does(x), x);
    } else {
        lemma_shuns_quiet(r, r);
    }
}

proof fn lemma_put_from(p: Seq<Entry>, k: Seq<u8>, v: NodeModel)
    ensures
        forall|i: int|
            0 <= i < put(p, k, v).len() ==> (#[trigger] put(p, k, v)[i]) == (k, v) || p.contains(
                put(p, k, v)[i],
            ),
    decreases p.len(),
{
    let q = put(p, k, v);
    assert forall|i: int| 0 <= i < q.len() implies (#[trigger] q[i]) == (k, v) || p.contains(
        q[i],
    ) by {
        if p.len() > 0 && i > 0 {
            if p[0].0 == k {
                assert(q[i] == p[i]);
            } else if crate::keyed::lex_lt(k, p[0].0) {
                assert(q[i] == p[i - 1]);
            } else {
                let rest = p.skip(1);
                lemma_put_from(rest, k, v);
                let r = put(rest, k, v);
                assert(q[i] == r[i - 1]);
                if rest.contains(r[i - 1]) {
                    let j = choose|j: int| 0 <= j < rest.len() && rest[j] == r[i - 1];
                    assert(p[j + 1] == r[i - 1]);
                }
            }
        } else if p.len() > 0 {
            assert(q[0] == (k, v) || q[0] == p[0]);
        }
    }
}

proof fn lemma_shuns_enters(r: Run, id: Seq<u8>, addr: AddrModel, now: u64)
    requires
        !shunned(r.d, addr),
    ensures
        shuns(r, r.enters(id, addr, now)),
        shuns(r, r.notes(id, addr, now)),
{
    lemma_put_from(r.d.routing.nodes, id, NodeModel { id, addr, last_active: now });
    lemma_shuns_quiet(r, r);
}

proof fn lemma_shuns_asks(
    r: Run,
    addr: AddrModel,
    q: Seq<char>,
    a: Pairs,
    info_hash: Option<Seq<u8>>,
    target: Option<Seq<u8>>,
    announce_port: Option<u16>,
    now: u64,
)
    requires
        !shunned(r.d, addr),
    ensures
        shuns(r, r.asks(addr, q, a, info_hash, target, announce_port, now)),
{
    let b = r.asks(addr, q, a, info_hash, target, announce_port, now);
    lemma_shuns_action(r, b, b.out.last());
}

proof fn lemma_shuns_pursue(r: Run, addr: AddrModel, p: Purpose, now: u64)
    requires
        !shunned(r.d, addr),
    ensures
        shuns(r, pursue_step(r, addr, p, now)),
{
    let text = crate::types::host_port_text(addr.ip, addr.port);
    let m = match p.info_hash {
        Some(ih) => if r.d.trans.get_at("get_peers"@, text) is None {
            r.asks_get_peers(addr, ih, None, now)
        } else {
            r
        },
        None => r,
    };
    lemma_shuns_quiet(r, r);
    if let Some(ih) = p.info_hash {
        lemma_shuns_asks(
            r,
            addr,
            "get_peers"@,
            r.d.get_peers_args(ih),
            Some(ih),
            None,
            None,
            now,
        );
    }
    if let Some(target) = p.target {
        lemma_shuns_asks(
            m,
            addr,
            "find_node"@,
            m.d.find_node_args(target),
            None,
            Some(target),
            None,
            now,
        );
        lemma_shuns_trans(r, m, m.asks_find_node(addr, target, now));
    }
}

proof fn lemma_shuns_found(r: Run, n: (Seq<u8>, IpModel, u16), p: Purpose, now: u64)
    ensures
        shuns(r, found_step(r, n, p, now)),
{
    let addr = AddrModel { ip: n.1, port: n.2 };
    lemma_shuns_quiet(r, r);
    if !(r.d.blacklist.has(ip_text(n.1), Some(n.2)) || r.d.routing.nodes.len()
        >= r.d.cfg.max_nodes) {
        let r1 = r.enters(n.0, addr, now);
        lemma_shuns_enters(r, n.0, addr, now);
        let e = ActionModel::Node {
            id: crate::hexcode::hex_text(n.0),
            ip: ip_text(n.1),
            port: n.2,
        };
        let r2 = r1.tells(r.d.callbacks.on_node, e);
        lemma_shuns_tells(r1, r.d.callbacks.on_node, e);
        lemma_shuns_trans(r, r1, r2);
        lemma_shuns_pursue(r2, addr, p, now);
        lemma_shuns_trans(r, r2, pursue_step(r2, addr, p, now));
    }
}

/// Of the nodes that an answer names, none that is blacklisted is entered, told of or asked.
pub proof fn law_named_nodes_are_shunned(
    r: Run,
    s: Seq<(Seq<u8>, IpModel, u16)>,
    p: Purpose,
    now: u64,
)
    ensures
        shuns(r, found_steps(r, s, p, now)),
    decreases s.len(),
{
    if s.len() > 0 {
        law_named_nodes_are_shunned(r, s.drop_last(), p, now);
        let b = found_steps(r, s.drop_last(), p, now);
        lemma_shuns_found(b, s.last(), p, now);
        lemma_shuns_trans(r, b, found_step(b, s.last(), p, now));
    } else {
        lemma_shuns_quiet(r, r);
    }
}

/// The nodes that are not blacklisted.
pub open spec fn unlisted(
    d: DhtModel,
    s: Seq<(Seq<u8>, IpModel, u16)>,
) -> Seq<(Seq<u8>, IpModel, u16)> {
    s.filter(|n: (Seq<u8>, IpModel, u16)| !shunned(d, AddrModel { ip: n.1, port: n.2 }))
}

proof fn lemma_unlisted(d: DhtModel, s: Seq<(Seq<u8>, IpModel, u16)>)
    ensures
        s.len() == 0 ==> unlisted(d, s) == s,
        s.len() > 0 && shunned(d, AddrModel { ip: s.last().1, port: s.last().2 }) ==> unlisted(d, s)
            == unlisted(d, s.drop_last()),
        s.len() > 0 && !shunned(d, AddrModel { ip: s.last().1, port: s.last().2 }) ==> {
            &&& unlisted(d, s).len() > 0
            &&& unlisted(d, s).drop_last() == unlisted(d, s.drop_last())
            &&& unlisted(d, s).last() == s.last()
        },
{
    reveal(Seq::filter);
    if s.len() > 0 {
        let front = unlisted(d, s.drop_last());
        assert(front.push(s.last()).drop_last() =~= front);
    }
}

/// A blacklisted node that an answer names makes no difference.
pub proof fn law_blacklisted_node_makes_no_difference(
    r: Run,
    s: Seq<(Seq<u8>, IpModel, u16)>,
    p: Purpose,
    now: u64,
)
    ensures
        found_steps(r, s, p, now) == found_steps(r, unlisted(r.d, s), p, now),
    decreases s.len(),
{
    lemma_unlisted(r.d, s);
    if s.len() > 0 {
        law_blacklisted_node_makes_no_difference(r, s.drop_last(), p, now);
        law_named_nodes_are_shunned(r, s.drop_last(), p, now);
    }
}

proof fn lemma_shuns_values(r: Run, s: Seq<BModel>, ih: Seq<u8>)
    ensures
        shuns(r, value_steps(r, s, ih)),
    decreases s.len(),
{
    lemma_shuns_quiet(r, r);
    if s.len() > 0 {
        lemma_shuns_values(r, s.drop_last(), ih);
        let b = value_steps(r, s.drop_last(), ih);
        let c = value_step(b, s.last(), ih);
        lemma_shuns_quiet(b, b);
        if let BModel::Bytes(x) = s.last() {
            if x.len() == 6 {
                let peer = PeerModel {
                    ip: crate::util::host_at(x, 0),
                    port: crate::util::port_at(x, 4),
                    token: None,
                };
                let m = b.stores(ih, peer);
                lemma_shuns_quiet(b, m);
                let e = ActionModel::GetPeersResponse {
                    info_hash: crate::hexcode::hex_text(ih),
                    peer,
                };
                lemma_shuns_tells(m, b.d.callbacks.on_get_peers_response, e);
                lemma_shuns_trans(b, m, c);
            }
        }
        lemma_shuns_trans(r, b, c);
    }
}

/// An announcement is sent to an address.
pub open spec fn announces_at(a: ActionModel, addr: AddrModel) -> bool {
    exists|t: Seq<u8>, args: Pairs|
        a == (ActionModel::Send {
            addr,
            buf: #[trigger] packet(query_msg(t, "announce_peer"@, args)),
        })
}

/// What was done between two states has nothing to do with blacklisted addresses, but for an
/// announcement to the address `from`.
pub open spec fn shuns_but(a: Run, b: Run, from: AddrModel) -> bool {
    &&& b.d.blacklist == a.d.blacklist
    &&& a.out.len() <= b.out.len()
    &&& forall|i: int| 0 <= i < a.out.len() ==> #[trigger] b.out[i] == a.out[i]
    &&& forall|i: int|
        a.out.len() <= i < b.out.len() ==> clean(a.d, #[trigger] b.out[i]) || announces_at(
            b.out[i],
            from,
        )
    &&& forall|j: int|
        0 <= j < b.d.routing.nodes.len() ==> a.d.routing.nodes.contains(
            #[trigger] b.d.routing.nodes[j],
        ) || !shunned(a.d, b.d.routing.nodes[j].1.addr)
}

proof fn lemma_shuns_follow_up(
    r: Run,
    m: Run,
    t: Seq<u8>,
    answer: Pairs,
    remote: Seq<u8>,
    addr: AddrModel,
    p: Purpose,
    now: u64,
)
    requires
        shuns(r, m),
    ensures
        shuns_but(r, follow_up(m, t, answer, remote, addr, p, now), addr),
{
    if p.announce is Some && p.info_hash is Some {
        if let Some(token) = bytes_at(answer, "token"@) {
            let (port, implied) = p.announce->0;
            let ih = p.info_hash->0;
            let a = m.d.announce_args(remote, ih, port, token, implied);
            let b = m.asks(addr, "announce_peer"@, a, Some(ih), None, None, now);
            assert(announces_at(b.out.last(), addr));
        }
    }
}

proof fn lemma_shuns_named(
    r: Run,
    t: Seq<u8>,
    answer: Pairs,
    p: Purpose,
    now: u64,
)
    ensures
        ({
            let found = match bytes_at(answer, "nodes"@) {
                Some(b) => found_steps(r, crate::util::compact_nodes(b), p, now),
                None => r,
            };
            let stored = match (list_at(answer, "values"@), p.info_hash) {
                (Some(l), Some(ih)) => value_steps(found, l, ih).finishes(t),
                _ => found,
            };
            shuns(r, stored)
        }),
{
    let found = match bytes_at(answer, "nodes"@) {
        Some(b) => found_steps(r, crate::util::compact_nodes(b), p, now),
        None => r,
    };
    lemma_shuns_quiet(r, r);
    if let Some(b) = bytes_at(answer, "nodes"@) {
        law_named_nodes_are_shunned(r, crate::util::compact_nodes(b), p, now);
    }
    if let Some(l) = list_at(answer, "values"@) {
        if let Some(ih) = p.info_hash {
            let v = value_steps(found, l, ih);
            lemma_shuns_values(found, l, ih);
            lemma_shuns_trans(r, found, v);
            lemma_shuns_quiet(v, v.finishes(t));
            lemma_shuns_trans(r, v, v.finishes(t));
        }
    }
}

/// Whatever answer comes in, no node is entered or told of at a blacklisted address, and nothing is
/// sent there, but for the announcement that an answer makes possible: it goes back to where the
/// answer came from.
pub proof fn law_response_shuns_blacklisted(
    r: Run,
    t: Seq<u8>,
    body: Pairs,
    addr: AddrModel,
    now: u64,
)
    ensures
        shuns_but(r, response_step(r, t, body, addr, now), addr),
        !shunned(r.d, addr) ==> shuns(r, response_step(r, t, body, addr, now)),
{
    lemma_shuns_quiet(r, r);
    if let Some(answer) = dict_at(body, "r"@) {
        if let Some(remote) = id_at(answer, "id"@) {
            let p = purpose_of(r.d.trans.get(t));
            let found = match bytes_at(answer, "nodes"@) {
                Some(b) => found_steps(r, crate::util::compact_nodes(b), p, now),
                None => r,
            };
            let stored = match (list_at(answer, "values"@), p.info_hash) {
                (Some(l), Some(ih)) => value_steps(found, l, ih).finishes(t),
                _ => found,
            };
            lemma_shuns_named(r, t, answer, p, now);
            lemma_shuns_follow_up(r, stored, t, answer, remote, addr, p, now);
        }
    }
}

proof fn lemma_shuns_get_peers(
    r: Run,
    t: Seq<u8>,
    a: Pairs,
    remote: Seq<u8>,
    addr: AddrModel,
    fresh: Seq<char>,
    now: u64,
)
    requires
        !shunned(r.d, addr),
    ensures
        shuns(r, get_peers_step(r, t, a, remote, addr, fresh, now)),
{
    let end = get_peers_step(r, t, a, remote, addr, fresh, now);
    match id_at(a, "info_hash"@) {
        None => {
            lemma_shuns_action(r, end, end.out.last());
        },
        Some(ih) => {
            let ip = ip_text(addr.ip);
            let token = r.d.tokens.token(ip, fresh, now);
            let d = DhtModel { tokens: r.d.tokens.issued(ip, fresh, now), ..r.d };
            let r1 = (Run { d, ..r }).answers(addr, t, get_peers_answer(d, ih, token));
            lemma_shuns_action(r, r1, r1.out.last());
            let e = ActionModel::GetPeers {
                info_hash: crate::hexcode::hex_text(ih),
                ip,
                port: addr.port,
            };
            let r2 = r1.tells(d.callbacks.on_get_peers, e);
            lemma_shuns_tells(r1, d.callbacks.on_get_peers, e);
            lemma_shuns_trans(r, r1, r2);
            lemma_shuns_enters(r2, remote, addr, now);
            lemma_shuns_trans(r, r2, end);
        },
    }
}

proof fn lemma_shuns_announce(
    r: Run,
    t: Seq<u8>,
    a: Pairs,
    remote: Seq<u8>,
    addr: AddrModel,
    now: u64,
)
    requires
        !shunned(r.d, addr),
    ensures
        shuns(r, announce_step(r, t, a, remote, addr, now)),
{
    let end = announce_step(r, t, a, remote, addr, now);
    let ip = ip_text(addr.ip);
    lemma_shuns_quiet(r, r);
    if id_at(a, "info_hash"@) is Some && int_at(a, "port"@) is Some && bytes_at(a, "token"@) is Some
        && r.d.tokens.accepts(ip, readable(bytes_at(a, "token"@)->0), now) {
        let ih = id_at(a, "info_hash"@)->0;
        let token = readable(bytes_at(a, "token"@)->0);
        let port = announced_port(a, int_at(a, "port"@)->0, addr);
        let p = PeerModel { ip: addr.ip, port, token: Some(token) };
        let r1 = if r.d.cfg.mode == Mode::Standard {
            r.stores(ih, p).answers(addr, t, id_args(r.d.id_for(Some(remote))))
        } else {
            r
        };
        if r.d.cfg.mode == Mode::Standard {
            lemma_shuns_action(r, r1, r1.out.last());
        }
        let e = ActionModel::AnnouncePeer { info_hash: crate::hexcode::hex_text(ih), ip, port };
        let r2 = r1.tells(r.d.callbacks.on_announce_peer, e);
        lemma_shuns_tells(r1, r.d.callbacks.on_announce_peer, e);
        lemma_shuns_trans(r, r1, r2);
        lemma_shuns_enters(r2, remote, addr, now);
        lemma_shuns_trans(r, r2, end);
    }
}

/// Whatever query comes in from an address that is not blacklisted, nothing is sent to a
/// blacklisted address, and no node is entered or told of there.
pub proof fn law_request_shuns_blacklisted(
    r: Run,
    t: Seq<u8>,
    body: Pairs,
    addr: AddrModel,
    fresh: Seq<char>,
    now: u64,
)
    requires
        !shunned(r.d, addr),
    ensures
        shuns(r, request_step(r, t, body, addr, fresh, now)),
{
    let end = request_step(r, t, body, addr, fresh, now);
    lemma_shuns_quiet(r, r);
    if bytes_at(body, "q"@) is Some && dict_at(body, "a"@) is Some && valid_utf8(
        bytes_at(body, "q"@)->0,
    ) {
        let q = decode_utf8(bytes_at(body, "q"@)->0);
        let a = dict_at(body, "a"@)->0;
        match id_at(a, "id"@) {
            None => {
                lemma_shuns_action(r, end, end.out.last());
            },
            Some(remote) => {
                lemma_shuns_enters(r, remote, addr, now);
                if q == "ping"@ {
                    lemma_shuns_action(r, end, end.out.last());
                } else if q == "find_node"@ {
                    if r.d.cfg.mode != Mode::Crawl {
                        match id_at(a, "target"@) {
                            None => {
                                lemma_shuns_action(r, end, end.out.last());
                            },
                            Some(target) => {
                                let m = r.answers(
                                    addr,
                                    t,
                                    with_bytes(
                                        id_args(r.d.id_for(Some(target))),
                                        "nodes"@,
                                        crate::routing::compact_run(
                                            nearest(r.d.routing.nodes, target, r.d.cfg.k),
                                        ),
                                    ),
                                );
                                lemma_shuns_action(r, m, m.out.last());
                                lemma_shuns_enters(m, remote, addr, now);
                                lemma_shuns_trans(r, m, end);
                            },
                        }
                    }
                } else if q == "get_peers"@ {
                    lemma_shuns_get_peers(r, t, a, remote, addr, fresh, now);
                } else if q == "announce_peer"@ {
                    lemma_shuns_announce(r, t, a, remote, addr, now);
                }
            },
        }
    }
}

/// Whatever packet comes in, nothing is sent to a blacklisted address, and no node is entered or
/// told of there.
pub proof fn law_packet_shuns_blacklisted(
    r: Run,
    data: Seq<u8>,
    addr: AddrModel,
    fresh: Seq<char>,
    now: u64,
)
    ensures
        shuns(r, packet_step(r, data, addr, fresh, now)),
{
    lemma_shuns_quiet(r, r);
    if !shunned(r.d, addr) {
        if let Some(m) = message_in(data) {
            law_request_shuns_blacklisted(r, m.t, m.body, addr, fresh, now);
            law_response_shuns_blacklisted(r, m.t, m.body, addr, now);
            lemma_shuns_quiet(r, r.finishes(m.t));
        }
    }
}

// ---------------------------------------------------------------------------
// Two nodes that talk to each other
// ---------------------------------------------------------------------------

/// A query that a node sends is what the other node acts upon.
pub proof fn law_query_is_understood(
    r: Run,
    t: Seq<u8>,
    q: Seq<char>,
    a: Pairs,
    addr: AddrModel,
    fresh: Seq<char>,
    now: u64,
)
    requires
        encodable(BModel::Dict(a), (MAX_DEPTH - 1) as nat),
        !r.d.blacklist.has(ip_text(addr.ip), Some(addr.port)),
    ensures
        packet_step(r, packet(query_msg(t, q, a)), addr, fresh, now) == request_step(
            r,
            t,
            query_msg(t, q, a),
            addr,
            fresh,
            now,
        ),
{
    law_query_read_back(t, q, a);
}

/// An answer that a node sends is what the node that asked acts upon.
pub proof fn law_answer_is_understood(
    r: Run,
    t: Seq<u8>,
    answer: Pairs,
    remote: Seq<u8>,
    addr: AddrModel,
    fresh: Seq<char>,
    now: u64,
)
    requires
        encodable(BModel::Dict(answer), (MAX_DEPTH - 1) as nat),
        id_at(answer, "id"@) == Some(remote),
        !r.d.blacklist.has(ip_text(addr.ip), Some(addr.port)),
        r.d.trans.get(t) is Some ==> r.d.trans.get(t)->0.addr == addr,
    ensures
        packet_step(r, packet(response_msg(t, answer)), addr, fresh, now) == answer_step(
            r,
            t,
            answer,
            remote,
            addr,
            purpose_of(r.d.trans.get(t)),
            now,
        ),
{
    law_response_read_back(t, answer);
    reveal_strlit("r");
    reveal_strlit("q");
    assert("r"@[0] != "q"@[0]);
}

/// All known nodes have identifiers of twenty bytes.
pub open spec fn whole_ids(s: Seq<Entry>) -> bool {
    forall|i: int| 0 <= i < s.len() ==> (#[trigger] s[i]).0.len() == 20
}

pub proof fn lemma_nearest_ids(s: Seq<Entry>, target: Seq<u8>, k: nat)
    requires
        whole_ids(s),
    ensures
        whole_ids(nearest(s, target, k)),
{
    broadcast use vstd::seq_lib::group_to_multiset_ensures;

    let n = nearest(s, target, k);
    law_nearest(s, target, k);
    assert forall|i: int| 0 <= i < n.len() implies (#[trigger] n[i]).0.len() == 20 by {
        assert(n.contains(n[i]));
        assert(n.to_multiset().count(n[i]) > 0);
        assert(s.to_multiset().count(n[i]) > 0);
        assert(s.contains(n[i]));
        let j = choose|j: int| 0 <= j < s.len() && s[j] == n[i];
        assert(s[j].0.len() == 20);
    }
}

/// The arguments with which a node asks for the nodes next to a target.
pub open spec fn nodes_query(id: Seq<u8>, target: Seq<u8>) -> Pairs {
    with_bytes(id_args(id), "target"@, target)
}

/// What is answered to a query for nodes.
pub open spec fn nodes_answer(id: Seq<u8>, near: Seq<Entry>) -> Pairs {
    with_bytes(id_args(id), "nodes"@, crate::routing::compact_run(near))
}

pub proof fn lemma_nodes_query(id: Seq<u8>, target: Seq<u8>)
    ensures
        encodable(BModel::Dict(nodes_query(id, target)), (MAX_DEPTH - 1) as nat),
        bytes_at(nodes_query(id, target), "id"@) == Some(id),
        bytes_at(nodes_query(id, target), "target"@) == Some(target),
{
    reveal_strlit("id");
    reveal_strlit("target");
    lemma_keys_differ("id"@, "target"@);
    lemma_id_args(id);
    let value = BModel::Bytes(target);
    lemma_put_encodable(id_args(id), key("target"@), value, (MAX_DEPTH - 2) as nat);
    law_put_lookup(id_args(id), key("target"@), value, key("id"@));
}

proof fn lemma_nodes_answer(id: Seq<u8>, near: Seq<Entry>)
    ensures
        encodable(BModel::Dict(nodes_answer(id, near)), (MAX_DEPTH - 1) as nat),
        bytes_at(nodes_answer(id, near), "id"@) == Some(id),
        bytes_at(nodes_answer(id, near), "nodes"@) == Some(crate::routing::compact_run(near)),
        list_at(nodes_answer(id, near), "values"@) is None,
{
    reveal_strlit("id");
    reveal_strlit("nodes");
    reveal_strlit("values");
    assert("values"@[0] != "nodes"@[0]);
    lemma_keys_differ("id"@, "nodes"@);
    lemma_keys_differ("values"@, "id"@);
    lemma_keys_differ("values"@, "nodes"@);
    lemma_id_args(id);
    let value = BModel::Bytes(crate::routing::compact_run(near));
    lemma_put_encodable(id_args(id), key("nodes"@), value, (MAX_DEPTH - 2) as nat);
    law_put_lookup(id_args(id), key("nodes"@), value, key("id"@));
    law_put_lookup(id_args(id), key("nodes"@), value, key("values"@));
    let empty: Pairs = Seq::empty();
    law_put_lookup(empty, key("id"@), BModel::Bytes(id), key("values"@));
    assert(lookup(empty, key("values"@)) is None);
}

proof fn lemma_nodes_named(
    r: Run,
    t: Seq<u8>,
    target: Seq<u8>,
    id: Seq<u8>,
    addr: AddrModel,
    fresh: Seq<char>,
    now: u64,
)
    requires
        r.d.cfg.mode == Mode::Standard,
        !shunned(r.d, addr),
        target.len() == 20,
        id.len() == 20,
    ensures
        packet_step(
            r,
            packet(query_msg(t, "find_node"@, nodes_query(id, target))),
            addr,
            fresh,
            now,
        ) == r.sends(
            addr,
            packet(
                response_msg(
                    t,
                    nodes_answer(r.d.self_id, nearest(r.d.routing.nodes, target, r.d.cfg.k)),
                ),
            ),
        ).notes(id, addr, now),
{
    let a = nodes_query(id, target);
    lemma_nodes_query(id, target);
    law_query_is_understood(r, t, "find_node"@, a, addr, fresh, now);
    law_query_read_back(t, "find_node"@, a);
    encode_utf8_valid_utf8("find_node"@);
    encode_utf8_decode_utf8("find_node"@);
    reveal_strlit("find_node");
    reveal_strlit("ping");
    assert("find_node"@[0] != "ping"@[0]);
}

proof fn lemma_nodes_taken(
    r: Run,
    t: Seq<u8>,
    near: Seq<Entry>,
    id: Seq<u8>,
    addr: AddrModel,
    fresh: Seq<char>,
    now: u64,
)
    requires
        whole_ids(near),
        !shunned(r.d, addr),
        id.len() == 20,
        r.d.trans.get(t) is Some,
        r.d.trans.get(t)->0.addr == addr,
        r.d.trans.get(t)->0.qtype == "find_node"@,
        r.d.trans.get(t)->0.info_hash is None,
    ensures
        packet_step(r, packet(response_msg(t, nodes_answer(id, near))), addr, fresh, now)
            == found_steps(r, named_nodes(near), purpose_of(r.d.trans.get(t)), now).finishes(t),
{
    let answer = nodes_answer(id, near);
    lemma_nodes_answer(id, near);
    law_answer_is_understood(r, t, answer, id, addr, fresh, now);
    law_compact_nodes_read_back(near);
}

/// A query for nodes and its answer hand over what the one node knows to the other: those of its
/// nodes that lie closest to the target, as far as they have IPv4 addresses, are entered and asked
/// in their turn, and the query has come to its end.
pub proof fn law_find_node_hands_nodes_over(
    asked: Run,
    asking: Run,
    t: Seq<u8>,
    target: Seq<u8>,
    asking_id: Seq<u8>,
    asked_at: AddrModel,
    asking_at: AddrModel,
    fresh: Seq<char>,
    now: u64,
)
    requires
        asked.d.valid(),
        asked.d.cfg.mode == Mode::Standard,
        whole_ids(asked.d.routing.nodes),
        !shunned(asked.d, asking_at),
        !shunned(asking.d, asked_at),
        target.len() == 20,
        asking_id.len() == 20,
        asking.d.trans.get(t) is Some,
        asking.d.trans.get(t)->0.addr == asked_at,
        asking.d.trans.get(t)->0.qtype == "find_node"@,
        asking.d.trans.get(t)->0.info_hash is None,
    ensures
        ({
            let near = nearest(asked.d.routing.nodes, target, asked.d.cfg.k);
            let query = packet(query_msg(t, "find_node"@, nodes_query(asking_id, target)));
            let answer = packet(response_msg(t, nodes_answer(asked.d.self_id, near)));
            &&& packet_step(asked, query, asking_at, fresh, now) == asked.sends(
                asking_at,
                answer,
            ).notes(asking_id, asking_at, now)
            &&& packet_step(asking, answer, asked_at, fresh, now) == found_steps(
                asking,
                named_nodes(near),
                purpose_of(asking.d.trans.get(t)),
                now,
            ).finishes(t)
        }),
{
    let near = nearest(asked.d.routing.nodes, target, asked.d.cfg.k);
    lemma_nodes_named(asked, t, target, asking_id, asking_at, fresh, now);
    lemma_nearest_ids(asked.d.routing.nodes, target, asked.d.cfg.k);
    lemma_nodes_taken(asking, t, near, asked.d.self_id, asked_at, fresh, now);
}

/// The peers of an info-hash with those that another node named, as far as they have IPv4
/// addresses.
pub open spec fn taken_over(m: PeersModel, ih: Seq<u8>, s: Seq<PeerModel>) -> PeersModel
    decreases s.len(),
{
    if s.len() == 0 {
        m
    } else {
        let before = taken_over(m, ih, s.drop_last());
        match s.last().ip {
            IpModel::V4(..) => before.inserted(ih, PeerModel { token: None, ..s.last() }),
            IpModel::V6(_) => before,
        }
    }
}

/// The peers that a node hands out are the ones that the node that asked for them stores.
pub proof fn law_get_peers_hands_peers_over(r: Run, ih: Seq<u8>, s: Seq<PeerModel>)
    ensures
        value_steps(r, compact_values(s), ih).d.peers == taken_over(r.d.peers, ih, s),
    decreases s.len(),
{
    if s.len() > 0 {
        law_get_peers_hands_peers_over(r, ih, s.drop_last());
        let front = compact_values(s.drop_last());
        let p = s.last();
        if p.ip is V4 {
            let b = compact_addr(p.ip, p.port)->0;
            law_compact_addr_read_back(AddrModel { ip: p.ip, port: p.port });
            assert(compact_values(s) == front.push(BModel::Bytes(b)));
            assert(front.push(BModel::Bytes(b)).drop_last() =~= front);
        }
    }
}

/// The arguments with which a node asks for the peers of an info-hash.
pub open spec fn peers_query(id: Seq<u8>, ih: Seq<u8>) -> Pairs {
    with_bytes(id_args(id), "info_hash"@, ih)
}

/// The arguments with which a node announces itself as a peer of an info-hash at a port.
pub open spec fn announcement(id: Seq<u8>, ih: Seq<u8>, port: u16, token: Seq<u8>) -> Pairs {
    with_bytes(
        put(peers_query(id, ih), key("port"@), BModel::Int(port as i64)),
        "token"@,
        token,
    )
}

pub proof fn lemma_peers_query(id: Seq<u8>, ih: Seq<u8>)
    ensures
        encodable(BModel::Dict(peers_query(id, ih)), (MAX_DEPTH - 1) as nat),
        bytes_at(peers_query(id, ih), "id"@) == Some(id),
        bytes_at(peers_query(id, ih), "info_hash"@) == Some(ih),
        lookup(peers_query(id, ih), key("implied_port"@)) is None,
{
    reveal_strlit("id");
    reveal_strlit("info_hash");
    reveal_strlit("implied_port");
    lemma_keys_differ("id"@, "info_hash"@);
    lemma_keys_differ("implied_port"@, "info_hash"@);
    lemma_keys_differ("implied_port"@, "id"@);
    lemma_id_args(id);
    let value = BModel::Bytes(ih);
    lemma_put_encodable(id_args(id), key("info_hash"@), value, (MAX_DEPTH - 2) as nat);
    law_put_lookup(id_args(id), key("info_hash"@), value, key("id"@));
    law_put_lookup(id_args(id), key("info_hash"@), value, key("implied_port"@));
    let empty: Pairs = Seq::empty();
    law_put_lookup(empty, key("id"@), BModel::Bytes(id), key("implied_port"@));
    assert(lookup(empty, key("implied_port"@)) is None);
}

pub proof fn lemma_announcement(id: Seq<u8>, ih: Seq<u8>, port: u16, token: Seq<u8>)
    ensures
        encodable(BModel::Dict(announcement(id, ih, port, token)), (MAX_DEPTH - 1) as nat),
        bytes_at(announcement(id, ih, port, token), "id"@) == Some(id),
        bytes_at(announcement(id, ih, port, token), "info_hash"@) == Some(ih),
        int_at(announcement(id, ih, port, token), "port"@) == Some(port as i64),
        bytes_at(announcement(id, ih, port, token), "token"@) == Some(token),
        int_at(announcement(id, ih, port, token), "implied_port"@) is None,
{
    let depth = (MAX_DEPTH - 2) as nat;
    lemma_peers_query(id, ih);
    reveal_strlit("id");
    reveal_strlit("info_hash");
    reveal_strlit("implied_port");
    reveal_strlit("port");
    reveal_strlit("token");
    assert("port"@[0] != "token"@[0]);
    lemma_keys_differ("id"@, "port"@);
    lemma_keys_differ("info_hash"@, "port"@);
    lemma_keys_differ("implied_port"@, "port"@);
    lemma_keys_differ("id"@, "token"@);
    lemma_keys_differ("info_hash"@, "token"@);
    lemma_keys_differ("implied_port"@, "token"@);
    lemma_keys_differ("port"@, "token"@);
    let q = peers_query(id, ih);
    let n = BModel::Int(port as i64);
    let p = put(q, key("port"@), n);
    let b = BModel::Bytes(token);
    lemma_put_encodable(q, key("port"@), n, depth);
    lemma_put_encodable(p, key("token"@), b, depth);
    law_put_lookup(q, key("port"@), n, key("id"@));
    law_put_lookup(q, key("port"@), n, key("info_hash"@));
    law_put_lookup(q, key("port"@), n, key("implied_port"@));
    law_put_lookup(p, key("token"@), b, key("id"@));
    law_put_lookup(p, key("token"@), b, key("info_hash"@));
    law_put_lookup(p, key("token"@), b, key("implied_port"@));
    law_put_lookup(p, key("token"@), b, key("port"@));
}

proof fn lemma_peers_asked(id: Seq<u8>, ih: Seq<u8>, t: Seq<u8>)
    requires
        id.len() == 20,
        ih.len() == 20,
    ensures
        asks_for_peers(query_msg(t, "get_peers"@, peers_query(id, ih)), id, ih),
{
    lemma_peers_query(id, ih);
    law_query_read_back(t, "get_peers"@, peers_query(id, ih));
}

proof fn lemma_peer_announced(id: Seq<u8>, ih: Seq<u8>, port: u16, token: Seq<char>, t: Seq<u8>)
    requires
        id.len() == 20,
        ih.len() == 20,
    ensures
        announces(
            query_msg(t, "announce_peer"@, announcement(id, ih, port, key(token))),
            id,
            ih,
            port,
            token,
        ),
{
    lemma_announcement(id, ih, port, key(token));
    law_query_read_back(t, "announce_peer"@, announcement(id, ih, port, key(token)));
}

/// A query for the peers of an info-hash.
pub open spec fn asks_for_peers(body: Pairs, id: Seq<u8>, ih: Seq<u8>) -> bool {
    &&& bytes_at(body, "q"@) == Some(key("get_peers"@))
    &&& dict_at(body, "a"@) is Some
    &&& id_at(dict_at(body, "a"@)->0, "id"@) == Some(id)
    &&& id_at(dict_at(body, "a"@)->0, "info_hash"@) == Some(ih)
}

/// An announcement of a peer at a port that is named, not implied.
pub open spec fn announces(
    body: Pairs,
    id: Seq<u8>,
    ih: Seq<u8>,
    port: u16,
    token: Seq<char>,
) -> bool {
    &&& bytes_at(body, "q"@) == Some(key("announce_peer"@))
    &&& dict_at(body, "a"@) is Some
    &&& id_at(dict_at(body, "a"@)->0, "id"@) == Some(id)
    &&& id_at(dict_at(body, "a"@)->0, "info_hash"@) == Some(ih)
    &&& int_at(dict_at(body, "a"@)->0, "port"@) == Some(port as i64)
    &&& bytes_at(dict_at(body, "a"@)->0, "token"@) == Some(key(token))
    &&& int_at(dict_at(body, "a"@)->0, "implied_port"@) is None
}

proof fn lemma_peers_request(
    r: Run,
    t: Seq<u8>,
    body: Pairs,
    id: Seq<u8>,
    ih: Seq<u8>,
    addr: AddrModel,
    fresh: Seq<char>,
    now: u64,
)
    requires
        asks_for_peers(body, id, ih),
    ensures
        request_step(r, t, body, addr, fresh, now) == get_peers_step(
            r,
            t,
            dict_at(body, "a"@)->0,
            id,
            addr,
            fresh,
            now,
        ),
{
    encode_utf8_valid_utf8("get_peers"@);
    encode_utf8_decode_utf8("get_peers"@);
    reveal_strlit("ping");
    reveal_strlit("find_node");
    reveal_strlit("get_peers");
    assert("get_peers"@[0] != "ping"@[0] && "get_peers"@[0] != "find_node"@[0]);
}

proof fn lemma_announce_request(
    r: Run,
    t: Seq<u8>,
    body: Pairs,
    id: Seq<u8>,
    ih: Seq<u8>,
    port: u16,
    token: Seq<char>,
    addr: AddrModel,
    fresh: Seq<char>,
    now: u64,
)
    requires
        announces(body, id, ih, port, token),
    ensures
        request_step(r, t, body, addr, fresh, now) == announce_step(
            r,
            t,
            dict_at(body, "a"@)->0,
            id,
            addr,
            now,
        ),
{
    encode_utf8_valid_utf8("announce_peer"@);
    encode_utf8_decode_utf8("announce_peer"@);
    reveal_strlit("ping");
    reveal_strlit("find_node");
    reveal_strlit("get_peers");
    reveal_strlit("announce_peer");
    assert("announce_peer"@[0] != "ping"@[0] && "announce_peer"@[0] != "find_node"@[0]
        && "announce_peer"@[0] != "get_peers"@[0]);
}

proof fn lemma_peers_answered(
    r: Run,
    t: Seq<u8>,
    body: Pairs,
    id: Seq<u8>,
    ih: Seq<u8>,
    addr: AddrModel,
    fresh: Seq<char>,
    now: u64,
)
    requires
        asks_for_peers(body, id, ih),
    ensures
        ({
            let b = request_step(r, t, body, addr, fresh, now);
            let token = r.d.tokens.token(ip_text(addr.ip), fresh, now);
            &&& b.out.len() > r.out.len()
            &&& b.out[r.out.len() as int] == ActionModel::Send {
                addr,
                buf: packet(response_msg(t, get_peers_answer(r.d, ih, token))),
            }
            &&& b.d.blacklist == r.d.blacklist
            &&& b.d.peers == r.d.peers
            &&& b.d.cfg == r.d.cfg
            &&& b.d.tokens == r.d.tokens.issued(ip_text(addr.ip), fresh, now)
        }),
{
    lemma_peers_request(r, t, body, id, ih, addr, fresh, now);
    let d = DhtModel { tokens: r.d.tokens.issued(ip_text(addr.ip), fresh, now), ..r.d };
    let token = r.d.tokens.token(ip_text(addr.ip), fresh, now);
    assert(get_peers_answer(d, ih, token) == get_peers_answer(r.d, ih, token));
}

pub proof fn lemma_token_given(d: DhtModel, ih: Seq<u8>, token: Seq<char>)
    ensures
        bytes_at(get_peers_answer(d, ih, token), "token"@) == Some(key(token)),
{
    reveal_strlit("token");
    reveal_strlit("nodes");
    assert("token"@[0] != "nodes"@[0]);
    lemma_keys_differ("token"@, "nodes"@);
    let id = id_args(d.id_for(Some(ih)));
    let value = BModel::Bytes(key(token));
    let p = with_bytes(id, "token"@, key(token));
    law_put_lookup(id, key("token"@), value, key("token"@));
    law_put_lookup(p, key("nodes"@), BModel::Bytes(Seq::empty()), key("token"@));
    let near = crate::routing::compact_run(nearest(d.routing.nodes, ih, d.cfg.k));
    law_put_lookup(p, key("nodes"@), BModel::Bytes(near), key("token"@));
    let vals = BModel::List(compact_values(newest(d.peers.of(ih), d.cfg.k)));
    law_put_lookup(put(id, key("values"@), vals), key("token"@), value, key("token"@));
}

/// The last of the peers that an answer names is at an address, and the answer names no nodes.
pub open spec fn ends_with_peer(answer: Pairs, ip: IpModel, port: u16) -> bool {
    &&& list_at(answer, "values"@) is Some
    &&& list_at(answer, "values"@)->0.len() > 0
    &&& list_at(answer, "values"@)->0.last() == BModel::Bytes(compact_addr(ip, port)->0)
    &&& lookup(answer, key("nodes"@)) is None
}

/// The next thing done is to answer a query for peers with a token.
pub open spec fn answered_with_token(
    a: Run,
    b: Run,
    t: Seq<u8>,
    ih: Seq<u8>,
    addr: AddrModel,
    token: Seq<char>,
) -> bool {
    let answer = get_peers_answer(a.d, ih, token);
    &&& b.out.len() > a.out.len()
    &&& b.out[a.out.len() as int] == ActionModel::Send {
        addr,
        buf: packet(response_msg(t, answer)),
    }
    &&& bytes_at(answer, "token"@) == Some(key(token))
}

/// The next thing done is to answer a query for peers with peers, the last of which is `peer`, and
/// no nodes.
pub open spec fn answered_with_peer(
    a: Run,
    b: Run,
    t: Seq<u8>,
    ih: Seq<u8>,
    addr: AddrModel,
    token: Seq<char>,
    peer: AddrModel,
) -> bool {
    &&& answered_with_token(a, b, t, ih, addr, token)
    &&& ends_with_peer(get_peers_answer(a.d, ih, token), peer.ip, peer.port)
}

proof fn lemma_announced_port(a: Pairs, port: u16, addr: AddrModel)
    requires
        int_at(a, "implied_port"@) is None,
    ensures
        announced_port(a, port as i64, addr) == port,
{
}

proof fn lemma_announce_served(
    r: Run,
    t: Seq<u8>,
    a: Pairs,
    id: Seq<u8>,
    port: u16,
    given: Seq<char>,
    addr: AddrModel,
    now: u64,
    token: Seq<char>,
)
    requires
        id_at(a, "info_hash"@) is Some,
        int_at(a, "port"@) == Some(port as i64),
        bytes_at(a, "token"@) == Some(key(given)),
        int_at(a, "implied_port"@) is None,
        r.d.cfg.mode == Mode::Standard,
        r.d.cfg.k > 0,
        r.d.peers.k > 0,
        r.d.peers.table.dom().len() < crate::peers::MAX_INFOHASHES
            || r.d.peers.table.dom().contains(id_at(a, "info_hash"@)->0),
        addr.ip is V4,
        r.d.tokens.accepts(ip_text(addr.ip), given, now),
    ensures
        ({
            let b = announce_step(r, t, a, id, addr, now);
            let ih = id_at(a, "info_hash"@)->0;
            &&& b.d.blacklist == r.d.blacklist
            &&& ends_with_peer(get_peers_answer(b.d, ih, token), addr.ip, port)
        }),
{
    encode_utf8_valid_utf8(given);
    encode_utf8_decode_utf8(given);
    lemma_announced_port(a, port, addr);
    law_announced_peer_is_handed_out(r, t, a, id, addr, now, token);
}

proof fn lemma_announced(
    r: Run,
    t: Seq<u8>,
    body: Pairs,
    id: Seq<u8>,
    ih: Seq<u8>,
    port: u16,
    given: Seq<char>,
    addr: AddrModel,
    fresh: Seq<char>,
    now: u64,
    token: Seq<char>,
)
    requires
        announces(body, id, ih, port, given),
        r.d.cfg.mode == Mode::Standard,
        r.d.cfg.k > 0,
        r.d.peers.k > 0,
        r.d.peers.table.dom().len() < crate::peers::MAX_INFOHASHES
            || r.d.peers.table.dom().contains(ih),
        addr.ip is V4,
        r.d.tokens.accepts(ip_text(addr.ip), given, now),
    ensures
        ({
            let b = request_step(r, t, body, addr, fresh, now);
            &&& b.d.blacklist == r.d.blacklist
            &&& ends_with_peer(get_peers_answer(b.d, ih, token), addr.ip, port)
        }),
{
    let a = dict_at(body, "a"@)->0;
    lemma_announce_request(r, t, body, id, ih, port, given, addr, fresh, now);
    lemma_announce_served(r, t, a, id, port, given, addr, now, token);
}

/// A host that asks for the peers of an info-hash is given a token. If it announces itself with
/// this token, before it expires, then whoever asks next for the peers of the info-hash is told of
/// it: the answer has peers and no nodes, and its last peer is the host at the port that it
/// announced.
pub proof fn law_announced_peer_is_served(
    r: Run,
    ih: Seq<u8>,
    port: u16,
    host: (Seq<u8>, AddrModel),
    other: (Seq<u8>, AddrModel),
    t: (Seq<u8>, Seq<u8>, Seq<u8>),
    body: (Pairs, Pairs, Pairs),
    fresh: (Seq<char>, Seq<char>, Seq<char>),
    now: (u64, u64, u64),
)
    requires
        r.d.cfg.mode == Mode::Standard,
        r.d.cfg.k > 0,
        r.d.peers.k > 0,
        r.d.peers.table.dom().len() < crate::peers::MAX_INFOHASHES
            || r.d.peers.table.dom().contains(ih),
        host.1.ip is V4,
        r.d.tokens.issued(ip_text(host.1.ip), fresh.0, now.0).holds(ip_text(host.1.ip), now.1),
        asks_for_peers(body.0, host.0, ih),
        announces(
            body.1,
            host.0,
            ih,
            port,
            r.d.tokens.token(ip_text(host.1.ip), fresh.0, now.0),
        ),
        asks_for_peers(body.2, other.0, ih),
    ensures
        ({
            let given = r.d.tokens.token(ip_text(host.1.ip), fresh.0, now.0);
            let first = request_step(r, t.0, body.0, host.1, fresh.0, now.0);
            let second = request_step(first, t.1, body.1, host.1, fresh.1, now.1);
            let third = request_step(second, t.2, body.2, other.1, fresh.2, now.2);
            &&& answered_with_token(r, first, t.0, ih, host.1, given)
            &&& answered_with_peer(
                second,
                third,
                t.2,
                ih,
                other.1,
                second.d.tokens.token(ip_text(other.1.ip), fresh.2, now.2),
                AddrModel { port, ..host.1 },
            )
            &&& first.d.blacklist == r.d.blacklist
            &&& second.d.blacklist == r.d.blacklist
        }),
{
    let ip = ip_text(host.1.ip);
    let given = r.d.tokens.token(ip, fresh.0, now.0);

    let first = request_step(r, t.0, body.0, host.1, fresh.0, now.0);
    lemma_peers_answered(r, t.0, body.0, host.0, ih, host.1, fresh.0, now.0);
    lemma_token_given(r.d, ih, given);
    crate::token::law_issued_token_is_accepted(r.d.tokens, ip, fresh.0, now.0, now.1, given);

    let second = request_step(first, t.1, body.1, host.1, fresh.1, now.1);
    let token = second.d.tokens.token(ip_text(other.1.ip), fresh.2, now.2);
    lemma_announced(
        first,
        t.1,
        body.1,
        host.0,
        ih,
        port,
        given,
        host.1,
        fresh.1,
        now.1,
        token,
    );
    lemma_peers_answered(second, t.2, body.2, other.0, ih, other.1, fresh.2, now.2);
    lemma_token_given(second.d, ih, token);
}

proof fn lemma_peers_packet(
    r: Run,
    t: Seq<u8>,
    id: Seq<u8>,
    ih: Seq<u8>,
    addr: AddrModel,
    fresh: Seq<char>,
    now: u64,
)
    requires
        !shunned(r.d, addr),
    ensures
        packet_step(r, packet(query_msg(t, "get_peers"@, peers_query(id, ih))), addr, fresh, now)
            == request_step(
            r,
            t,
            query_msg(t, "get_peers"@, peers_query(id, ih)),
            addr,
            fresh,
            now,
        ),
{
    lemma_peers_query(id, ih);
    law_query_is_understood(r, t, "get_peers"@, peers_query(id, ih), addr, fresh, now);
}

proof fn lemma_announce_packet(
    r: Run,
    t: Seq<u8>,
    id: Seq<u8>,
    ih: Seq<u8>,
    port: u16,
    token: Seq<u8>,
    addr: AddrModel,
    fresh: Seq<char>,
    now: u64,
)
    requires
        !shunned(r.d, addr),
    ensures
        packet_step(
            r,
            packet(query_msg(t, "announce_peer"@, announcement(id, ih, port, token))),
            addr,
            fresh,
            now,
        ) == request_step(
            r,
            t,
            query_msg(t, "announce_peer"@, announcement(id, ih, port, token)),
            addr,
            fresh,
            now,
        ),
{
    let a = announcement(id, ih, port, token);
    lemma_announcement(id, ih, port, token);
    law_query_is_understood(r, t, "announce_peer"@, a, addr, fresh, now);
}

proof fn lemma_round_trip(
    r: Run,
    ih: Seq<u8>,
    port: u16,
    host: (Seq<u8>, AddrModel),
    other: (Seq<u8>, AddrModel),
    t: (Seq<u8>, Seq<u8>, Seq<u8>),
    fresh: (Seq<char>, Seq<char>, Seq<char>),
    now: (u64, u64, u64),
)
    requires
        r.d.cfg.mode == Mode::Standard,
        r.d.cfg.k > 0,
        r.d.peers.k > 0,
        r.d.peers.table.dom().len() < crate::peers::MAX_INFOHASHES
            || r.d.peers.table.dom().contains(ih),
        ih.len() == 20,
        host.0.len() == 20,
        other.0.len() == 20,
        host.1.ip is V4,
        r.d.tokens.issued(ip_text(host.1.ip), fresh.0, now.0).holds(ip_text(host.1.ip), now.1),
    ensures
        ({
            let given = r.d.tokens.token(ip_text(host.1.ip), fresh.0, now.0);
            let asked = query_msg(t.0, "get_peers"@, peers_query(host.0, ih));
            let told = query_msg(
                t.1,
                "announce_peer"@,
                announcement(host.0, ih, port, key(given)),
            );
            let asked_again = query_msg(t.2, "get_peers"@, peers_query(other.0, ih));
            let first = request_step(r, t.0, asked, host.1, fresh.0, now.0);
            let second = request_step(first, t.1, told, host.1, fresh.1, now.1);
            let third = request_step(second, t.2, asked_again, other.1, fresh.2, now.2);
            &&& first.d.blacklist == r.d.blacklist
            &&& second.d.blacklist == r.d.blacklist
            &&& answered_with_token(r, first, t.0, ih, host.1, given)
            &&& answered_with_peer(
                second,
                third,
                t.2,
                ih,
                other.1,
                second.d.tokens.token(ip_text(other.1.ip), fresh.2, now.2),
                AddrModel { port, ..host.1 },
            )
        }),
{
    let given = r.d.tokens.token(ip_text(host.1.ip), fresh.0, now.0);
    let body = (
        query_msg(t.0, "get_peers"@, peers_query(host.0, ih)),
        query_msg(t.1, "announce_peer"@, announcement(host.0, ih, port, key(given))),
        query_msg(t.2, "get_peers"@, peers_query(other.0, ih)),
    );
    lemma_peers_asked(host.0, ih, t.0);
    lemma_peer_announced(host.0, ih, port, given, t.1);
    lemma_peers_asked(other.0, ih, t.2);
    law_announced_peer_is_served(r, ih, port, host, other, t, body, fresh, now);
}

/// The same holds of the packets in which the queries come, where neither address is blacklisted.
pub proof fn law_announcement_round_trip(
    r: Run,
    ih: Seq<u8>,
    port: u16,
    host: (Seq<u8>, AddrModel),
    other: (Seq<u8>, AddrModel),
    t: (Seq<u8>, Seq<u8>, Seq<u8>),
    fresh: (Seq<char>, Seq<char>, Seq<char>),
    now: (u64, u64, u64),
)
    requires
        r.d.cfg.mode == Mode::Standard,
        r.d.cfg.k > 0,
        r.d.peers.k > 0,
        r.d.peers.table.dom().len() < crate::peers::MAX_INFOHASHES
            || r.d.peers.table.dom().contains(ih),
        ih.len() == 20,
        host.0.len() == 20,
        other.0.len() == 20,
        host.1.ip is V4,
        !shunned(r.d, host.1),
        !shunned(r.d, other.1),
        r.d.tokens.issued(ip_text(host.1.ip), fresh.0, now.0).holds(ip_text(host.1.ip), now.1),
    ensures
        ({
            let given = r.d.tokens.token(ip_text(host.1.ip), fresh.0, now.0);
            let asked = packet(query_msg(t.0, "get_peers"@, peers_query(host.0, ih)));
            let told = packet(
                query_msg(t.1, "announce_peer"@, announcement(host.0, ih, port, key(given))),
            );
            let asked_again = packet(query_msg(t.2, "get_peers"@, peers_query(other.0, ih)));
            let first = packet_step(r, asked, host.1, fresh.0, now.0);
            let second = packet_step(first, told, host.1, fresh.1, now.1);
            let third = packet_step(second, asked_again, other.1, fresh.2, now.2);
            &&& answered_with_token(r, first, t.0, ih, host.1, given)
            &&& answered_with_peer(
                second,
                third,
                t.2,
                ih,
                other.1,
                second.d.tokens.token(ip_text(other.1.ip), fresh.2, now.2),
                AddrModel { port, ..host.1 },
            )
        }),
{
    let given = r.d.tokens.token(ip_text(host.1.ip), fresh.0, now.0);
    let told = query_msg(t.1, "announce_peer"@, announcement(host.0, ih, port, key(given)));
    let asked = query_msg(t.0, "get_peers"@, peers_query(host.0, ih));
    let first = request_step(r, t.0, asked, host.1, fresh.0, now.0);
    let second = request_step(first, t.1, told, host.1, fresh.1, now.1);
    lemma_round_trip(r, ih, port, host, other, t, fresh, now);
    lemma_peers_packet(r, t.0, host.0, ih, host.1, fresh.0, now.0);
    lemma_announce_packet(first, t.1, host.0, ih, port, key(given), host.1, fresh.1, now.1);
    lemma_peers_packet(second, t.2, other.0, ih, other.1, fresh.2, now.2);
}

} // verus!
