//! What the node does with what it receives, as functions from its state to its next state.

use vstd::prelude::*;
use vstd::string::*;
use vstd::utf8::{decode_utf8, valid_utf8};
use crate::bencode::{bytes_at, dict_at, int_at, key, list_at, BModel};
use crate::blacklist::BlackModel;
use crate::command::CommandModel;
use crate::hexcode::hex_text;
use crate::keyed::put;
use crate::krpc::{
    error_msg, message_in, packet, query_msg, response_msg, with_bytes, MessageModel, Pairs,
};
use crate::peers::{newest, PeersModel};
use crate::routing::{compact_run, nearest, Entry, RoutingModel};
use crate::text::readable;
use crate::token::TokenModel;
use crate::transaction::{TransModel, TxModel};
use crate::types::{
    addr_text, host_port_text, info_hash_of, ip_text, AddrModel, IpModel, Mode, NodeModel,
    PeerModel,
};
use crate::util::{compact_addr, compact_nodes, host_at, port_at};

verus! {

/// How long a query waits for its first answer.
pub const QUERY_TIMEOUT: u64 = 10_000_000_000;

/// The error number of a query that is not formed as it should be.
pub const PROTOCOL_ERROR: i64 = 203;

/// How the node is set up. Times are nanoseconds.
#[verifier::ext_equal]
pub struct ConfigModel {
    pub k: nat,
    pub kbucket_size: nat,
    pub network: Seq<char>,
    pub address: Seq<char>,
    pub prime_nodes: Seq<Seq<char>>,
    pub kbucket_expired_after: u64,
    pub node_expired_after: u64,
    pub check_kbucket_period: u64,
    pub token_expired_after: u64,
    pub max_nodes: nat,
    pub blocked_ips: Seq<Seq<char>>,
    pub blacklist_max_size: nat,
    pub mode: Mode,
    pub refresh_node_num: nat,
    pub try_times: u8,
}

/// The events that the owner of the node wants to hear of.
#[derive(Clone, Copy, Debug, PartialEq, Eq, Structural)]
pub struct DhtCallbacks {
    /// Somebody asked for the peers of an info-hash.
    pub on_get_peers: bool,
    /// A node named a peer of an info-hash.
    pub on_get_peers_response: bool,
    /// Somebody announced a peer of an info-hash.
    pub on_announce_peer: bool,
    /// A node was named by another.
    pub on_node: bool,
}

/// The state of the node.
#[verifier::ext_equal]
pub struct DhtModel {
    pub cfg: ConfigModel,
    pub peers: PeersModel,
    pub blacklist: BlackModel,
    pub routing: RoutingModel,
    pub ready: bool,
    pub callbacks: DhtCallbacks,
    pub self_id: Seq<u8>,
    pub tokens: TokenModel,
    pub trans: TransModel,
}

/// What the node wants done: a packet sent, or its owner told of an event.
pub enum ActionModel {
    Send { addr: AddrModel, buf: Seq<u8> },
    /// Find the addresses of the nodes to begin with, and join the network through them.
    Join,
    GetPeers { info_hash: Seq<char>, ip: Seq<char>, port: u16 },
    GetPeersResponse { info_hash: Seq<char>, peer: PeerModel },
    AnnouncePeer { info_hash: Seq<char>, ip: Seq<char>, port: u16 },
    Node { id: Seq<char>, ip: Seq<char>, port: u16 },
}

/// The state of the node, and what it wants done so far.
#[verifier::ext_equal]
pub struct Run {
    pub d: DhtModel,
    pub out: Seq<ActionModel>,
}

// ---------------------------------------------------------------------------
// Identifiers
// ---------------------------------------------------------------------------

/// The identifier under which the node shows itself. A crawler moves next to what is asked for: it
/// takes over the first fifteen bytes of the target.
pub open spec fn shown_id(mode: Mode, self_id: Seq<u8>, target: Option<Seq<u8>>) -> Seq<u8> {
    match (mode, target) {
        (Mode::Crawl, Some(t)) => t.take(15) + self_id.skip(15),
        _ => self_id,
    }
}

/// The twenty bytes under a key, where the key is bound to a byte string of that length.
pub open spec fn id_at(p: Pairs, k: Seq<char>) -> Option<Seq<u8>> {
    match bytes_at(p, k) {
        Some(b) => if b.len() == 20 {
            Some(b)
        } else {
            None
        },
        None => None,
    }
}

/// The arguments that begin with an identifier.
pub open spec fn id_args(id: Seq<u8>) -> Pairs {
    with_bytes(Seq::empty(), "id"@, id)
}

// ---------------------------------------------------------------------------
// Single steps
// ---------------------------------------------------------------------------

impl DhtModel {
    /// The identifier that is shown for a target.
    pub open spec fn id_for(self, target: Option<Seq<u8>>) -> Seq<u8> {
        shown_id(self.cfg.mode, self.self_id, target)
    }

    /// The arguments of a query for the peers of an info-hash.
    pub open spec fn get_peers_args(self, ih: Seq<u8>) -> Pairs {
        with_bytes(id_args(self.id_for(Some(ih))), "info_hash"@, ih)
    }

    /// The arguments of a query for the nodes next to a target.
    pub open spec fn find_node_args(self, target: Seq<u8>) -> Pairs {
        with_bytes(id_args(self.id_for(None)), "target"@, target)
    }

    /// The arguments of an announcement.
    pub open spec fn announce_args(
        self,
        remote: Seq<u8>,
        ih: Seq<u8>,
        port: u16,
        token: Seq<u8>,
        implied: bool,
    ) -> Pairs {
        let a = with_bytes(
            put(
                with_bytes(id_args(self.id_for(Some(remote))), "info_hash"@, ih),
                key("port"@),
                BModel::Int(port as i64),
            ),
            "token"@,
            token,
        );
        if implied {
            put(a, key("implied_port"@), BModel::Int(1))
        } else {
            a
        }
    }

    /// All tables are in order and within their bounds.
    pub open spec fn valid(self) -> bool {
        &&& self.self_id.len() == 20
        &&& self.peers.valid()
        &&& self.blacklist.valid()
        &&& self.routing.valid()
        &&& self.trans.valid()
    }
}

impl Run {
    pub open spec fn begin(d: DhtModel) -> Run {
        Run { d, out: Seq::empty() }
    }

    /// One more thing to be done.
    pub open spec fn does(self, a: ActionModel) -> Run {
        Run { out: self.out.push(a), ..self }
    }

    /// One more event, where the owner wants to hear of it.
    pub open spec fn tells(self, wanted: bool, a: ActionModel) -> Run {
        if wanted {
            self.does(a)
        } else {
            self
        }
    }

    /// A packet is sent.
    pub open spec fn sends(self, addr: AddrModel, buf: Seq<u8>) -> Run {
        self.does(ActionModel::Send { addr, buf })
    }

    /// An answer is sent.
    pub open spec fn answers(self, addr: AddrModel, t: Seq<u8>, r: Pairs) -> Run {
        self.sends(addr, packet(response_msg(t, r)))
    }

    /// A query is refused.
    pub open spec fn refuses(self, addr: AddrModel, t: Seq<u8>, text: Seq<char>) -> Run {
        self.sends(addr, packet(error_msg(t, PROTOCOL_ERROR, text)))
    }

    /// A query is sent, and waits for its answer under the next transaction identifier.
    pub open spec fn asks(
        self,
        addr: AddrModel,
        q: Seq<char>,
        a: Pairs,
        info_hash: Option<Seq<u8>>,
        target: Option<Seq<u8>>,
        announce_port: Option<u16>,
        now: u64,
    ) -> Run {
        let t = self.d.trans.next_id();
        let tx = TxModel {
            id: t,
            addr,
            qtype: q,
            responder: None,
            info_hash,
            target,
            announce_port,
            announce_implied_port: false,
            created_at: now,
            retries: 0,
        };
        Run {
            d: DhtModel { trans: self.d.trans.advanced().begun(tx), ..self.d },
            ..self
        }.sends(addr, packet(query_msg(t, q, a)))
    }

    /// A node is asked for the peers of an info-hash.
    pub open spec fn asks_get_peers(
        self,
        addr: AddrModel,
        ih: Seq<u8>,
        announce_port: Option<u16>,
        now: u64,
    ) -> Run {
        self.asks(addr, "get_peers"@, self.d.get_peers_args(ih), Some(ih), None, announce_port, now)
    }

    /// A node is asked for the nodes next to a target.
    pub open spec fn asks_find_node(self, addr: AddrModel, target: Seq<u8>, now: u64) -> Run {
        self.asks(addr, "find_node"@, self.d.find_node_args(target), None, Some(target), None, now)
    }

    /// A node is asked whether it is there.
    pub open spec fn asks_ping(self, addr: AddrModel, now: u64) -> Run {
        self.asks(addr, "ping"@, id_args(self.d.id_for(None)), None, None, None, now)
    }

    /// A transaction comes to its end.
    pub open spec fn finishes(self, t: Seq<u8>) -> Run {
        Run { d: DhtModel { trans: self.d.trans.finished(t), ..self.d }, ..self }
    }

    /// A node is entered into the routing table.
    pub open spec fn enters(self, id: Seq<u8>, addr: AddrModel, now: u64) -> Run {
        Run {
            d: DhtModel {
                routing: self.d.routing.inserted(NodeModel { id, addr, last_active: now }),
                ..self.d
            },
            ..self
        }
    }

    /// A node that sent a query is entered into the routing table, where there is room.
    pub open spec fn notes(self, id: Seq<u8>, addr: AddrModel, now: u64) -> Run {
        if self.d.routing.nodes.len() < self.d.cfg.max_nodes {
            self.enters(id, addr, now)
        } else {
            self
        }
    }

    /// The nodes at an address leave the routing table.
    pub open spec fn drops(self, addr: Seq<char>) -> Run {
        Run { d: DhtModel { routing: self.d.routing.without_addr(addr), ..self.d }, ..self }
    }

    /// A peer of an info-hash is stored.
    pub open spec fn stores(self, ih: Seq<u8>, p: PeerModel) -> Run {
        Run { d: DhtModel { peers: self.d.peers.inserted(ih, p), ..self.d }, ..self }
    }
}

// ---------------------------------------------------------------------------
// Queries of others
// ---------------------------------------------------------------------------

/// The compact forms of peers, one value each; a peer without an IPv4 address is left out.
pub open spec fn compact_values(s: Seq<PeerModel>) -> Seq<BModel>
    decreases s.len(),
{
    if s.len() == 0 {
        Seq::empty()
    } else {
        let rest = compact_values(s.drop_last());
        match compact_addr(s.last().ip, s.last().port) {
            Some(b) => rest.push(BModel::Bytes(b)),
            None => rest,
        }
    }
}

/// What is answered to a query for the peers of an info-hash: peers, where some are stored, else
/// the nodes next to it; a crawler answers with a token alone.
pub open spec fn get_peers_answer(d: DhtModel, ih: Seq<u8>, token: Seq<char>) -> Pairs {
    let id = id_args(d.id_for(Some(ih)));
    let stored = newest(d.peers.of(ih), d.cfg.k);
    if d.cfg.mode == Mode::Crawl {
        with_bytes(with_bytes(id, "token"@, key(token)), "nodes"@, Seq::empty())
    } else if stored.len() > 0 {
        with_bytes(
            put(id, key("values"@), BModel::List(compact_values(stored))),
            "token"@,
            key(token),
        )
    } else {
        with_bytes(
            with_bytes(id, "token"@, key(token)),
            "nodes"@,
            compact_run(nearest(d.routing.nodes, ih, d.cfg.k)),
        )
    }
}

/// A query for the nodes next to a target; a crawler leaves it unanswered.
pub open spec fn find_node_step(
    r: Run,
    t: Seq<u8>,
    a: Pairs,
    remote: Seq<u8>,
    addr: AddrModel,
    now: u64,
) -> Run {
    if r.d.cfg.mode == Mode::Crawl {
        r.notes(remote, addr, now)
    } else {
        match id_at(a, "target"@) {
            None => r.refuses(addr, t, "invalid target"@),
            Some(target) => r.answers(
                addr,
                t,
                with_bytes(
                    id_args(r.d.id_for(Some(target))),
                    "nodes"@,
                    compact_run(nearest(r.d.routing.nodes, target, r.d.cfg.k)),
                ),
            ).notes(remote, addr, now),
        }
    }
}

/// A query for the peers of an info-hash. `fresh` is the token that the host is given where it
/// holds none.
pub open spec fn get_peers_step(
    r: Run,
    t: Seq<u8>,
    a: Pairs,
    remote: Seq<u8>,
    addr: AddrModel,
    fresh: Seq<char>,
    now: u64,
) -> Run {
    match id_at(a, "info_hash"@) {
        None => r.refuses(addr, t, "invalid info_hash"@),
        Some(ih) => {
            let ip = ip_text(addr.ip);
            let token = r.d.tokens.token(ip, fresh, now);
            let d = DhtModel { tokens: r.d.tokens.issued(ip, fresh, now), ..r.d };
            Run { d, ..r }.answers(addr, t, get_peers_answer(d, ih, token)).tells(
                d.callbacks.on_get_peers,
                ActionModel::GetPeers { info_hash: hex_text(ih), ip, port: addr.port },
            ).notes(remote, addr, now)
        },
    }
}

/// The port that an announcement names: its lowest sixteen bits, or none at all where the lowest
/// thirty-two write a negative number.
pub open spec fn named_port(n: i64) -> u16 {
    let low = (n as int) % 0x1_0000_0000;
    if low >= 0x8000_0000 {
        0
    } else {
        (low % 0x1_0000) as u16
    }
}

/// The port at which a peer is announced: the one named, or that of the packet where it is implied.
pub open spec fn announced_port(a: Pairs, named: i64, addr: AddrModel) -> u16 {
    match int_at(a, "implied_port"@) {
        Some(implied) => if implied != 0 {
            addr.port
        } else {
            named_port(named)
        },
        None => named_port(named),
    }
}

/// An announcement. One without a token that its host was given is passed over in silence.
pub open spec fn announce_step(
    r: Run,
    t: Seq<u8>,
    a: Pairs,
    remote: Seq<u8>,
    addr: AddrModel,
    now: u64,
) -> Run {
    let ip = ip_text(addr.ip);
    match (id_at(a, "info_hash"@), int_at(a, "port"@), bytes_at(a, "token"@)) {
        (Some(ih), Some(named), Some(token)) => if !r.d.tokens.accepts(ip, readable(token), now) {
            r
        } else {
            let port = announced_port(a, named, addr);
            let stored = if r.d.cfg.mode == Mode::Standard {
                r.stores(
                    ih,
                    PeerModel { ip: addr.ip, port, token: Some(readable(token)) },
                ).answers(addr, t, id_args(r.d.id_for(Some(remote))))
            } else {
                r
            };
            stored.tells(
                r.d.callbacks.on_announce_peer,
                ActionModel::AnnouncePeer { info_hash: hex_text(ih), ip, port },
            ).notes(remote, addr, now)
        },
        _ => r,
    }
}

/// A query.
pub open spec fn request_step(
    r: Run,
    t: Seq<u8>,
    body: Pairs,
    addr: AddrModel,
    fresh: Seq<char>,
    now: u64,
) -> Run {
    match (bytes_at(body, "q"@), dict_at(body, "a"@)) {
        (Some(qb), Some(a)) => if !valid_utf8(qb) {
            r
        } else {
            let q = decode_utf8(qb);
            match id_at(a, "id"@) {
                None => r.refuses(addr, t, "invalid id"@),
                Some(remote) => if q == "ping"@ {
                    r.answers(addr, t, id_args(r.d.id_for(Some(remote))))
                } else if q == "find_node"@ {
                    find_node_step(r, t, a, remote, addr, now)
                } else if q == "get_peers"@ {
                    get_peers_step(r, t, a, remote, addr, fresh, now)
                } else if q == "announce_peer"@ {
                    announce_step(r, t, a, remote, addr, now)
                } else {
                    r.notes(remote, addr, now)
                },
            }
        },
        _ => r,
    }
}

// ---------------------------------------------------------------------------
// Answers of others
// ---------------------------------------------------------------------------

/// What an answer is worth to the node, by the query that it answers.
pub struct Purpose {
    /// The info-hash whose peers were asked for.
    pub info_hash: Option<Seq<u8>>,
    /// The query was for nodes.
    pub finding: bool,
    /// The target next to which nodes were asked for.
    pub target: Option<Seq<u8>>,
    /// The port to announce, and whether it is implied.
    pub announce: Option<(u16, bool)>,
}

/// What the answer to a transaction is worth; to none, nothing but the nodes that it names.
pub open spec fn purpose_of(tx: Option<TxModel>) -> Purpose {
    match tx {
        None => Purpose { info_hash: None, finding: false, target: None, announce: None },
        Some(x) => Purpose {
            info_hash: x.info_hash,
            finding: x.qtype == "find_node"@,
            target: x.target,
            announce: if x.qtype == "get_peers"@ && x.info_hash is Some {
                match x.announce_port {
                    Some(port) => Some((port, x.announce_implied_port)),
                    None => None,
                }
            } else {
                None
            },
        },
    }
}

/// A node is asked for what an answer was worth: for peers, for nodes or for nothing, unless a
/// query of the kind already waits for its answer.
pub open spec fn pursue_step(r: Run, addr: AddrModel, p: Purpose, now: u64) -> Run {
    let text = host_port_text(addr.ip, addr.port);
    let sought = match p.info_hash {
        Some(ih) => if r.d.trans.get_at("get_peers"@, text) is None {
            r.asks_get_peers(addr, ih, None, now)
        } else {
            r
        },
        None => r,
    };
    match p.target {
        Some(target) => if p.finding && sought.d.trans.get_at("find_node"@, text) is None {
            sought.asks_find_node(addr, target, now)
        } else {
            sought
        },
        None => sought,
    }
}

/// A node that an answer names. It is entered, and asked in its turn.
pub open spec fn found_step(r: Run, n: (Seq<u8>, IpModel, u16), p: Purpose, now: u64) -> Run {
    let addr = AddrModel { ip: n.1, port: n.2 };
    if r.d.blacklist.has(ip_text(n.1), Some(n.2)) || r.d.routing.nodes.len() >= r.d.cfg.max_nodes {
        r
    } else {
        let entered = r.enters(n.0, addr, now).tells(
            r.d.callbacks.on_node,
            ActionModel::Node { id: hex_text(n.0), ip: ip_text(n.1), port: n.2 },
        );
        pursue_step(entered, addr, p, now)
    }
}

/// All nodes that an answer names.
pub open spec fn found_steps(
    r: Run,
    s: Seq<(Seq<u8>, IpModel, u16)>,
    p: Purpose,
    now: u64,
) -> Run
    decreases s.len(),
{
    if s.len() == 0 {
        r
    } else {
        found_step(found_steps(r, s.drop_last(), p, now), s.last(), p, now)
    }
}

/// A peer that an answer names.
pub open spec fn value_step(r: Run, v: BModel, ih: Seq<u8>) -> Run {
    match v {
        BModel::Bytes(b) => if b.len() == 6 {
            let peer = PeerModel { ip: host_at(b, 0), port: port_at(b, 4), token: None };
            r.stores(ih, peer).tells(
                r.d.callbacks.on_get_peers_response,
                ActionModel::GetPeersResponse { info_hash: hex_text(ih), peer },
            )
        } else {
            r
        },
        _ => r,
    }
}

/// All peers that an answer names.
pub open spec fn value_steps(r: Run, s: Seq<BModel>, ih: Seq<u8>) -> Run
    decreases s.len(),
{
    if s.len() == 0 {
        r
    } else {
        value_step(value_steps(r, s.drop_last(), ih), s.last(), ih)
    }
}

/// An announcement is sent, where one was planned for the transaction: with the token of the
/// answer.
pub open spec fn follow_up(
    r: Run,
    t: Seq<u8>,
    answer: Pairs,
    remote: Seq<u8>,
    addr: AddrModel,
    p: Purpose,
    now: u64,
) -> Run {
    match (p.announce, p.info_hash) {
        (Some((port, implied)), Some(ih)) => {
            let sent = match bytes_at(answer, "token"@) {
                Some(token) => r.asks(
                    addr,
                    "announce_peer"@,
                    r.d.announce_args(remote, ih, port, token, implied),
                    Some(ih),
                    None,
                    None,
                    now,
                ),
                None => r,
            };
            sent.finishes(t)
        },
        _ => r,
    }
}

/// An answer to a query of this node.
pub open spec fn answer_step(
    r: Run,
    t: Seq<u8>,
    answer: Pairs,
    remote: Seq<u8>,
    addr: AddrModel,
    p: Purpose,
    now: u64,
) -> Run {
    let found = match bytes_at(answer, "nodes"@) {
        Some(b) => found_steps(r, compact_nodes(b), p, now),
        None => r,
    };
    let stored = match (list_at(answer, "values"@), p.info_hash) {
        (Some(l), Some(ih)) => value_steps(found, l, ih).finishes(t),
        _ => found,
    };
    let announced = follow_up(stored, t, answer, remote, addr, p, now);
    if p.finding && p.info_hash is None {
        announced.finishes(t)
    } else {
        announced
    }
}

/// An answer. One that comes from another address than the query went to is passed over.
pub open spec fn response_step(
    r: Run,
    t: Seq<u8>,
    body: Pairs,
    addr: AddrModel,
    now: u64,
) -> Run {
    match dict_at(body, "r"@) {
        None => r,
        Some(answer) => match id_at(answer, "id"@) {
            None => r,
            Some(remote) => {
                let tx = r.d.trans.get(t);
                if tx is Some && tx->0.addr != addr {
                    r
                } else {
                    answer_step(r, t, answer, remote, addr, purpose_of(tx), now)
                }
            },
        },
    }
}

// ---------------------------------------------------------------------------
// Packets
// ---------------------------------------------------------------------------

/// A message: a query, an answer, or an error, which ends its transaction. One of another kind is
/// passed over.
pub open spec fn message_step(
    r: Run,
    m: MessageModel,
    addr: AddrModel,
    fresh: Seq<char>,
    now: u64,
) -> Run {
    if m.y == "q"@ {
        request_step(r, m.t, m.body, addr, fresh, now)
    } else if m.y == "r"@ {
        response_step(r, m.t, m.body, addr, now)
    } else if m.y == "e"@ {
        r.finishes(m.t)
    } else {
        r
    }
}

/// A packet. One of a blacklisted sender, and one that is no message, is passed over.
pub open spec fn packet_step(
    r: Run,
    data: Seq<u8>,
    addr: AddrModel,
    fresh: Seq<char>,
    now: u64,
) -> Run {
    if r.d.blacklist.has(ip_text(addr.ip), Some(addr.port)) {
        r
    } else {
        match message_in(data) {
            None => r,
            Some(m) => message_step(r, m, addr, fresh, now),
        }
    }
}

// ---------------------------------------------------------------------------
// Requests of the owner
// ---------------------------------------------------------------------------

/// Nodes are asked for the peers of an info-hash. Where `once` is set, those are left out of whom
/// the same is being asked.
pub open spec fn seek_steps(
    r: Run,
    s: Seq<Entry>,
    ih: Seq<u8>,
    announce_port: Option<u16>,
    once: bool,
    now: u64,
) -> Run
    decreases s.len(),
{
    if s.len() == 0 {
        r
    } else {
        let before = seek_steps(r, s.drop_last(), ih, announce_port, once, now);
        let addr = s.last().1.addr;
        if once && before.d.trans.get_at("get_peers"@, addr_text(addr)) is Some {
            before
        } else {
            before.asks_get_peers(addr, ih, announce_port, now)
        }
    }
}

/// All known nodes, those closest to the info-hash first.
pub open spec fn all_by_distance(d: DhtModel, ih: Seq<u8>) -> Seq<Entry> {
    nearest(d.routing.nodes, ih, d.routing.nodes.len())
}

/// A request of the owner.
pub open spec fn command_step(r: Run, c: CommandModel, now: u64) -> Run {
    match c {
        CommandModel::GetPeers { info_hash } => match info_hash_of(info_hash) {
            Some(ih) => seek_steps(r, all_by_distance(r.d, ih), ih, None, true, now),
            None => r,
        },
        CommandModel::AnnouncePeer { info_hash, port } => match info_hash_of(info_hash) {
            Some(ih) => seek_steps(r, all_by_distance(r.d, ih), ih, Some(port), true, now),
            None => r,
        },
        CommandModel::Shutdown => r,
    }
}

// ---------------------------------------------------------------------------
// Joining
// ---------------------------------------------------------------------------

/// Nodes are asked for the nodes next to a target.
pub open spec fn find_steps(r: Run, s: Seq<(AddrModel, Seq<u8>)>, now: u64) -> Run
    decreases s.len(),
{
    if s.len() == 0 {
        r
    } else {
        find_steps(r, s.drop_last(), now).asks_find_node(s.last().0, s.last().1, now)
    }
}

/// Where a node to begin with is reached: at the addresses of its name, or else at the address that
/// its name writes.
pub open spec fn contacts(resolved: Seq<AddrModel>, written: Option<AddrModel>) -> Seq<AddrModel> {
    if resolved.len() > 0 {
        resolved
    } else {
        match written {
            Some(a) => seq![a],
            None => Seq::empty(),
        }
    }
}

/// The nodes to begin with are asked for the nodes next to this one.
pub open spec fn join_steps(r: Run, hosts: Seq<Seq<AddrModel>>, now: u64) -> Run
    decreases hosts.len(),
{
    if hosts.len() == 0 {
        r
    } else {
        let id = r.d.self_id;
        find_steps(
            join_steps(r, hosts.drop_last(), now),
            hosts.last().map_values(|a: AddrModel| (a, id)),
            now,
        )
    }
}

// ---------------------------------------------------------------------------
// Upkeep
// ---------------------------------------------------------------------------

/// A query that has waited long enough is sent again.
pub open spec fn retry_step(r: Run, x: TxModel, now: u64) -> Run {
    let again = Run { d: DhtModel { trans: r.d.trans.retried(x.id, now), ..r.d }, ..r };
    if x.qtype == "get_peers"@ && x.info_hash is Some {
        again.sends(
            x.addr,
            packet(query_msg(x.id, "get_peers"@, r.d.get_peers_args(x.info_hash->0))),
        )
    } else if x.qtype == "find_node"@ && x.target is Some {
        again.sends(
            x.addr,
            packet(query_msg(x.id, "find_node"@, r.d.find_node_args(x.target->0))),
        )
    } else {
        r
    }
}

pub open spec fn retry_steps(r: Run, s: Seq<TxModel>, now: u64) -> Run
    decreases s.len(),
{
    if s.len() == 0 {
        r
    } else {
        retry_step(retry_steps(r, s.drop_last(), now), s.last(), now)
    }
}

/// A query that was tried often enough is given up. Its address is blacklisted; where `managed` is
/// set, a node that did not answer to a ping leaves the routing table instead.
pub open spec fn give_up_step(r: Run, t: Seq<u8>, managed: bool, now: u64) -> Run {
    let left = match r.d.trans.get(t) {
        Some(x) => if managed && x.qtype == "ping"@ {
            r.drops(addr_text(x.addr))
        } else {
            Run {
                d: DhtModel {
                    blacklist: r.d.blacklist.inserted(ip_text(x.addr.ip), Some(x.addr.port), now),
                    ..r.d
                },
                ..r
            }
        },
        None => r,
    };
    left.finishes(t)
}

pub open spec fn give_up_steps(r: Run, s: Seq<TxModel>, managed: bool, now: u64) -> Run
    decreases s.len(),
{
    if s.len() == 0 {
        r
    } else {
        give_up_step(give_up_steps(r, s.drop_last(), managed, now), s.last().id, managed, now)
    }
}

pub open spec fn drop_steps(r: Run, s: Seq<Seq<char>>) -> Run
    decreases s.len(),
{
    if s.len() == 0 {
        r
    } else {
        drop_steps(r, s.drop_last()).drops(s.last())
    }
}

/// Buckets that have not been heard of for long are refreshed, once no query waits.
pub open spec fn refresh_step(r: Run, noise: Seq<u8>, now: u64) -> Run {
    if r.d.trans.entries.len() > 0 {
        r
    } else {
        let plan = r.d.routing.refresh(
            now,
            r.d.cfg.kbucket_expired_after,
            r.d.cfg.refresh_node_num,
            r.d.cfg.mode == Mode::Crawl,
            noise,
        );
        drop_steps(find_steps(r, plan.tasks, now), plan.clear)
    }
}

/// Nodes that have not been heard of for long are pinged, unless a ping already waits.
pub open spec fn ping_steps(r: Run, s: Seq<Entry>, now: u64) -> Run
    decreases s.len(),
{
    if s.len() == 0 {
        r
    } else {
        let before = ping_steps(r, s.drop_last(), now);
        let addr = s.last().1.addr;
        if before.d.trans.get_at("ping"@, addr_text(addr)) is Some {
            before
        } else {
            before.asks_ping(addr, now)
        }
    }
}

/// Tokens and blacklist entries that have expired are dropped.
pub open spec fn cleared(r: Run, now: u64) -> Run {
    Run {
        d: DhtModel {
            tokens: r.d.tokens.cleared(now),
            blacklist: r.d.blacklist.cleared(now),
            ..r.d
        },
        ..r
    }
}

/// The upkeep that falls due from time to time. A node that knows no other joins the network. A
/// `managed` node also looks after the nodes that it knows.
pub open spec fn tick_step(r: Run, managed: bool, noise: Seq<u8>, now: u64) -> Run {
    if r.d.routing.nodes.len() == 0 {
        r.does(ActionModel::Join)
    } else {
        let tries = r.d.cfg.try_times;
        let retried = retry_steps(r, r.d.trans.to_retry(QUERY_TIMEOUT, tries, now), now);
        let given_up = give_up_steps(
            retried,
            r.d.trans.to_remove(QUERY_TIMEOUT, tries, now),
            managed,
            now,
        );
        let refreshed = refresh_step(given_up, noise, now);
        if managed {
            let pinged = ping_steps(
                refreshed,
                refreshed.d.routing.expired(refreshed.d.cfg.node_expired_after, now),
                now,
            );
            let clean = cleared(pinged, now);
            Run {
                d: DhtModel {
                    routing: clean.d.routing.pruned(
                        clean.d.cfg.node_expired_after,
                        clean.d.cfg.max_nodes,
                        now,
                    ),
                    ..clean.d
                },
                ..clean
            }
        } else {
            cleared(refreshed, now)
        }
    }
}

} // verus!
