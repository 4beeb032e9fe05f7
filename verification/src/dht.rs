//! The node: it answers the queries of others, follows up their answers and looks after its tables.

use vstd::prelude::*;
use vstd::string::*;
use crate::bencode::{list_model, BModel, BVal, Dict};
use crate::blacklist::BlackList;
use crate::command::DhtCommand;
use crate::hexcode::hex_encode;
use crate::krpc::{
    bytes, decode_value, make_error, make_query, make_response, packet, parse_message, query_msg,
    text_bytes, MessageModel,
};
use crate::laws::{
    law_command_keeps, law_ending_keeps, law_join_keeps, law_request_keeps, law_response_keeps,
    law_search_keeps, law_tick_keeps,
};
use crate::peers::{peer_list, PeersManager};
use crate::protocol::{
    all_by_distance, announce_step, answer_step, command_step, compact_values, contacts, drop_steps,
    find_node_step, find_steps, follow_up, found_step, found_steps, get_peers_answer,
    get_peers_step, give_up_step, give_up_steps, id_args, id_at, join_steps,
    message_step, named_port, packet_step, ping_steps, purpose_of, pursue_step, refresh_step,
    request_step, response_step, retry_step, retry_steps, seek_steps, tick_step, value_steps,
    ActionModel, ConfigModel, DhtCallbacks, DhtModel, Purpose, Run, PROTOCOL_ERROR, QUERY_TIMEOUT,
};
use crate::routing::{addr_list, node_list, task_list, text_list, Entry, RoutingTable};
use crate::text::{lossy_text, same_text, utf8_text};
use crate::token::TokenManager;
use crate::transaction::{tx_list, TransModel, Transaction, TransactionManager, TxModel};
use crate::types::{
    decode_info_hash, host_port, info_hash_of, opt_id, to_id, AddrModel, DhtError, IpAddr, Mode,
    Node, NodeId, Peer, SocketAddr,
};
use crate::util::{
    compact_nodes, decode_compact_ip_port, decode_compact_nodes, encode_compact_ip_port,
    found_model,
};

verus! {

// ---------------------------------------------------------------------------
// Configuration
// ---------------------------------------------------------------------------

/// How the node is set up. Times are nanoseconds.
pub struct Config {
    pub k: usize,
    pub kbucket_size: usize,
    pub network: String,
    pub address: String,
    pub prime_nodes: Vec<String>,
    pub kbucket_expired_after: u64,
    pub node_expired_after: u64,
    pub check_kbucket_period: u64,
    pub token_expired_after: u64,
    pub max_nodes: usize,
    pub blocked_ips: Vec<String>,
    pub blacklist_max_size: usize,
    pub mode: Mode,
    pub refresh_node_num: usize,
    pub try_times: u8,
}

impl View for Config {
    type V = ConfigModel;

    open spec fn view(&self) -> ConfigModel {
        ConfigModel {
            k: self.k as nat,
            kbucket_size: self.kbucket_size as nat,
            network: self.network@,
            address: self.address@,
            prime_nodes: text_list(self.prime_nodes@),
            kbucket_expired_after: self.kbucket_expired_after,
            node_expired_after: self.node_expired_after,
            check_kbucket_period: self.check_kbucket_period,
            token_expired_after: self.token_expired_after,
            max_nodes: self.max_nodes as nat,
            blocked_ips: text_list(self.blocked_ips@),
            blacklist_max_size: self.blacklist_max_size as nat,
            mode: self.mode,
            refresh_node_num: self.refresh_node_num as nat,
            try_times: self.try_times,
        }
    }
}

fn copy_texts(s: &Vec<String>) -> (r: Vec<String>)
    ensures
        text_list(r@) == text_list(s@),
{
    let mut out: Vec<String> = Vec::new();
    let mut i: usize = 0;
    while i < s.len()
        invariant
            i <= s@.len(),
            text_list(out@) =~= text_list(s@).take(i as int),
        decreases s.len() - i,
    {
        let t = s[i].clone();
        let ghost o0 = text_list(out@);
        out.push(t);
        assert(text_list(out@) =~= o0.push(t@));
        i += 1;
    }
    out
}

impl Clone for Config {
    fn clone(&self) -> (r: Self)
        ensures
            r@ == self@,
    {
        Config {
            k: self.k,
            kbucket_size: self.kbucket_size,
            network: self.network.clone(),
            address: self.address.clone(),
            prime_nodes: copy_texts(&self.prime_nodes),
            kbucket_expired_after: self.kbucket_expired_after,
            node_expired_after: self.node_expired_after,
            check_kbucket_period: self.check_kbucket_period,
            token_expired_after: self.token_expired_after,
            max_nodes: self.max_nodes,
            blocked_ips: copy_texts(&self.blocked_ips),
            blacklist_max_size: self.blacklist_max_size,
            mode: self.mode,
            refresh_node_num: self.refresh_node_num,
            try_times: self.try_times,
        }
    }
}

/// The nodes to begin with.
pub open spec fn prime_nodes() -> Seq<Seq<char>> {
    seq![
        "router.bittorrent.com:6881"@,
        "dht.transmissionbt.com:6881"@,
        "router.utorrent.com:6881"@,
        "router.bitcomet.com:6881"@,
        "dht.aelitis.com:6881"@,
        "dht.libtorrent.org:25401"@,
        "router.bittorrentcloud.com:6881"@,
        "dht.anaconda.com:6881"@,
        "dht.vuze.com:6881"@,
        "dht.transmissionbt.net:6881"@,
        "router.silotis.us:6881"@,
        "router.ktorrent.com:6881"@,
        "router.tribler.org:6881"@,
        "router.bittorrent.jp:6881"@,
        "router.cn.utorrent.com:6881"@,
        "router.bittorrent.ru:6881"@,
        "router.bittorrent.kr:6881"@,
    ]
}

impl Default for Config {
    fn default() -> (r: Self)
        ensures
            r@ == (ConfigModel {
                k: 8,
                kbucket_size: 8,
                network: "udp4"@,
                address: ":6881"@,
                prime_nodes: prime_nodes(),
                kbucket_expired_after: 900_000_000_000,
                node_expired_after: 900_000_000_000,
                check_kbucket_period: 30_000_000_000,
                token_expired_after: 600_000_000_000,
                max_nodes: 5000,
                blocked_ips: Seq::empty(),
                blacklist_max_size: 65536,
                mode: Mode::Standard,
                refresh_node_num: 8,
                try_times: 2,
            }),
    {
        let prime_nodes: Vec<String> = vec![
            // Well-known routers
            "router.bittorrent.com:6881".to_owned(),
            "dht.transmissionbt.com:6881".to_owned(),
            "router.utorrent.com:6881".to_owned(),
            "router.bitcomet.com:6881".to_owned(),
            // Stable nodes overseas
            "dht.aelitis.com:6881".to_owned(),
            "dht.libtorrent.org:25401".to_owned(),
            "router.bittorrentcloud.com:6881".to_owned(),
            "dht.anaconda.com:6881".to_owned(),
            // European community nodes
            "dht.vuze.com:6881".to_owned(),
            "dht.transmissionbt.net:6881".to_owned(),
            "router.silotis.us:6881".to_owned(),
            "router.ktorrent.com:6881".to_owned(),
            "router.tribler.org:6881".to_owned(),
            // Asian and Russian nodes
            "router.bittorrent.jp:6881".to_owned(),
            "router.cn.utorrent.com:6881".to_owned(),
            "router.bittorrent.ru:6881".to_owned(),
            "router.bittorrent.kr:6881".to_owned(),
        ];
        let blocked_ips: Vec<String> = Vec::new();
        assert(text_list(prime_nodes@) =~= crate::dht::prime_nodes());
        assert(text_list(blocked_ips@) =~= Seq::empty());
        Config {
            k: 8,
            kbucket_size: 8,
            network: "udp4".to_owned(),
            address: ":6881".to_owned(),
            prime_nodes,
            kbucket_expired_after: 900_000_000_000,
            node_expired_after: 900_000_000_000,
            check_kbucket_period: 30_000_000_000,
            token_expired_after: 600_000_000_000,
            max_nodes: 5000,
            blocked_ips,
            blacklist_max_size: 65536,
            mode: Mode::Standard,
            refresh_node_num: 8,
            try_times: 2,
        }
    }
}

impl Default for DhtCallbacks {
    fn default() -> (r: Self)
        ensures
            r == (DhtCallbacks {
                on_get_peers: false,
                on_get_peers_response: false,
                on_announce_peer: false,
                on_node: false,
            }),
    {
        DhtCallbacks {
            on_get_peers: false,
            on_get_peers_response: false,
            on_announce_peer: false,
            on_node: false,
        }
    }
}

// ---------------------------------------------------------------------------
// Actions
// ---------------------------------------------------------------------------

/// What the node wants done: a packet sent, or its owner told of an event.
pub enum Action {
    Send { addr: SocketAddr, buf: Vec<u8> },
    /// Find the addresses of the nodes to begin with, and join the network through them.
    Join,
    GetPeers { info_hash: String, ip: String, port: u16 },
    GetPeersResponse { info_hash: String, peer: Peer },
    AnnouncePeer { info_hash: String, ip: String, port: u16 },
    Node { id: String, ip: String, port: u16 },
}

impl View for Action {
    type V = ActionModel;

    open spec fn view(&self) -> ActionModel {
        match self {
            Action::Send { addr, buf } => ActionModel::Send { addr: addr@, buf: buf@ },
            Action::Join => ActionModel::Join,
            Action::GetPeers { info_hash, ip, port } => ActionModel::GetPeers {
                info_hash: info_hash@,
                ip: ip@,
                port: *port,
            },
            Action::GetPeersResponse { info_hash, peer } => ActionModel::GetPeersResponse {
                info_hash: info_hash@,
                peer: peer@,
            },
            Action::AnnouncePeer { info_hash, ip, port } => ActionModel::AnnouncePeer {
                info_hash: info_hash@,
                ip: ip@,
                port: *port,
            },
            Action::Node { id, ip, port } => ActionModel::Node { id: id@, ip: ip@, port: *port },
        }
    }
}

/// What a list of actions stands for.
pub open spec fn action_list(s: Seq<Action>) -> Seq<ActionModel> {
    Seq::new(s.len(), |i: int| s[i]@)
}

fn act(out: &mut Vec<Action>, a: Action)
    ensures
        action_list(final(out)@) == action_list(old(out)@).push(a@),
{
    let ghost o0 = action_list(out@);
    let ghost m = a@;
    out.push(a);
    assert(action_list(out@) =~= o0.push(m));
}

// ---------------------------------------------------------------------------
// The node
// ---------------------------------------------------------------------------

/// The state of the node.
pub struct Dht {
    pub cfg: Config,
    pub peers: PeersManager,
    pub blacklist: BlackList,
    pub routing: RoutingTable,
    pub ready: bool,
    pub callbacks: DhtCallbacks,
    self_id: [u8; 20],
    tokens: TokenManager,
    trans: TransactionManager,
}

impl View for Dht {
    type V = DhtModel;

    closed spec fn view(&self) -> DhtModel {
        DhtModel {
            cfg: self.cfg@,
            peers: self.peers@,
            blacklist: self.blacklist@,
            routing: self.routing@,
            ready: self.ready,
            callbacks: self.callbacks,
            self_id: self.self_id@,
            tokens: self.tokens@,
            trans: self.trans@,
        }
    }
}

/// What a node and the actions that it wants done so far stand for.
pub open spec fn run_of(d: Dht, out: Seq<Action>) -> Run {
    Run { d: d@, out: action_list(out) }
}

/// The twenty bytes under a key.
fn id_in(a: &Dict, k: &str) -> (r: Option<[u8; 20]>)
    ensures
        opt_id(r) == id_at(a@, k@),
{
    match a.get_bytes(k) {
        Some(b) => if b.len() == 20 {
            Some(to_id(b.as_slice()))
        } else {
            None
        },
        None => None,
    }
}

/// The port that an announcement names.
fn port_named(n: i64) -> (r: u16)
    ensures
        r == named_port(n),
{
    // A multiple of 2^32 is added, so that nothing is negative.
    let shifted: i128 = n as i128 + 0x8000_0000_0000_0000;
    let low: u64 = shifted as u64 % 0x1_0000_0000;
    proof {
        vstd::arithmetic::div_mod::lemma_mod_multiples_vanish(
            0x8000_0000,
            n as int,
            0x1_0000_0000,
        );
        assert(low == (n as int) % 0x1_0000_0000);
    }
    if low >= 0x8000_0000 {
        0
    } else {
        (low % 0x1_0000) as u16
    }
}

/// The compact forms of peers.
fn values_of(peers: &Vec<Peer>) -> (r: Vec<BVal>)
    ensures
        list_model(r@) == compact_values(peer_list(peers@)),
{
    let ghost s = peer_list(peers@);
    let mut vals: Vec<BVal> = Vec::new();
    let mut i: usize = 0;
    assert(list_model(vals@) =~= compact_values(s.take(0)));
    while i < peers.len()
        invariant
            i <= peers@.len(),
            s == peer_list(peers@),
            list_model(vals@) == compact_values(s.take(i as int)),
        decreases peers.len() - i,
    {
        proof {
            assert(s.take(i + 1).drop_last() =~= s.take(i as int));
            assert(s.take(i + 1).last() == s[i as int]);
        }
        match encode_compact_ip_port(&peers[i].ip, peers[i].port) {
            Some(b) => {
                let ghost v0 = list_model(vals@);
                vals.push(BVal::Bytes(b));
                assert(list_model(vals@) =~= v0.push(BModel::Bytes(b@)));
            },
            None => {},
        }
        i += 1;
    }
    assert(s.take(i as int) =~= s);
    vals
}

/// What an answer is worth to the node, by the query that it answers.
struct Task {
    info_hash: Option<[u8; 20]>,
    finding: bool,
    target: Option<[u8; 20]>,
    announce: Option<(u16, bool)>,
}

impl View for Task {
    type V = Purpose;

    closed spec fn view(&self) -> Purpose {
        Purpose {
            info_hash: opt_id(self.info_hash),
            finding: self.finding,
            target: opt_id(self.target),
            announce: self.announce,
        }
    }
}

fn task_of(x: &Transaction) -> (r: Task)
    ensures
        r@ == purpose_of(Some(x@)),
{
    let announce = if same_text(x.qtype.as_str(), "get_peers") {
        match (x.info_hash, x.announce_port) {
            (Some(_), Some(port)) => Some((port, x.announce_implied_port)),
            _ => None,
        }
    } else {
        None
    };
    Task {
        info_hash: x.info_hash,
        finding: same_text(x.qtype.as_str(), "find_node"),
        target: x.target,
        announce,
    }
}

/// What is known of a node to begin with: the addresses that its name was resolved to, and the
/// address that its name writes, where it writes one.
pub struct Contact {
    pub resolved: Vec<SocketAddr>,
    pub written: Option<SocketAddr>,
}

impl View for Contact {
    type V = Seq<AddrModel>;

    open spec fn view(&self) -> Seq<AddrModel> {
        contacts(
            addr_list(self.resolved@),
            match self.written {
                Some(a) => Some(a@),
                None => None,
            },
        )
    }
}

/// What a list of nodes to begin with stands for.
pub open spec fn contact_list(s: Seq<Contact>) -> Seq<Seq<AddrModel>> {
    Seq::new(s.len(), |i: int| s[i]@)
}

impl Dht {
    /// The tables are held together.
    pub closed spec fn held(&self) -> bool {
        &&& self.blacklist.wf()
        &&& self.tokens.wf()
        &&& self.trans@.max_cursor > 0
    }

    /// The tables are held together, in order and within their bounds.
    pub open spec fn wf(&self) -> bool {
        self.held() && self@.valid()
    }

    /// A node that knows nobody, under the identifier `self_id`.
    pub fn new(cfg: Config, self_id: [u8; 20]) -> (r: Self)
        ensures
            r.wf(),
            r@.cfg == cfg@,
            r@.self_id == self_id@,
            !r@.ready,
            r@.callbacks == (DhtCallbacks {
                on_get_peers: false,
                on_get_peers_response: false,
                on_announce_peer: false,
                on_node: false,
            }),
            r@.peers.table.dom() == Set::<Seq<u8>>::empty(),
            r@.peers.k == cfg.k,
            r@.blacklist.listed == Map::<Seq<char>, ((), u64)>::empty(),
            r@.blacklist.max_size == cfg.blacklist_max_size,
            r@.routing.nodes == Seq::<Entry>::empty(),
            r@.routing.k == cfg.kbucket_size,
            r@.tokens.given == Map::<Seq<char>, (Seq<char>, u64)>::empty(),
            r@.tokens.expired_after == cfg.token_expired_after,
            r@.trans == (TransModel {
                entries: Seq::empty(),
                index: Map::empty(),
                cursor: 0,
                max_cursor: u64::MAX / 2,
            }),
    {
        let peers = PeersManager::new(cfg.k);
        let blacklist = BlackList::new(cfg.blacklist_max_size);
        let routing = RoutingTable::new(cfg.kbucket_size);
        let tokens = TokenManager::new(cfg.token_expired_after);
        let trans = TransactionManager::new(u64::MAX / 2);
        Dht {
            cfg,
            peers,
            blacklist,
            routing,
            ready: false,
            callbacks: DhtCallbacks::default(),
            self_id,
            tokens,
            trans,
        }
    }

    /// The identifier that is shown for a target.
    fn select_id_for(&self, target: Option<&[u8; 20]>) -> (r: [u8; 20])
        ensures
            r@ == self@.id_for(
                match target {
                    Some(t) => Some(t@),
                    None => None,
                },
            ),
    {
        match (self.cfg.mode, target) {
            (Mode::Crawl, Some(t)) => {
                let mut out = self.self_id;
                let mut i: usize = 0;
                while i < 15
                    invariant
                        i <= 15,
                        out@.len() == 20,
                        forall|j: int| 0 <= j < i ==> out@[j] == t@[j],
                        forall|j: int| i <= j < 20 ==> out@[j] == self.self_id@[j],
                    decreases 15 - i,
                {
                    out[i] = t[i];
                    i += 1;
                }
                assert(out@ =~= t@.take(15) + self.self_id@.skip(15));
                out
            },
            _ => self.self_id,
        }
    }

    fn id_dict(&self, target: Option<&[u8; 20]>) -> (r: Dict)
        ensures
            r@ == id_args(
                self@.id_for(
                    match target {
                        Some(t) => Some(t@),
                        None => None,
                    },
                ),
            ),
    {
        let id = self.select_id_for(target);
        Dict::new().with("id", bytes(&id))
    }

    fn get_peers_dict(&self, ih: &[u8; 20]) -> (r: Dict)
        ensures
            r@ == self@.get_peers_args(ih@),
    {
        self.id_dict(Some(ih)).with("info_hash", bytes(ih))
    }

    fn find_node_dict(&self, target: &[u8; 20]) -> (r: Dict)
        ensures
            r@ == self@.find_node_args(target@),
    {
        self.id_dict(None).with("target", bytes(target))
    }

    fn announce_dict(
        &self,
        remote: &[u8; 20],
        ih: &[u8; 20],
        port: u16,
        token: &[u8],
        implied: bool,
    ) -> (r: Dict)
        ensures
            r@ == self@.announce_args(remote@, ih@, port, token@, implied),
    {
        let a = self.id_dict(Some(remote)).with("info_hash", bytes(ih)).with(
            "port",
            BVal::Int(port as i64),
        ).with("token", bytes(token));
        if implied {
            a.with("implied_port", BVal::Int(1))
        } else {
            a
        }
    }

    /// Sends a query, which waits for its answer under the next transaction identifier.
    fn ask(
        &mut self,
        out: &mut Vec<Action>,
        addr: &SocketAddr,
        q: &str,
        a: Dict,
        info_hash: Option<[u8; 20]>,
        target: Option<[u8; 20]>,
        announce_port: Option<u16>,
        now: u64,
    )
        requires
            old(self).held(),
        ensures
            final(self).held(),
            run_of(*final(self), final(out)@) == run_of(*old(self), old(out)@).asks(
                addr@,
                q@,
                a@,
                opt_id(info_hash),
                opt_id(target),
                announce_port,
                now,
            ),
    {
        let tid = self.trans.gen_id();
        let id = tid.clone();
        assert(id@ =~= tid@);
        let trans = Transaction {
            trans_id_bytes: id,
            addr: addr.clone(),
            qtype: q.to_owned(),
            responder: None,
            info_hash,
            target,
            announce_port,
            announce_implied_port: false,
            created_at: now,
            retries: 0,
        };
        self.trans.insert(trans);
        let buf = make_query(tid.as_slice(), q, a);
        act(out, Action::Send { addr: addr.clone(), buf });
    }

    fn ask_get_peers(
        &mut self,
        out: &mut Vec<Action>,
        addr: &SocketAddr,
        ih: &[u8; 20],
        announce_port: Option<u16>,
        now: u64,
    )
        requires
            old(self).held(),
        ensures
            final(self).held(),
            run_of(*final(self), final(out)@) == run_of(*old(self), old(out)@).asks_get_peers(
                addr@,
                ih@,
                announce_port,
                now,
            ),
    {
        let a = self.get_peers_dict(ih);
        self.ask(out, addr, "get_peers", a, Some(*ih), None, announce_port, now);
    }

    fn ask_find_node(
        &mut self,
        out: &mut Vec<Action>,
        addr: &SocketAddr,
        target: &[u8; 20],
        now: u64,
    )
        requires
            old(self).held(),
        ensures
            final(self).held(),
            run_of(*final(self), final(out)@) == run_of(*old(self), old(out)@).asks_find_node(
                addr@,
                target@,
                now,
            ),
    {
        let a = self.find_node_dict(target);
        self.ask(out, addr, "find_node", a, None, Some(*target), None, now);
    }

    fn ask_ping(&mut self, out: &mut Vec<Action>, addr: &SocketAddr, now: u64)
        requires
            old(self).held(),
        ensures
            final(self).held(),
            run_of(*final(self), final(out)@) == run_of(*old(self), old(out)@).asks_ping(
                addr@,
                now,
            ),
    {
        let a = self.id_dict(None);
        self.ask(out, addr, "ping", a, None, None, None, now);
    }

    fn answer(&self, out: &mut Vec<Action>, addr: &SocketAddr, t: &[u8], r: Dict)
        ensures
            run_of(*self, final(out)@) == run_of(*self, old(out)@).answers(addr@, t@, r@),
    {
        let buf = make_response(t, r);
        act(out, Action::Send { addr: addr.clone(), buf });
    }

    fn refuse(&self, out: &mut Vec<Action>, addr: &SocketAddr, t: &[u8], text: &str)
        ensures
            run_of(*self, final(out)@) == run_of(*self, old(out)@).refuses(addr@, t@, text@),
    {
        let buf = make_error(t, PROTOCOL_ERROR, text);
        act(out, Action::Send { addr: addr.clone(), buf });
    }

    fn enter(&mut self, out: &Vec<Action>, id: &[u8; 20], addr: &SocketAddr, now: u64)
        requires
            old(self).held(),
        ensures
            final(self).held(),
            run_of(*final(self), out@) == run_of(*old(self), out@).enters(id@, addr@, now),
    {
        self.routing.insert(Node { id: NodeId(*id), addr: addr.clone(), last_active: now });
    }

    fn note(&mut self, out: &Vec<Action>, id: &[u8; 20], addr: &SocketAddr, now: u64)
        requires
            old(self).held(),
        ensures
            final(self).held(),
            run_of(*final(self), out@) == run_of(*old(self), out@).notes(id@, addr@, now),
    {
        if self.routing.len() < self.cfg.max_nodes {
            self.enter(out, id, addr, now);
        }
    }

    // -----------------------------------------------------------------------
    // Queries of others
    // -----------------------------------------------------------------------

    /// A query for the nodes next to a target.
    fn on_find_node(
        &mut self,
        out: &mut Vec<Action>,
        t: &[u8],
        a: &Dict,
        remote: &[u8; 20],
        addr: &SocketAddr,
        now: u64,
    )
        requires
            old(self).held(),
        ensures
            final(self).held(),
            run_of(*final(self), final(out)@) == find_node_step(
                run_of(*old(self), old(out)@),
                t@,
                a@,
                remote@,
                addr@,
                now,
            ),
    {
        if self.cfg.mode == Mode::Standard {
            match id_in(a, "target") {
                None => {
                    self.refuse(out, addr, t, "invalid target");
                    return ;
                },
                Some(target) => {
                    let near = self.routing.get_neighbors_compact(&target, self.cfg.k);
                    let r = self.id_dict(Some(&target)).with("nodes", BVal::Bytes(near));
                    self.answer(out, addr, t, r);
                },
            }
        }
        self.note(out, remote, addr, now);
    }

    /// What is answered to a query for the peers of an info-hash.
    fn get_peers_reply(&self, ih: &[u8; 20], token: &str) -> (r: Dict)
        ensures
            r@ == get_peers_answer(self@, ih@, token@),
    {
        let id = self.id_dict(Some(ih));
        match self.cfg.mode {
            Mode::Crawl => {
                let none: Vec<u8> = Vec::new();
                assert(none@ =~= Seq::empty());
                id.with("token", BVal::Bytes(text_bytes(token))).with("nodes", BVal::Bytes(none))
            },
            Mode::Standard => {
                let peers = self.peers.get(*ih, self.cfg.k);
                if peers.len() > 0 {
                    let vals = values_of(&peers);
                    id.with("values", BVal::List(vals)).with(
                        "token",
                        BVal::Bytes(text_bytes(token)),
                    )
                } else {
                    let near = self.routing.get_neighbors_compact(ih, self.cfg.k);
                    id.with("token", BVal::Bytes(text_bytes(token))).with(
                        "nodes",
                        BVal::Bytes(near),
                    )
                }
            },
        }
    }

    /// A query for the peers of an info-hash.
    fn on_get_peers(
        &mut self,
        out: &mut Vec<Action>,
        t: &[u8],
        a: &Dict,
        remote: &[u8; 20],
        addr: &SocketAddr,
        fresh: &str,
        now: u64,
    )
        requires
            old(self).held(),
        ensures
            final(self).held(),
            run_of(*final(self), final(out)@) == get_peers_step(
                run_of(*old(self), old(out)@),
                t@,
                a@,
                remote@,
                addr@,
                fresh@,
                now,
            ),
    {
        match id_in(a, "info_hash") {
            None => {
                self.refuse(out, addr, t, "invalid info_hash");
            },
            Some(ih) => {
                let ip = addr.ip.text();
                let token = self.tokens.token(ip.as_str(), fresh, now);
                let r = self.get_peers_reply(&ih, token.as_str());
                self.answer(out, addr, t, r);
                if self.callbacks.on_get_peers {
                    act(
                        out,
                        Action::GetPeers { info_hash: hex_encode(&ih), ip, port: addr.port },
                    );
                }
                self.note(out, remote, addr, now);
            },
        }
    }

    /// An announcement.
    fn on_announce_peer(
        &mut self,
        out: &mut Vec<Action>,
        t: &[u8],
        a: &Dict,
        remote: &[u8; 20],
        addr: &SocketAddr,
        now: u64,
    )
        requires
            old(self).held(),
        ensures
            final(self).held(),
            run_of(*final(self), final(out)@) == announce_step(
                run_of(*old(self), old(out)@),
                t@,
                a@,
                remote@,
                addr@,
                now,
            ),
    {
        let ih = match id_in(a, "info_hash") {
            Some(ih) => ih,
            None => {
                return ;
            },
        };
        let named: i64 = match a.get_int("port") {
            Some(n) => n,
            None => {
                return ;
            },
        };
        let token = match a.get_bytes("token") {
            Some(b) => lossy_text(b.as_slice()),
            None => {
                return ;
            },
        };
        let ip = addr.ip.text();
        if !self.tokens.check(ip.as_str(), token.as_str(), now) {
            return ;
        }
        let port: u16 = match a.get_int("implied_port") {
            Some(implied) => if implied != 0 {
                addr.port
            } else {
                port_named(named)
            },
            None => port_named(named),
        };
        if self.cfg.mode == Mode::Standard {
            self.peers.insert(ih, Peer { ip: addr.ip.clone(), port, token: Some(token) });
            let r = self.id_dict(Some(remote));
            self.answer(out, addr, t, r);
        }
        if self.callbacks.on_announce_peer {
            act(out, Action::AnnouncePeer { info_hash: hex_encode(&ih), ip, port });
        }
        self.note(out, remote, addr, now);
    }

    /// Takes in a query. What is to be done is added to `out`; `fresh` is the token that the sender
    /// is given where it asks for peers and holds none.
    pub fn handle_request(
        &mut self,
        out: &mut Vec<Action>,
        t: &[u8],
        msg: &Dict,
        addr: &SocketAddr,
        fresh: &str,
        now: u64,
    )
        requires
            old(self).wf(),
        ensures
            final(self).wf(),
            run_of(*final(self), final(out)@) == request_step(
                run_of(*old(self), old(out)@),
                t@,
                msg@,
                addr@,
                fresh@,
                now,
            ),
    {
        proof {
            law_request_keeps(run_of(*self, out@), t@, msg@, addr@, fresh@, now);
        }
        let (qb, a) = match (msg.get_bytes("q"), msg.get_dict("a")) {
            (Some(qb), Some(a)) => (qb, a),
            _ => {
                return ;
            },
        };
        let q = match utf8_text(qb.as_slice()) {
            Some(q) => q,
            None => {
                return ;
            },
        };
        let remote = match id_in(a, "id") {
            Some(id) => id,
            None => {
                self.refuse(out, addr, t, "invalid id");
                return ;
            },
        };
        if same_text(q.as_str(), "ping") {
            let r = self.id_dict(Some(&remote));
            self.answer(out, addr, t, r);
        } else if same_text(q.as_str(), "find_node") {
            self.on_find_node(out, t, a, &remote, addr, now);
        } else if same_text(q.as_str(), "get_peers") {
            self.on_get_peers(out, t, a, &remote, addr, fresh, now);
        } else if same_text(q.as_str(), "announce_peer") {
            self.on_announce_peer(out, t, a, &remote, addr, now);
        } else {
            self.note(out, &remote, addr, now);
        }
    }

    // -----------------------------------------------------------------------
    // Answers of others
    // -----------------------------------------------------------------------

    /// Asks a node for what an answer was worth.
    fn pursue(&mut self, out: &mut Vec<Action>, addr: &SocketAddr, task: &Task, now: u64)
        requires
            old(self).held(),
        ensures
            final(self).held(),
            run_of(*final(self), final(out)@) == pursue_step(
                run_of(*old(self), old(out)@),
                addr@,
                task@,
                now,
            ),
    {
        let text = host_port(&addr.ip, addr.port);
        match &task.info_hash {
            Some(ih) => {
                if self.trans.get_by_index("get_peers", text.as_str()).is_none() {
                    self.ask_get_peers(out, addr, ih, None, now);
                }
            },
            None => {},
        }
        match &task.target {
            Some(target) => {
                if task.finding && self.trans.get_by_index("find_node", text.as_str()).is_none() {
                    self.ask_find_node(out, addr, target, now);
                }
            },
            None => {},
        }
    }

    /// A node that an answer names.
    fn on_found(
        &mut self,
        out: &mut Vec<Action>,
        id: &[u8; 20],
        ip: &IpAddr,
        port: u16,
        task: &Task,
        now: u64,
    )
        requires
            old(self).held(),
        ensures
            final(self).held(),
            run_of(*final(self), final(out)@) == found_step(
                run_of(*old(self), old(out)@),
                (id@, ip@, port),
                task@,
                now,
            ),
    {
        let host = ip.text();
        if self.blacklist.contains(host.as_str(), Some(port)) {
            return ;
        }
        if self.routing.len() >= self.cfg.max_nodes {
            return ;
        }
        let addr = SocketAddr { ip: ip.clone(), port };
        self.enter(out, id, &addr, now);
        if self.callbacks.on_node {
            act(out, Action::Node { id: hex_encode(id), ip: host, port });
        }
        self.pursue(out, &addr, task, now);
    }

    /// All nodes that an answer names.
    fn on_nodes(&mut self, out: &mut Vec<Action>, b: &[u8], task: &Task, now: u64)
        requires
            old(self).held(),
        ensures
            final(self).held(),
            run_of(*final(self), final(out)@) == found_steps(
                run_of(*old(self), old(out)@),
                compact_nodes(b@),
                task@,
                now,
            ),
    {
        let found = decode_compact_nodes(b);
        let ghost s = found_model(found@);
        let ghost r0 = run_of(*self, out@);
        let mut i: usize = 0;
        assert(found_steps(r0, s.take(0), task@, now) == r0);
        while i < found.len()
            invariant
                i <= found@.len(),
                s == found_model(found@),
                self.held(),
                run_of(*self, out@) == found_steps(r0, s.take(i as int), task@, now),
            decreases found.len() - i,
        {
            proof {
                assert(s.take(i + 1).drop_last() =~= s.take(i as int));
                assert(s.take(i + 1).last() == s[i as int]);
            }
            let n = &found[i];
            self.on_found(out, &n.0, &n.1, n.2, task, now);
            i += 1;
        }
        assert(s.take(i as int) =~= s);
    }

    /// All peers that an answer names.
    fn on_values(&mut self, out: &mut Vec<Action>, vals: &Vec<BVal>, ih: &[u8; 20])
        requires
            old(self).held(),
        ensures
            final(self).held(),
            run_of(*final(self), final(out)@) == value_steps(
                run_of(*old(self), old(out)@),
                list_model(vals@),
                ih@,
            ),
    {
        let ghost s = list_model(vals@);
        let ghost r0 = run_of(*self, out@);
        let mut i: usize = 0;
        assert(value_steps(r0, s.take(0), ih@) == r0);
        while i < vals.len()
            invariant
                i <= vals@.len(),
                s == list_model(vals@),
                self.held(),
                run_of(*self, out@) == value_steps(r0, s.take(i as int), ih@),
            decreases vals.len() - i,
        {
            proof {
                assert(s.take(i + 1).drop_last() =~= s.take(i as int));
                assert(s.take(i + 1).last() == s[i as int]);
                assert(s[i as int] == vals@[i as int]@);
            }
            match &vals[i] {
                BVal::Bytes(b) => {
                    if b.len() == 6 {
                        match decode_compact_ip_port(b.as_slice()) {
                            Some((ip, port)) => {
                                let peer = Peer { ip, port, token: None };
                                self.peers.insert(*ih, peer.clone());
                                if self.callbacks.on_get_peers_response {
                                    act(
                                        out,
                                        Action::GetPeersResponse {
                                            info_hash: hex_encode(ih),
                                            peer,
                                        },
                                    );
                                }
                            },
                            None => {},
                        }
                    }
                },
                _ => {},
            }
            i += 1;
        }
        assert(s.take(i as int) =~= s);
    }

    /// An announcement is sent, where one was planned.
    fn announce_after(
        &mut self,
        out: &mut Vec<Action>,
        t: &[u8],
        answer: &Dict,
        remote: &[u8; 20],
        addr: &SocketAddr,
        task: &Task,
        now: u64,
    )
        requires
            old(self).held(),
        ensures
            final(self).held(),
            run_of(*final(self), final(out)@) == follow_up(
                run_of(*old(self), old(out)@),
                t@,
                answer@,
                remote@,
                addr@,
                task@,
                now,
            ),
    {
        match (&task.announce, &task.info_hash) {
            (Some((port, implied)), Some(ih)) => {
                match answer.get_bytes("token") {
                    Some(token) => {
                        let a = self.announce_dict(remote, ih, *port, token.as_slice(), *implied);
                        self.ask(out, addr, "announce_peer", a, Some(*ih), None, None, now);
                    },
                    None => {},
                }
                self.trans.finish_by_trans_id(t);
            },
            _ => {},
        }
    }

    /// An answer to a query of this node.
    fn on_answer(
        &mut self,
        out: &mut Vec<Action>,
        t: &[u8],
        answer: &Dict,
        remote: &[u8; 20],
        addr: &SocketAddr,
        task: &Task,
        now: u64,
    )
        requires
            old(self).held(),
        ensures
            final(self).held(),
            run_of(*final(self), final(out)@) == answer_step(
                run_of(*old(self), old(out)@),
                t@,
                answer@,
                remote@,
                addr@,
                task@,
                now,
            ),
    {
        match answer.get_bytes("nodes") {
            Some(b) => {
                self.on_nodes(out, b.as_slice(), task, now);
            },
            None => {},
        }
        match (answer.get_list("values"), &task.info_hash) {
            (Some(vals), Some(ih)) => {
                self.on_values(out, vals, ih);
                self.trans.finish_by_trans_id(t);
            },
            _ => {},
        }
        self.announce_after(out, t, answer, remote, addr, task, now);
        if task.finding && task.info_hash.is_none() {
            self.trans.finish_by_trans_id(t);
        }
    }

    /// Takes in an answer. What is to be done is added to `out`.
    pub fn handle_response(
        &mut self,
        out: &mut Vec<Action>,
        t: &[u8],
        msg: &Dict,
        addr: &SocketAddr,
        now: u64,
    )
        requires
            old(self).wf(),
        ensures
            final(self).wf(),
            run_of(*final(self), final(out)@) == response_step(
                run_of(*old(self), old(out)@),
                t@,
                msg@,
                addr@,
                now,
            ),
    {
        proof {
            law_response_keeps(run_of(*self, out@), t@, msg@, addr@, now);
        }
        let answer = match msg.get_dict("r") {
            Some(r) => r,
            None => {
                return ;
            },
        };
        let remote = match id_in(answer, "id") {
            Some(id) => id,
            None => {
                return ;
            },
        };
        let task = match self.trans.get_by_trans_id(t) {
            Some(x) => {
                if !x.addr.same(addr) {
                    return ;
                }
                task_of(x)
            },
            None => Task { info_hash: None, finding: false, target: None, announce: None },
        };
        self.on_answer(out, t, answer, &remote, addr, &task, now);
    }

    // -----------------------------------------------------------------------
    // Packets
    // -----------------------------------------------------------------------

    /// A message.
    fn handle_message(
        &mut self,
        out: &mut Vec<Action>,
        t: &[u8],
        y: &str,
        msg: &Dict,
        addr: &SocketAddr,
        fresh: &str,
        now: u64,
    )
        requires
            old(self).wf(),
        ensures
            final(self).wf(),
            run_of(*final(self), final(out)@) == message_step(
                run_of(*old(self), old(out)@),
                (MessageModel { t: t@, y: y@, body: msg@ }),
                addr@,
                fresh@,
                now,
            ),
    {
        if same_text(y, "q") {
            self.handle_request(out, t, msg, addr, fresh, now);
        } else if same_text(y, "r") {
            self.handle_response(out, t, msg, addr, now);
        } else if same_text(y, "e") {
            proof {
                law_ending_keeps(run_of(*self, out@), t@);
            }
            self.trans.finish_by_trans_id(t);
        }
    }

    /// Takes in a packet. `fresh` is the token that its sender is given where it asks for peers and
    /// holds none.
    pub fn handle_packet(&mut self, data: &[u8], addr: &SocketAddr, fresh: &str, now: u64) -> (r:
        Vec<Action>)
        requires
            old(self).wf(),
        ensures
            final(self).wf(),
            run_of(*final(self), r@) == packet_step(
                Run::begin(old(self)@),
                data@,
                addr@,
                fresh@,
                now,
            ),
    {
        let mut out: Vec<Action> = Vec::new();
        assert(run_of(*self, out@) =~= Run::begin(self@));
        let host = addr.ip.text();
        if self.blacklist.contains(host.as_str(), Some(addr.port)) {
            return out;
        }
        let val = match decode_value(data) {
            Some(v) => v,
            None => {
                return out;
            },
        };
        match parse_message(&val) {
            Some((t, y, msg)) => {
                self.handle_message(
                    &mut out,
                    t.as_slice(),
                    y.as_str(),
                    msg,
                    addr,
                    fresh,
                    now,
                );
            },
            None => {},
        }
        out
    }

    // -----------------------------------------------------------------------
    // Requests of the owner
    // -----------------------------------------------------------------------

    /// Asks nodes for the peers of an info-hash.
    fn seek(
        &mut self,
        out: &mut Vec<Action>,
        ih: &[u8; 20],
        announce_port: Option<u16>,
        once: bool,
        now: u64,
    )
        requires
            old(self).held(),
        ensures
            final(self).held(),
            run_of(*final(self), final(out)@) == seek_steps(
                run_of(*old(self), old(out)@),
                all_by_distance(old(self)@, ih@),
                ih@,
                announce_port,
                once,
                now,
            ),
    {
        let nodes = self.routing.neighbors_by_target(ih, self.routing.len());
        let ghost s = node_list(nodes@);
        let ghost r0 = run_of(*self, out@);
        let mut i: usize = 0;
        assert(seek_steps(r0, s.take(0), ih@, announce_port, once, now) == r0);
        while i < nodes.len()
            invariant
                i <= nodes@.len(),
                s == node_list(nodes@),
                self.held(),
                run_of(*self, out@) == seek_steps(
                    r0,
                    s.take(i as int),
                    ih@,
                    announce_port,
                    once,
                    now,
                ),
            decreases nodes.len() - i,
        {
            proof {
                assert(s.take(i + 1).drop_last() =~= s.take(i as int));
                assert(s.take(i + 1).last() == s[i as int]);
            }
            let addr = &nodes[i].addr;
            let text = addr.text();
            if !once || self.trans.get_by_index("get_peers", text.as_str()).is_none() {
                self.ask_get_peers(out, addr, ih, announce_port, now);
            }
            i += 1;
        }
        assert(s.take(i as int) =~= s);
    }

    /// Asks all known nodes for the peers of an info-hash. The node must be running, and its owner
    /// must want to hear of the peers.
    pub fn get_peers(&mut self, info_hash: &str, now: u64) -> (r: Result<Vec<Action>, DhtError>)
        requires
            old(self).wf(),
        ensures
            final(self).wf(),
            match r {
                Ok(out) => {
                    &&& old(self)@.ready
                    &&& old(self)@.callbacks.on_get_peers_response
                    &&& info_hash_of(info_hash@) is Some
                    &&& run_of(*final(self), out@) == seek_steps(
                        Run::begin(old(self)@),
                        all_by_distance(old(self)@, info_hash_of(info_hash@)->0),
                        info_hash_of(info_hash@)->0,
                        None,
                        false,
                        now,
                    )
                },
                Err(e) => {
                    &&& final(self)@ == old(self)@
                    &&& e == (if !old(self)@.ready {
                        DhtError::NotReady
                    } else if !old(self)@.callbacks.on_get_peers_response {
                        DhtError::GetPeersResponseNotSet
                    } else {
                        DhtError::InvalidInfoHash
                    })
                    &&& !old(self)@.ready || !old(self)@.callbacks.on_get_peers_response
                        || info_hash_of(info_hash@) is None
                },
            },
    {
        if !self.ready {
            return Err(DhtError::NotReady);
        }
        if !self.callbacks.on_get_peers_response {
            return Err(DhtError::GetPeersResponseNotSet);
        }
        match decode_info_hash(info_hash) {
            Ok(ih) => {
                proof {
                    law_search_keeps(
                        Run::begin(self@),
                        all_by_distance(self@, ih@),
                        ih@,
                        None,
                        false,
                        now,
                    );
                }
                let mut out: Vec<Action> = Vec::new();
                assert(run_of(*self, out@) =~= Run::begin(self@));
                self.seek(&mut out, &ih, None, false, now);
                Ok(out)
            },
            Err(e) => Err(e),
        }
    }

    /// Takes in a request of the owner.
    pub fn handle_command(&mut self, cmd: DhtCommand, now: u64) -> (r: Vec<Action>)
        requires
            old(self).wf(),
        ensures
            final(self).wf(),
            run_of(*final(self), r@) == command_step(Run::begin(old(self)@), cmd@, now),
    {
        proof {
            law_command_keeps(Run::begin(self@), cmd@, now);
        }
        let mut out: Vec<Action> = Vec::new();
        assert(run_of(*self, out@) =~= Run::begin(self@));
        match cmd {
            DhtCommand::GetPeers { info_hash } => {
                if let Ok(ih) = decode_info_hash(info_hash.as_str()) {
                    self.seek(&mut out, &ih, None, true, now);
                }
            },
            DhtCommand::AnnouncePeer { info_hash, port } => {
                if let Ok(ih) = decode_info_hash(info_hash.as_str()) {
                    self.seek(&mut out, &ih, Some(port), true, now);
                }
            },
            DhtCommand::Shutdown => {},
        }
        out
    }

    // -----------------------------------------------------------------------
    // Joining
    // -----------------------------------------------------------------------

    fn join_host(&mut self, out: &mut Vec<Action>, host: &Contact, now: u64)
        requires
            old(self).held(),
        ensures
            final(self).held(),
            final(self)@.self_id == old(self)@.self_id,
            run_of(*final(self), final(out)@) == find_steps(
                run_of(*old(self), old(out)@),
                host@.map_values(|a: AddrModel| (a, old(self)@.self_id)),
                now,
            ),
    {
        let id = self.self_id;
        let ghost r0 = run_of(*self, out@);
        let ghost f = |a: AddrModel| (a, r0.d.self_id);
        let ghost s = host@.map_values(f);
        let mut i: usize = 0;
        assert(find_steps(r0, s.take(0), now) == r0);
        while i < host.resolved.len()
            invariant
                i <= host.resolved@.len(),
                host.resolved@.len() > 0 ==> s == addr_list(host.resolved@).map_values(f),
                f == (|a: AddrModel| (a, r0.d.self_id)),
                self.held(),
                self@.self_id == r0.d.self_id,
                id@ == r0.d.self_id,
                i <= s.len(),
                run_of(*self, out@) == find_steps(r0, s.take(i as int), now),
            decreases host.resolved.len() - i,
        {
            proof {
                assert(s.take(i + 1).drop_last() =~= s.take(i as int));
                assert(s.take(i + 1).last() == s[i as int]);
            }
            self.ask_find_node(out, &host.resolved[i], &id, now);
            i += 1;
        }
        if host.resolved.len() == 0 {
            match &host.written {
                Some(a) => {
                    proof {
                        assert(s.drop_last() =~= s.take(0));
                        assert(s.last() == (a@, r0.d.self_id));
                    }
                    self.ask_find_node(out, a, &id, now);
                },
                None => {
                    assert(s =~= s.take(0));
                },
            }
        } else {
            assert(s.take(i as int) =~= s);
        }
    }

    /// Joins the network: asks the nodes to begin with for the nodes next to this one.
    pub fn join(&mut self, hosts: &Vec<Contact>, now: u64) -> (r: Vec<Action>)
        requires
            old(self).wf(),
        ensures
            final(self).wf(),
            run_of(*final(self), r@) == join_steps(
                Run::begin(old(self)@),
                contact_list(hosts@),
                now,
            ),
    {
        proof {
            law_join_keeps(Run::begin(self@), contact_list(hosts@), now);
        }
        let mut out: Vec<Action> = Vec::new();
        let ghost s = contact_list(hosts@);
        let ghost r0 = Run::begin(self@);
        assert(run_of(*self, out@) =~= r0);
        let mut i: usize = 0;
        assert(join_steps(r0, s.take(0), now) == r0);
        while i < hosts.len()
            invariant
                i <= hosts@.len(),
                s == contact_list(hosts@),
                self.held(),
                self@.self_id == r0.d.self_id,
                run_of(*self, out@) == join_steps(r0, s.take(i as int), now),
            decreases hosts.len() - i,
        {
            proof {
                assert(s.take(i + 1).drop_last() =~= s.take(i as int));
                assert(s.take(i + 1).last() == s[i as int]);
                assert(s[i as int].map_values(|a: AddrModel| (a, r0.d.self_id))
                    =~= s[i as int].map_values(|a: AddrModel| (a, self@.self_id)));
            }
            self.join_host(&mut out, &hosts[i], now);
            i += 1;
        }
        assert(s.take(i as int) =~= s);
        out
    }

    // -----------------------------------------------------------------------
    // Upkeep
    // -----------------------------------------------------------------------

    fn resend(&self, out: &mut Vec<Action>, x: &Transaction, q: &str, a: Dict)
        ensures
            run_of(*self, final(out)@) == run_of(*self, old(out)@).sends(
                x.addr@,
                packet(query_msg(x.trans_id_bytes@, q@, a@)),
            ),
    {
        let buf = make_query(x.trans_id_bytes.as_slice(), q, a);
        act(out, Action::Send { addr: x.addr.clone(), buf });
    }

    fn retry(&mut self, out: &mut Vec<Action>, x: &Transaction, now: u64)
        requires
            old(self).held(),
        ensures
            final(self).held(),
            run_of(*final(self), final(out)@) == retry_step(run_of(*old(self), old(out)@), x@, now),
    {
        if same_text(x.qtype.as_str(), "get_peers") {
            proof {
                reveal_strlit("get_peers");
                reveal_strlit("find_node");
                assert("get_peers"@[0] != "find_node"@[0]);
            }
            if let Some(ih) = &x.info_hash {
                let a = self.get_peers_dict(ih);
                self.resend(out, x, "get_peers", a);
                self.trans.mark_retry(x.trans_id_bytes.as_slice(), now);
            }
        } else if same_text(x.qtype.as_str(), "find_node") {
            if let Some(target) = &x.target {
                let a = self.find_node_dict(target);
                self.resend(out, x, "find_node", a);
                self.trans.mark_retry(x.trans_id_bytes.as_slice(), now);
            }
        }
    }

    fn retry_all(&mut self, out: &mut Vec<Action>, due: &Vec<Transaction>, now: u64)
        requires
            old(self).held(),
        ensures
            final(self).held(),
            run_of(*final(self), final(out)@) == retry_steps(
                run_of(*old(self), old(out)@),
                tx_list(due@),
                now,
            ),
    {
        let ghost s = tx_list(due@);
        let ghost r0 = run_of(*self, out@);
        let mut i: usize = 0;
        assert(retry_steps(r0, s.take(0), now) == r0);
        while i < due.len()
            invariant
                i <= due@.len(),
                s == tx_list(due@),
                self.held(),
                run_of(*self, out@) == retry_steps(r0, s.take(i as int), now),
            decreases due.len() - i,
        {
            proof {
                assert(s.take(i + 1).drop_last() =~= s.take(i as int));
                assert(s.take(i + 1).last() == s[i as int]);
            }
            self.retry(out, &due[i], now);
            i += 1;
        }
        assert(s.take(i as int) =~= s);
    }

    fn give_up(&mut self, out: &Vec<Action>, t: &[u8], managed: bool, now: u64)
        requires
            old(self).held(),
        ensures
            final(self).held(),
            run_of(*final(self), out@) == give_up_step(run_of(*old(self), out@), t@, managed, now),
    {
        let found = match self.trans.get_by_trans_id(t) {
            Some(x) => Some((x.addr.clone(), same_text(x.qtype.as_str(), "ping"))),
            None => None,
        };
        if let Some((addr, ping)) = found {
            if managed && ping {
                let text = addr.text();
                self.routing.remove_by_addr(text.as_str());
            } else {
                let host = addr.ip.text();
                self.blacklist.insert(host.as_str(), Some(addr.port), now);
            }
        }
        self.trans.finish_by_trans_id(t);
    }

    fn give_up_all(
        &mut self,
        out: &Vec<Action>,
        over: &Vec<Vec<u8>>,
        Ghost(s): Ghost<Seq<TxModel>>,
        managed: bool,
        now: u64,
    )
        requires
            old(self).held(),
            over@.len() == s.len(),
            forall|i: int| 0 <= i < s.len() ==> (#[trigger] over@[i])@ == s[i].id,
        ensures
            final(self).held(),
            run_of(*final(self), out@) == give_up_steps(run_of(*old(self), out@), s, managed, now),
    {
        let ghost r0 = run_of(*self, out@);
        let mut i: usize = 0;
        assert(give_up_steps(r0, s.take(0), managed, now) == r0);
        while i < over.len()
            invariant
                i <= over@.len(),
                over@.len() == s.len(),
                forall|i: int| 0 <= i < s.len() ==> (#[trigger] over@[i])@ == s[i].id,
                self.held(),
                run_of(*self, out@) == give_up_steps(r0, s.take(i as int), managed, now),
            decreases over.len() - i,
        {
            proof {
                assert(s.take(i + 1).drop_last() =~= s.take(i as int));
                assert(s.take(i + 1).last() == s[i as int]);
            }
            self.give_up(out, over[i].as_slice(), managed, now);
            i += 1;
        }
        assert(s.take(i as int) =~= s);
    }

    fn find_all(&mut self, out: &mut Vec<Action>, tasks: &Vec<(SocketAddr, [u8; 20])>, now: u64)
        requires
            old(self).held(),
        ensures
            final(self).held(),
            run_of(*final(self), final(out)@) == find_steps(
                run_of(*old(self), old(out)@),
                task_list(tasks@),
                now,
            ),
    {
        let ghost s = task_list(tasks@);
        let ghost r0 = run_of(*self, out@);
        let mut i: usize = 0;
        assert(find_steps(r0, s.take(0), now) == r0);
        while i < tasks.len()
            invariant
                i <= tasks@.len(),
                s == task_list(tasks@),
                self.held(),
                run_of(*self, out@) == find_steps(r0, s.take(i as int), now),
            decreases tasks.len() - i,
        {
            proof {
                assert(s.take(i + 1).drop_last() =~= s.take(i as int));
                assert(s.take(i + 1).last() == s[i as int]);
            }
            self.ask_find_node(out, &tasks[i].0, &tasks[i].1, now);
            i += 1;
        }
        assert(s.take(i as int) =~= s);
    }

    fn drop_all(&mut self, out: &Vec<Action>, clear: &Vec<String>)
        requires
            old(self).held(),
        ensures
            final(self).held(),
            run_of(*final(self), out@) == drop_steps(run_of(*old(self), out@), text_list(clear@)),
    {
        let ghost s = text_list(clear@);
        let ghost r0 = run_of(*self, out@);
        let mut i: usize = 0;
        assert(drop_steps(r0, s.take(0)) == r0);
        while i < clear.len()
            invariant
                i <= clear@.len(),
                s == text_list(clear@),
                self.held(),
                run_of(*self, out@) == drop_steps(r0, s.take(i as int)),
            decreases clear.len() - i,
        {
            proof {
                assert(s.take(i + 1).drop_last() =~= s.take(i as int));
                assert(s.take(i + 1).last() == s[i as int]);
            }
            self.routing.remove_by_addr(clear[i].as_str());
            i += 1;
        }
        assert(s.take(i as int) =~= s);
    }

    fn refresh(&mut self, out: &mut Vec<Action>, noise: &[u8; 20], now: u64)
        requires
            old(self).held(),
        ensures
            final(self).held(),
            run_of(*final(self), final(out)@) == refresh_step(
                run_of(*old(self), old(out)@),
                noise@,
                now,
            ),
    {
        if self.trans.len() == 0 {
            let crawl = self.cfg.mode == Mode::Crawl;
            let (tasks, clear) = self.routing.fresh_plan(
                now,
                self.cfg.kbucket_expired_after,
                self.cfg.refresh_node_num,
                crawl,
                noise,
            );
            self.find_all(out, &tasks, now);
            self.drop_all(out, &clear);
        }
    }

    fn ping_expired(&mut self, out: &mut Vec<Action>, now: u64)
        requires
            old(self).held(),
        ensures
            final(self).held(),
            run_of(*final(self), final(out)@) == ping_steps(
                run_of(*old(self), old(out)@),
                old(self)@.routing.expired(old(self)@.cfg.node_expired_after, now),
                now,
            ),
    {
        let expired = self.routing.collect_expired_nodes(now, self.cfg.node_expired_after);
        let ghost s = self@.routing.expired(self@.cfg.node_expired_after, now);
        let ghost f = |e: Entry| e.1.addr;
        let ghost r0 = run_of(*self, out@);
        let mut i: usize = 0;
        assert(ping_steps(r0, s.take(0), now) == r0);
        assert(s.map_values(f).len() == s.len());
        while i < expired.len()
            invariant
                i <= expired@.len(),
                f == (|e: Entry| e.1.addr),
                addr_list(expired@) == s.map_values(f),
                expired@.len() == s.len(),
                self.held(),
                run_of(*self, out@) == ping_steps(r0, s.take(i as int), now),
            decreases expired.len() - i,
        {
            proof {
                assert(s.take(i + 1).drop_last() =~= s.take(i as int));
                assert(s.take(i + 1).last() == s[i as int]);
                assert(addr_list(expired@)[i as int] == s.map_values(f)[i as int]);
            }
            let text = expired[i].text();
            if self.trans.get_by_index("ping", text.as_str()).is_none() {
                self.ask_ping(out, &expired[i], now);
            }
            i += 1;
        }
        assert(s.take(i as int) =~= s);
    }

    fn tick(&mut self, managed: bool, noise: &[u8; 20], now: u64) -> (r: Vec<Action>)
        requires
            old(self).held(),
        ensures
            final(self).held(),
            run_of(*final(self), r@) == tick_step(Run::begin(old(self)@), managed, noise@, now),
    {
        let mut out: Vec<Action> = Vec::new();
        let ghost r0 = Run::begin(self@);
        assert(run_of(*self, out@) =~= r0);
        if self.routing.len() == 0 {
            act(&mut out, Action::Join);
            return out;
        }
        let (due, over) = self.trans.scan_timeouts(QUERY_TIMEOUT, self.cfg.try_times, now);
        let ghost gone = self@.trans.to_remove(QUERY_TIMEOUT, self@.cfg.try_times, now);
        self.retry_all(&mut out, &due, now);
        self.give_up_all(&out, &over, Ghost(gone), managed, now);
        self.refresh(&mut out, noise, now);
        if managed {
            self.ping_expired(&mut out, now);
        }
        self.tokens.clear_expired(now);
        self.blacklist.clear_expired(now);
        if managed {
            self.routing.prune(now, self.cfg.node_expired_after, self.cfg.max_nodes);
        }
        out
    }

    /// The upkeep of a node that runs by itself.
    pub fn run_tick(&mut self, noise: &[u8; 20], now: u64) -> (r: Vec<Action>)
        requires
            old(self).wf(),
        ensures
            final(self).wf(),
            run_of(*final(self), r@) == tick_step(Run::begin(old(self)@), false, noise@, now),
    {
        proof {
            law_tick_keeps(Run::begin(self@), false, noise@, now);
        }
        self.tick(false, noise, now)
    }

    /// The upkeep of a node that is run for its owner: it also looks after the nodes that it knows.
    pub fn start_tick(&mut self, noise: &[u8; 20], now: u64) -> (r: Vec<Action>)
        requires
            old(self).wf(),
        ensures
            final(self).wf(),
            run_of(*final(self), r@) == tick_step(Run::begin(old(self)@), true, noise@, now),
    {
        proof {
            law_tick_keeps(Run::begin(self@), true, noise@, now);
        }
        self.tick(true, noise, now)
    }
}

} // verus!
