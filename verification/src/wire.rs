//! The peer wire: framing, handshakes, and the requests for metadata that were taken up.

use vstd::prelude::*;
use vstd::string::*;
use vstd::slice::slice_subrange;
use std::sync::Arc;
use dashmap::DashMap;
use crate::bencode::{key, BModel, BVal, Dict};
use crate::blacklist::{BlackList, BlackModel, BLACKLIST_SECONDS};
use crate::codec::{enc, encode_dict};
use crate::hexcode::{hex_encode, hex_text};
use crate::keyed::{put, same_bytes};
use crate::krpc::Pairs;
use crate::text::{dec_text, push_dec};
use crate::timed::{fresh, is_fresh};
use crate::transaction::SECOND;
use crate::types::to_id;

verus! {

/// The most bytes of one piece of metadata.
pub const BLOCK: usize = 16384;

/// The most bytes of metadata that are asked for.
pub const MAX_METADATA_SIZE: usize = 16_384_000;

/// The most bytes of one message.
pub const MAX_MESSAGE: u32 = 1_048_576;

/// The kind of message that carries an extension.
pub const EXTENDED: u8 = 20;

/// The number of the extension that agrees on the others.
pub const HANDSHAKE: u8 = 0;

/// How long a request is kept from being made again, in nanoseconds.
pub const REQUEST_TTL: u64 = 600_000_000_000;

/// How often what has expired is dropped, in nanoseconds.
pub const SWEEP_PERIOD: u64 = 180_000_000_000;

// ---------------------------------------------------------------------------
// Requests
// ---------------------------------------------------------------------------

/// A peer is to be asked for the metadata of a torrent.
#[derive(Debug)]
pub struct Request {
    pub info_hash: [u8; 20],
    pub ip: String,
    pub port: u16,
}

/// What a request stands for.
pub struct RequestModel {
    pub info_hash: Seq<u8>,
    pub ip: Seq<char>,
    pub port: u16,
}

impl View for Request {
    type V = RequestModel;

    open spec fn view(&self) -> RequestModel {
        RequestModel { info_hash: self.info_hash@, ip: self.ip@, port: self.port }
    }
}

impl Clone for Request {
    fn clone(&self) -> (r: Self)
        ensures
            r@ == self@,
    {
        Request { info_hash: self.info_hash, ip: self.ip.clone(), port: self.port }
    }
}

/// The metadata that a peer sent.
#[derive(Debug)]
pub struct Response {
    pub request: Request,
    pub metadata_info: Arc<Vec<u8>>,
}

impl Clone for Response {
    fn clone(&self) -> (r: Self)
        ensures
            r.request@ == self.request@,
            r.metadata_info == self.metadata_info,
    {
        Response { request: self.request.clone(), metadata_info: self.metadata_info.clone() }
    }
}

/// The info-hash of the torrent whose metadata a peer sent, in hexadecimal.
pub fn infohash_text(r: &Response) -> (s: String)
    ensures
        s@ == hex_text(r.request.info_hash@),
{
    hex_encode(&r.request.info_hash)
}

/// A peer that was named by another.
#[derive(Debug)]
pub struct PeerEvent {
    pub info_hash: [u8; 20],
    pub ip: String,
    pub port: u16,
}

impl View for PeerEvent {
    type V = RequestModel;

    open spec fn view(&self) -> RequestModel {
        RequestModel { info_hash: self.info_hash@, ip: self.ip@, port: self.port }
    }
}

impl Clone for PeerEvent {
    fn clone(&self) -> (r: Self)
        ensures
            r@ == self@,
    {
        PeerEvent { info_hash: self.info_hash, ip: self.ip.clone(), port: self.port }
    }
}

/// What a list of peers stands for.
pub open spec fn event_list(s: Seq<PeerEvent>) -> Seq<RequestModel> {
    Seq::new(s.len(), |i: int| s[i]@)
}

/// The request that follows from a peer being named.
pub fn request_of(e: &PeerEvent) -> (r: Request)
    ensures
        r@ == e@,
{
    Request { info_hash: e.info_hash, ip: e.ip.clone(), port: e.port }
}

/// A request for the metadata of the torrent with an info-hash of twenty bytes.
pub fn make_request(info_hash: &[u8], ip: &str, port: u16) -> (r: Option<Request>)
    ensures
        match r {
            Some(q) => q@ == (RequestModel { info_hash: info_hash@, ip: ip@, port }),
            None => info_hash@.len() != 20,
        },
{
    if info_hash.len() != 20 {
        return None;
    }
    Some(Request { info_hash: to_id(info_hash), ip: ip.to_owned(), port })
}

// ---------------------------------------------------------------------------
// The queue
// ---------------------------------------------------------------------------

/// What a queue holds: for each request that was taken up, the time at which it was.
pub uninterp spec fn queue_table(m: DashMap<String, u64>) -> Map<Seq<char>, u64>;

/// `DashMap::new` makes a map without entries.
#[verifier::external_body]
fn queue_new() -> (m: DashMap<String, u64>)
    ensures
        queue_table(m).dom() == Set::<Seq<char>>::empty(),
{
    DashMap::new()
}

/// `DashMap::contains_key` tells whether a key has an entry.
#[verifier::external_body]
fn queue_has(m: &DashMap<String, u64>, k: &str) -> (r: bool)
    ensures
        r == queue_table(*m).dom().contains(k@),
{
    m.contains_key(k)
}

/// `DashMap::insert` binds a key to a value, in place of what it was bound to.
#[verifier::external_body]
fn queue_put(m: &mut DashMap<String, u64>, k: String, now: u64)
    ensures
        queue_table(*final(m)) == queue_table(*old(m)).insert(k@, now),
{
    m.insert(k, now);
}

/// `DashMap::retain` keeps those entries of which the closure says so, here those that are younger
/// than `age`.
#[verifier::external_body]
fn queue_retain(m: &mut DashMap<String, u64>, age: u64, now: u64)
    ensures
        queue_table(*final(m)) == younger(queue_table(*old(m)), age, now),
{
    m.retain(|_, at| is_fresh(*at, age, now));
}

/// The entries that are younger than `age` at `now`.
pub open spec fn younger(m: Map<Seq<char>, u64>, age: u64, now: u64) -> Map<Seq<char>, u64> {
    m.restrict(Set::new(|k: Seq<char>| fresh(m[k], age, now)))
}

/// The key of a request: the info-hash in hexadecimal, the host and the port.
pub open spec fn request_key(r: RequestModel) -> Seq<char> {
    hex_text(r.info_hash) + seq![':'] + r.ip + seq![':'] + dec_text(r.port as nat)
}

/// The key of a request.
fn key_of(r: &Request) -> (k: String)
    ensures
        k@ == request_key(r@),
{
    let mut k = hex_encode(&r.info_hash);
    k.push(':');
    k.append(r.ip.as_str());
    k.push(':');
    push_dec(&mut k, r.port as u64);
    assert(k@ =~= request_key(r@));
    k
}

/// What the downloader keeps count of.
#[verifier::ext_equal]
pub struct WireModel {
    pub blacklist: BlackModel,
    pub queue: Map<Seq<char>, u64>,
    pub workers: nat,
}

impl WireModel {
    /// A request may be carried out: its peer is not blacklisted, and it was not taken up already.
    pub open spec fn admits(self, r: RequestModel) -> bool {
        !self.blacklist.has(r.ip, Some(r.port)) && !self.queue.dom().contains(request_key(r))
    }

    /// A request is offered; one that may be carried out is taken up, and from then on in the queue
    /// until it expires, whatever comes of it.
    pub open spec fn offered(self, r: RequestModel, now: u64) -> WireModel {
        if self.admits(r) {
            WireModel { queue: self.queue.insert(request_key(r), now), ..self }
        } else {
            self
        }
    }

    /// The peer of a request could not be reached.
    pub open spec fn unreachable(self, r: RequestModel, now: u64) -> WireModel {
        WireModel { blacklist: self.blacklist.inserted(r.ip, Some(r.port), now), ..self }
    }

    /// What has expired is dropped.
    pub open spec fn cleaned(self, now: u64) -> WireModel {
        WireModel {
            blacklist: self.blacklist.cleared(now),
            queue: younger(self.queue, REQUEST_TTL, now),
            ..self
        }
    }
}

/// A request that was taken up is not taken up again before it has expired, and is afterwards,
/// unless its peer is blacklisted by then.
pub proof fn law_request_is_made_once(w: WireModel, r: RequestModel, now: u64, later: u64)
    requires
        w.admits(r),
    ensures
        !w.offered(r, now).admits(r),
        w.offered(r, now).cleaned(later).admits(r) == !fresh(now, REQUEST_TTL, later),
{
    let c = w.offered(r, now).cleaned(later);
    assert(c.blacklist.has(r.ip, Some(r.port)) ==> w.blacklist.has(r.ip, Some(r.port)));
}

/// As long as it has not expired, a request that was taken up stays in the queue with its time,
/// whatever is offered, cannot be reached or expires meanwhile.
pub proof fn law_request_stays_until_expired(
    w: WireModel,
    r: RequestModel,
    other: RequestModel,
    now: u64,
)
    requires
        w.queue.dom().contains(request_key(r)),
        fresh(w.queue[request_key(r)], REQUEST_TTL, now),
    ensures
        ({
            let k = request_key(r);
            &&& w.offered(other, now).queue.dom().contains(k)
            &&& w.offered(other, now).queue[k] == w.queue[k]
            &&& w.unreachable(other, now).queue == w.queue
            &&& w.cleaned(now).queue.dom().contains(k)
            &&& w.cleaned(now).queue[k] == w.queue[k]
        }),
{
}

/// A request that was taken up is taken up again once it has expired and what has expired was
/// dropped: at the latest when its time to live and one period of dropping are over. Only a
/// blacklisted peer is not asked again.
pub proof fn law_request_lives_no_longer(
    w: WireModel,
    r: RequestModel,
    now: u64,
    swept: u64,
    later: u64,
)
    requires
        w.admits(r),
        now + REQUEST_TTL + SWEEP_PERIOD <= later,
        later <= swept + SWEEP_PERIOD,
        swept <= later,
    ensures
        w.offered(r, now).cleaned(swept).admits(r),
        w.offered(r, now).cleaned(swept).offered(r, later).queue.dom().contains(request_key(r)),
        w.offered(r, now).cleaned(swept).offered(r, later).queue[request_key(r)] == later,
{
    law_request_is_made_once(w, r, now, swept);
}

/// A peer that could not be reached is not asked again while it is blacklisted.
pub proof fn law_unreachable_peer_is_not_asked(w: WireModel, r: RequestModel, now: u64, later: u64)
    requires
        w.blacklist.listed.dom().len() < w.blacklist.max_size,
        fresh(now, (BLACKLIST_SECONDS * SECOND) as u64, later),
    ensures
        !w.unreachable(r, now).admits(r),
        !w.unreachable(r, now).cleaned(later).admits(r),
{
    crate::blacklist::law_listed_until_expired(w.blacklist, r.ip, Some(r.port), now, later);
}

proof fn lemma_port_text(n: nat)
    ensures
        forall|i: int| 0 <= i < dec_text(n).len() ==> #[trigger] dec_text(n)[i] != ':',
{
    crate::text::lemma_digits_range(n);
}

proof fn lemma_key_parts(a: RequestModel, b: RequestModel)
    requires
        a.info_hash.len() == b.info_hash.len(),
        request_key(a) == request_key(b),
    ensures
        dec_text(a.port as nat).len() >= dec_text(b.port as nat).len(),
{
    let ka = request_key(a);
    let da = dec_text(a.port as nat);
    let db = dec_text(b.port as nat);
    lemma_port_text(b.port as nat);
    if da.len() < db.len() {
        let i = ka.len() - da.len() - 1;
        assert(ka[i] == ':');
        assert(request_key(b)[i] == db[i - (ka.len() - db.len())]);
    }
}

/// Different requests have different keys.
pub proof fn law_request_keys_differ(a: RequestModel, b: RequestModel)
    requires
        a.info_hash.len() == b.info_hash.len(),
        request_key(a) == request_key(b),
    ensures
        a == b,
{
    let ka = request_key(a);
    let kb = request_key(b);
    let n = 2 * a.info_hash.len() as int;
    let da = dec_text(a.port as nat);
    let db = dec_text(b.port as nat);
    lemma_key_parts(a, b);
    lemma_key_parts(b, a);
    assert(ka.take(n) =~= hex_text(a.info_hash));
    assert(kb.take(n) =~= hex_text(b.info_hash));
    crate::hexcode::law_unhex_hex(a.info_hash);
    crate::hexcode::law_unhex_hex(b.info_hash);
    let m = ka.len() - da.len();
    assert(ka.skip(m) =~= da);
    assert(kb.skip(m) =~= db);
    crate::text::law_dec_text_injective(a.port as nat, b.port as nat);
    assert(ka.subrange(n + 1, m - 1) =~= a.ip);
    assert(kb.subrange(n + 1, m - 1) =~= b.ip);
}

/// The requests that were taken up, and the peers that are not asked.
pub struct Wire {
    blacklist: BlackList,
    queue: DashMap<String, u64>,
    workers: usize,
}

impl View for Wire {
    type V = WireModel;

    closed spec fn view(&self) -> WireModel {
        WireModel {
            blacklist: self.blacklist@,
            queue: queue_table(self.queue),
            workers: self.workers as nat,
        }
    }
}

impl Wire {
    /// The tables are held together.
    pub closed spec fn wf(&self) -> bool {
        self.blacklist.wf()
    }

    /// A downloader with no requests, that carries out `worker_queue_size` requests at a
    /// time, and at least one.
    pub fn new(blacklist_size: usize, _request_queue_size: usize, worker_queue_size: usize) -> (r:
        Self)
        ensures
            r.wf(),
            r@.blacklist.listed == Map::<Seq<char>, ((), u64)>::empty(),
            r@.blacklist.max_size == blacklist_size,
            r@.queue.dom() == Set::<Seq<char>>::empty(),
            r@.workers == if worker_queue_size == 0 {
                1
            } else {
                worker_queue_size as nat
            },
    {
        Wire {
            blacklist: BlackList::new(blacklist_size),
            queue: queue_new(),
            workers: if worker_queue_size == 0 {
                1
            } else {
                worker_queue_size
            },
        }
    }

    /// How many requests are carried out at a time.
    pub fn workers(&self) -> (r: usize)
        ensures
            r == self@.workers,
    {
        self.workers
    }

    /// Offers a request, and tells whether it is to be carried out.
    pub fn offer(&mut self, r: &Request, now: u64) -> (admitted: bool)
        requires
            old(self).wf(),
        ensures
            final(self).wf(),
            admitted == old(self)@.admits(r@),
            final(self)@ == old(self)@.offered(r@, now),
    {
        let k = key_of(r);
        if self.blacklist.contains(r.ip.as_str(), Some(r.port)) || queue_has(
            &self.queue,
            k.as_str(),
        ) {
            return false;
        }
        queue_put(&mut self.queue, k, now);
        true
    }

    /// Notes that the peer of a request could not be reached.
    pub fn connect_failed(&mut self, r: &Request, now: u64)
        requires
            old(self).wf(),
        ensures
            final(self).wf(),
            final(self)@ == old(self)@.unreachable(r@, now),
    {
        self.blacklist.insert(r.ip.as_str(), Some(r.port), now);
    }

    /// Drops what has expired.
    pub fn clear_expired(&mut self, now: u64)
        requires
            old(self).wf(),
        ensures
            final(self).wf(),
            final(self)@ == old(self)@.cleaned(now),
    {
        self.blacklist.clear_expired(now);
        queue_retain(&mut self.queue, REQUEST_TTL, now);
    }
}

// ---------------------------------------------------------------------------
// Framing
// ---------------------------------------------------------------------------

/// Four bytes, most significant first.
pub open spec fn be32(n: nat) -> Seq<u8> {
    seq![
        (n / 0x100_0000 % 0x100) as u8,
        (n / 0x1_0000 % 0x100) as u8,
        (n / 0x100 % 0x100) as u8,
        (n % 0x100) as u8,
    ]
}

/// The number that four bytes write, most significant first.
pub open spec fn be32_value(b: Seq<u8>) -> nat {
    (b[0] * 0x100_0000 + b[1] * 0x1_0000 + b[2] * 0x100 + b[3]) as nat
}

/// A message on the wire: its length and its bytes.
pub open spec fn framed(d: Seq<u8>) -> Seq<u8> {
    be32(d.len()) + d
}

/// What the length of a message says.
#[derive(Clone, Copy, Debug, PartialEq, Eq, Structural)]
pub enum FrameLen {
    /// There is no message.
    KeepAlive,
    /// So many bytes follow.
    Payload(usize),
    /// The message is longer than any that is read.
    TooLong,
}

/// What the length `n` of a message says.
pub open spec fn frame_len(n: nat) -> FrameLen {
    if n == 0 {
        FrameLen::KeepAlive
    } else if n > MAX_MESSAGE {
        FrameLen::TooLong
    } else {
        FrameLen::Payload(n as usize)
    }
}

proof fn lemma_be32(n: nat)
    requires
        n <= u32::MAX,
    ensures
        be32_value(be32(n)) == n,
{
    let x = n as u32;
    assert(x / 0x100_0000 % 0x100 * 0x100_0000 + x / 0x1_0000 % 0x100 * 0x1_0000 + x / 0x100 % 0x100
        * 0x100 + x % 0x100 == x) by (bit_vector);
}

/// A message of a length that can be written is framed so that its length is read back.
pub proof fn law_frame_length_read_back(d: Seq<u8>)
    requires
        d.len() <= u32::MAX,
    ensures
        framed(d).len() == d.len() + 4,
        be32_value(framed(d).take(4)) == d.len(),
        framed(d).skip(4) == d,
{
    lemma_be32(d.len());
    assert(framed(d).take(4) =~= be32(d.len()));
    assert(framed(d).skip(4) =~= d);
}

/// Frames a message.
pub fn frame(data: &[u8]) -> (r: Vec<u8>)
    requires
        data@.len() <= u32::MAX,
    ensures
        r@ == framed(data@),
{
    let n = data.len();
    let mut out: Vec<u8> = Vec::new();
    out.push((n / 0x100_0000 % 0x100) as u8);
    out.push((n / 0x1_0000 % 0x100) as u8);
    out.push((n / 0x100 % 0x100) as u8);
    out.push((n % 0x100) as u8);
    assert(out@ =~= be32(n as nat));
    out.extend_from_slice(data);
    assert(out@ =~= framed(data@));
    out
}

/// Reads the length of a message.
pub fn read_length(b: &[u8; 4]) -> (r: FrameLen)
    ensures
        r == frame_len(be32_value(b@)),
{
    let high: u32 = b[0] as u32 * 0x100 + b[1] as u32;
    let low: u32 = b[2] as u32 * 0x100 + b[3] as u32;
    let n: u32 = high * 0x1_0000 + low;
    if n == 0 {
        FrameLen::KeepAlive
    } else if n > MAX_MESSAGE {
        FrameLen::TooLong
    } else {
        FrameLen::Payload(n as usize)
    }
}

// ---------------------------------------------------------------------------
// Handshakes
// ---------------------------------------------------------------------------

/// The name of the protocol.
pub open spec fn protocol_name() -> Seq<u8> {
    key("BitTorrent protocol"@)
}

/// The bits with which a peer says what it can do: extensions and the DHT.
pub open spec fn reserved() -> Seq<u8> {
    seq![0u8, 0, 0, 0, 0, 16, 0, 1]
}

/// The handshake: the name of the protocol with its length in front, what the peer can do, the
/// torrent and the identifier of the peer.
pub open spec fn handshake_bytes(ih: Seq<u8>, peer_id: Seq<u8>) -> Seq<u8> {
    seq![19u8] + protocol_name() + reserved() + ih + peer_id
}

/// A handshake is good: it names the protocol, and the peer takes extensions.
pub open spec fn good_handshake(b: Seq<u8>) -> bool {
    b[0] == 19 && b.subrange(1, 20) == protocol_name() && b[25] as int / 16 % 2 == 1
}

proof fn lemma_protocol_name()
    ensures
        protocol_name().len() == 19,
{
    reveal_strlit("BitTorrent protocol");
    vstd::utf8::is_ascii_chars_encode_utf8("BitTorrent protocol"@);
}

/// The handshake that is sent is a good one, of sixty-eight bytes.
pub proof fn law_own_handshake_is_good(ih: Seq<u8>, peer_id: Seq<u8>)
    requires
        ih.len() == 20,
        peer_id.len() == 20,
    ensures
        handshake_bytes(ih, peer_id).len() == 68,
        good_handshake(handshake_bytes(ih, peer_id)),
        handshake_bytes(ih, peer_id).subrange(28, 48) == ih,
        handshake_bytes(ih, peer_id).subrange(48, 68) == peer_id,
{
    lemma_protocol_name();
    let b = handshake_bytes(ih, peer_id);
    assert(b.subrange(1, 20) =~= protocol_name());
    assert(b.subrange(28, 48) =~= ih);
    assert(b.subrange(48, 68) =~= peer_id);
    assert(b[25] == 16);
}

/// The handshake for a torrent.
pub fn make_handshake(info_hash: &[u8; 20], peer_id: &[u8; 20]) -> (r: Vec<u8>)
    ensures
        r@ == handshake_bytes(info_hash@, peer_id@),
        r@.len() == 68,
{
    proof {
        law_own_handshake_is_good(info_hash@, peer_id@);
    }
    let reserved: [u8; 8] = [0, 0, 0, 0, 0, 16, 0, 1];
    let mut out: Vec<u8> = Vec::new();
    out.push(19);
    out.extend_from_slice("BitTorrent protocol".as_bytes());
    out.extend_from_slice(&reserved);
    out.extend_from_slice(info_hash);
    out.extend_from_slice(peer_id);
    assert(reserved@ =~= crate::wire::reserved());
    assert(out@ =~= handshake_bytes(info_hash@, peer_id@));
    out
}

/// Whether the handshake of a peer is good.
pub fn accept_handshake(resp: &[u8]) -> (r: bool)
    requires
        resp@.len() == 68,
    ensures
        r == good_handshake(resp@),
{
    resp[0] == 19 && same_bytes(slice_subrange(resp, 1, 20), "BitTorrent protocol".as_bytes())
        && resp[25] / 16 % 2 == 1
}

/// A dictionary with an integer under a key that is written as text.
pub open spec fn with_int(p: Pairs, k: Seq<char>, n: i64) -> Pairs {
    put(p, key(k), BModel::Int(n))
}

/// A message of an extension.
pub open spec fn extended(id: u8, p: Pairs) -> Seq<u8> {
    seq![EXTENDED, id] + enc(BModel::Dict(p))
}

/// The extensions that are offered.
pub open spec fn offers() -> Pairs {
    with_int(with_int(Seq::empty(), "ut_metadata"@, 1), "ut_pex"@, 1)
}

/// The message that agrees on extensions.
pub open spec fn hello() -> Seq<u8> {
    extended(HANDSHAKE, put(Seq::empty(), key("m"@), BModel::Dict(offers())))
}

/// A message of an extension.
pub fn make_extended(id: u8, d: Dict) -> (r: Vec<u8>)
    ensures
        r@ == extended(id, d@),
{
    let mut out: Vec<u8> = Vec::new();
    out.push(EXTENDED);
    out.push(id);
    let body = encode_dict(d);
    out.extend_from_slice(body.as_slice());
    assert(out@ =~= seq![EXTENDED, id] + body@);
    out
}

/// The message that agrees on extensions.
pub fn make_hello() -> (r: Vec<u8>)
    ensures
        r@ == hello(),
{
    let m = Dict::new().with("ut_metadata", BVal::Int(1)).with("ut_pex", BVal::Int(1));
    make_extended(HANDSHAKE, Dict::new().with("m", BVal::Dict(m)))
}

/// A framed message is its length in four bytes, the highest first, and its bytes.
pub proof fn law_frame_is_laid_out(d: Seq<u8>)
    requires
        d.len() <= u32::MAX,
    ensures
        framed(d).len() == d.len() + 4,
        framed(d)[0] * 16_777_216 + framed(d)[1] * 65_536 + framed(d)[2] * 256 + framed(d)[3]
            == d.len(),
        forall|i: int| 0 <= i < d.len() ==> #[trigger] framed(d)[i + 4] == d[i],
{
    law_frame_length_read_back(d);
    let b = framed(d).take(4);
    assert(b[0] == framed(d)[0] && b[1] == framed(d)[1] && b[2] == framed(d)[2] && b[3] == framed(
        d,
    )[3]);
    assert forall|i: int| 0 <= i < d.len() implies #[trigger] framed(d)[i + 4] == d[i] by {
        assert(framed(d).skip(4)[i] == d[i]);
    }
}

/// What is said of the length of a message: nothing follows, so many bytes follow, or too many.
pub proof fn law_length_is_understood(b: Seq<u8>)
    requires
        b.len() == 4,
    ensures
        ({
            let n = b[0] * 16_777_216 + b[1] * 65_536 + b[2] * 256 + b[3];
            &&& n == 0 ==> frame_len(be32_value(b)) is KeepAlive
            &&& 0 < n <= 1_048_576 ==> frame_len(be32_value(b)) == FrameLen::Payload(n as usize)
            &&& n > 1_048_576 ==> frame_len(be32_value(b)) is TooLong
        }),
{
}

/// Whoever names the protocol and takes extensions is accepted, whatever else they say, and nobody
/// else is.
pub proof fn law_handshake_needs_name_and_extensions(b: Seq<u8>)
    requires
        b.len() == 68,
    ensures
        good_handshake(b) == (b[0] == 19 && (forall|i: int|
            0 <= i < 19 ==> #[trigger] b[i + 1] == key("BitTorrent protocol"@)[i]) && b[25] & 16u8
            == 16u8),
{
    lemma_protocol_name();
    let name = key("BitTorrent protocol"@);
    let x = b[25];
    assert((x / 16u8 % 2u8 == 1u8) == (x & 16u8 == 16u8)) by (bit_vector);
    if forall|i: int| 0 <= i < 19 ==> #[trigger] b[i + 1] == name[i] {
        assert forall|i: int| 0 <= i < 19 implies b.subrange(1, 20)[i] == name[i] by {
            assert(b[i + 1] == name[i]);
        }
        assert(b.subrange(1, 20) =~= name);
    }
    if b.subrange(1, 20) == name {
        assert forall|i: int| 0 <= i < 19 implies #[trigger] b[i + 1] == name[i] by {
            assert(b.subrange(1, 20)[i] == name[i]);
        }
    }
}

/// The handshake that is sent says: the protocol, that extensions are taken, the torrent and who
/// sends it.
pub proof fn law_handshake_is_laid_out(ih: Seq<u8>, peer_id: Seq<u8>)
    requires
        ih.len() == 20,
        peer_id.len() == 20,
    ensures
        ({
            let b = handshake_bytes(ih, peer_id);
            &&& b.len() == 68
            &&& b[0] == 19
            &&& b[25] & 16u8 == 16u8
            &&& forall|i: int|
                0 <= i < 19 ==> #[trigger] b[i + 1] == key("BitTorrent protocol"@)[i]
            &&& forall|i: int| 0 <= i < 20 ==> #[trigger] b[i + 28] == ih[i]
            &&& forall|i: int| 0 <= i < 20 ==> #[trigger] b[i + 48] == peer_id[i]
        }),
{
    law_own_handshake_is_good(ih, peer_id);
    let b = handshake_bytes(ih, peer_id);
    law_handshake_needs_name_and_extensions(b);
    assert forall|i: int| 0 <= i < 20 implies #[trigger] b[i + 28] == ih[i] by {
        assert(b.subrange(28, 48)[i] == ih[i]);
    }
    assert forall|i: int| 0 <= i < 20 implies #[trigger] b[i + 48] == peer_id[i] by {
        assert(b.subrange(48, 68)[i] == peer_id[i]);
    }
}

/// What is offered to peers: both extensions, under numbers of our own.
pub proof fn law_hello_names_both_extensions()
    ensures
        hello().len() > 2,
        hello()[0] == 20,
        hello()[1] == 0,
        match crate::codec::leading_dict(hello().skip(2)) {
            Some((d, e)) => {
                &&& e == hello().len() - 2
                &&& match crate::bencode::dict_at(d, "m"@) {
                    Some(m) => {
                        &&& crate::bencode::int_at(m, "ut_metadata"@) == Some(1i64)
                        &&& crate::bencode::int_at(m, "ut_pex"@) == Some(1i64)
                    },
                    None => false,
                }
            },
            None => false,
        },
{
    let depth = (crate::codec::MAX_DEPTH - 2) as nat;
    let empty: Pairs = Seq::empty();
    let one = BModel::Int(1);
    let p = with_int(empty, "ut_metadata"@, 1);
    let m = offers();
    let d = put(empty, key("m"@), BModel::Dict(m));
    reveal_strlit("ut_metadata");
    reveal_strlit("ut_pex");
    crate::krpc::lemma_keys_differ("ut_metadata"@, "ut_pex"@);
    crate::codec::lemma_put_encodable(empty, key("ut_metadata"@), one, depth);
    crate::codec::lemma_put_encodable(p, key("ut_pex"@), one, depth);
    crate::codec::lemma_put_encodable(empty, key("m"@), BModel::Dict(m), depth + 1);
    crate::keyed::law_put_lookup(empty, key("ut_metadata"@), one, key("ut_metadata"@));
    crate::keyed::law_put_lookup(p, key("ut_pex"@), one, key("ut_metadata"@));
    crate::keyed::law_put_lookup(empty, key("m"@), BModel::Dict(m), key("m"@));
    let none: Seq<u8> = Seq::empty();
    let wire = enc(BModel::Dict(d));
    crate::codec::law_leading_dict(d, none);
    assert(wire + none =~= wire);
    assert(hello().skip(2) =~= wire);
}

} // verus!
