//! The download of metadata from one peer: it is asked for piece by piece, put together and
//! checked.

use vstd::prelude::*;
use vstd::string::*;
use vstd::slice::{slice_subrange, slice_to_vec};
use std::sync::Arc;
use sha1::{Digest, Sha1};
use crate::bencode::{bytes_at, dict_at, int_at, key, BModel, BVal, Dict};
use crate::codec::{
    decode_dict, encodable, law_leading_dict, leading_dict, lemma_put_encodable, MAX_DEPTH,
};
use crate::keyed::{law_put_lookup, lookup, same_bytes};
use crate::krpc::{lemma_keys_differ, with_bytes, Pairs};
use crate::types::{ip_text, AddrModel, IpModel};
use crate::util::{
    compact_addrs, compact_peers, decode_compact_peers, law_compact_peers_read_back, peers_model,
};
use crate::wire::{
    event_list, extended, make_extended, with_int, PeerEvent, Request, RequestModel, Response,
    BLOCK, EXTENDED, HANDSHAKE, MAX_METADATA_SIZE,
};

verus! {

/// The number of a message that asks for a piece.
pub const REQUEST: i64 = 0;

/// The number of a message that brings a piece.
pub const DATA: i64 = 1;

/// The SHA-1 digest of bytes.
pub uninterp spec fn sha1_of(b: Seq<u8>) -> Seq<u8>;

/// `Sha1` of the `sha1` crate, fed with all bytes at once, computes their SHA-1 digest.
#[verifier::external_body]
fn sha1_digest(b: &[u8]) -> (r: [u8; 20])
    ensures
        r@ == sha1_of(b@),
{
    let mut hasher = Sha1::new();
    hasher.update(b);
    hasher.finalize().into()
}

// ---------------------------------------------------------------------------
// The exchange
// ---------------------------------------------------------------------------

/// How far a download has come: the request, the pieces (none before the peer has told the size; an
/// empty one has not come in yet), the size, and the number under which the peer names other peers.
#[verifier::ext_equal]
pub struct DownloadModel {
    pub request: RequestModel,
    pub pieces: Option<Seq<Seq<u8>>>,
    pub size: nat,
    pub pex: Option<i64>,
}

/// What follows from a message.
pub enum ProgressModel {
    /// Messages are sent, peers were named, and the download goes on.
    Continue { send: Seq<Seq<u8>>, peers: Seq<RequestModel> },
    /// All pieces are there.
    Whole(Seq<u8>),
    /// The download is given up.
    Fail,
}

/// What a message leads to.
#[verifier::ext_equal]
pub struct Outcome {
    pub next: DownloadModel,
    pub progress: ProgressModel,
}

/// Nothing follows from a message.
pub open spec fn idle(m: DownloadModel) -> Outcome {
    Outcome {
        next: m,
        progress: ProgressModel::Continue { send: Seq::empty(), peers: Seq::empty() },
    }
}

/// The download is given up.
pub open spec fn failed(m: DownloadModel) -> Outcome {
    Outcome { next: m, progress: ProgressModel::Fail }
}

/// How many pieces metadata of a size has.
pub open spec fn piece_count(size: nat) -> nat {
    (size + BLOCK as nat - 1) as nat / BLOCK as nat
}

/// The number that the peer gives to an extension.
pub open spec fn extension_id(d: Pairs, name: Seq<char>) -> Option<i64> {
    match dict_at(d, "m"@) {
        Some(m) => int_at(m, name),
        None => None,
    }
}

/// The lowest eight bits of a number.
pub open spec fn low_byte(n: i64) -> u8 {
    ((n as int) % 256) as u8
}

/// The entries of a message about a piece.
pub open spec fn piece_head(kind: i64, piece: int) -> Pairs {
    with_int(with_int(Seq::empty(), "msg_type"@, kind), "piece"@, piece as i64)
}

/// The message that asks for a piece.
pub open spec fn piece_request(id: i64, piece: int) -> Seq<u8> {
    extended(low_byte(id), piece_head(REQUEST, piece))
}

/// The message that brings a piece.
pub open spec fn piece_message(id: u8, piece: int, data: Seq<u8>) -> Seq<u8> {
    extended(id, piece_head(DATA, piece)) + data
}

/// The peer tells the size of the metadata and the numbers of its extensions. It is asked for all
/// pieces.
pub open spec fn hello_step(m: DownloadModel, d: Pairs) -> Outcome {
    match int_at(d, "metadata_size"@) {
        Some(n) => if n < 0 || n > MAX_METADATA_SIZE {
            failed(m)
        } else {
            let count = piece_count(n as nat);
            Outcome {
                next: DownloadModel {
                    pieces: Some(Seq::new(count, |i: int| Seq::empty())),
                    size: n as nat,
                    pex: extension_id(d, "ut_pex"@),
                    ..m
                },
                progress: ProgressModel::Continue {
                    send: match extension_id(d, "ut_metadata"@) {
                        Some(id) => Seq::new(count, |i: int| piece_request(id, i)),
                        None => Seq::empty(),
                    },
                    peers: Seq::empty(),
                },
            }
        },
        None => failed(m),
    }
}

/// All pieces are there.
pub open spec fn complete(pieces: Seq<Seq<u8>>) -> bool {
    forall|i: int| 0 <= i < pieces.len() ==> (#[trigger] pieces[i]).len() > 0
}

/// The pieces put together.
pub open spec fn joined(pieces: Seq<Seq<u8>>) -> Seq<u8>
    decreases pieces.len(),
{
    if pieces.len() == 0 {
        Seq::empty()
    } else {
        joined(pieces.drop_last()) + pieces.last()
    }
}

/// A piece has the length that its place asks for: a block, but for a last one that is left over
/// from whole blocks.
pub open spec fn right_length(len: nat, piece: int, count: nat, size: nat) -> bool {
    if piece == count - 1 && size % BLOCK as nat != 0 {
        len == size % BLOCK as nat
    } else {
        len == BLOCK
    }
}

/// The pieces with one that came in; what is no piece of the metadata is left out.
pub open spec fn filled(pieces: Seq<Seq<u8>>, piece: int, data: Seq<u8>) -> Seq<Seq<u8>> {
    if 0 <= piece < pieces.len() {
        pieces.update(piece, data)
    } else {
        pieces
    }
}

/// A piece comes in.
pub open spec fn data_step(
    m: DownloadModel,
    pieces: Seq<Seq<u8>>,
    d: Pairs,
    data: Seq<u8>,
) -> Outcome {
    match int_at(d, "piece"@) {
        Some(n) => if pieces.len() == 0 || !right_length(
            data.len(),
            n as int,
            pieces.len(),
            m.size,
        ) {
            failed(m)
        } else {
            let now = filled(pieces, n as int, data);
            Outcome {
                next: DownloadModel { pieces: Some(now), ..m },
                progress: if complete(now) {
                    ProgressModel::Whole(joined(now))
                } else {
                    ProgressModel::Continue { send: Seq::empty(), peers: Seq::empty() }
                },
            }
        },
        None => failed(m),
    }
}

/// The peers that a message names.
pub open spec fn named_peers(b: Seq<u8>, ih: Seq<u8>) -> Seq<RequestModel> {
    compact_peers(b).map_values(
        |p: (IpModel, u16)| RequestModel { info_hash: ih, ip: ip_text(p.0), port: p.1 },
    )
}

/// The peer names other peers.
pub open spec fn pex_step(m: DownloadModel, id: u8, d: Pairs) -> Outcome {
    match (m.pex, bytes_at(d, "added"@)) {
        (Some(pex), Some(added)) => if pex == id as i64 {
            Outcome {
                next: m,
                progress: ProgressModel::Continue {
                    send: Seq::empty(),
                    peers: named_peers(added, m.request.info_hash),
                },
            }
        } else {
            idle(m)
        },
        _ => idle(m),
    }
}

/// A message. Those that carry no extension are passed over; what is not formed as it should be
/// ends the download.
pub open spec fn message_step(m: DownloadModel, payload: Seq<u8>) -> Outcome {
    if payload.len() == 0 || payload[0] != EXTENDED {
        idle(m)
    } else if payload.len() < 2 {
        failed(m)
    } else {
        let id = payload[1];
        let rest = payload.skip(2);
        match (leading_dict(rest), m.pieces) {
            (Some((d, e)), None) => if id == HANDSHAKE {
                hello_step(m, d)
            } else {
                failed(m)
            },
            (Some((d, e)), Some(pieces)) => if id == HANDSHAKE {
                failed(m)
            } else if int_at(d, "msg_type"@) == Some(DATA) {
                data_step(m, pieces, d, rest.skip(e))
            } else {
                pex_step(m, id, d)
            },
            _ => failed(m),
        }
    }
}

// ---------------------------------------------------------------------------
// The download
// ---------------------------------------------------------------------------

/// The download of the metadata of one request.
pub struct Download {
    request: Request,
    pieces: Option<Vec<Vec<u8>>>,
    size: usize,
    pex: Option<i64>,
}

/// What a list of byte strings stands for.
pub open spec fn bytes_list(s: Seq<Vec<u8>>) -> Seq<Seq<u8>> {
    Seq::new(s.len(), |i: int| s[i]@)
}

impl View for Download {
    type V = DownloadModel;

    closed spec fn view(&self) -> DownloadModel {
        DownloadModel {
            request: self.request@,
            pieces: match self.pieces {
                Some(p) => Some(bytes_list(p@)),
                None => None,
            },
            size: self.size as nat,
            pex: self.pex,
        }
    }
}

/// What follows from a message.
pub enum Progress {
    Continue { send: Vec<Vec<u8>>, peers: Vec<PeerEvent> },
    Whole(Vec<u8>),
    Fail,
}

impl View for Progress {
    type V = ProgressModel;

    open spec fn view(&self) -> ProgressModel {
        match self {
            Progress::Continue { send, peers } => ProgressModel::Continue {
                send: bytes_list(send@),
                peers: event_list(peers@),
            },
            Progress::Whole(b) => ProgressModel::Whole(b@),
            Progress::Fail => ProgressModel::Fail,
        }
    }
}

/// What follows from a message, once the metadata is checked.
pub enum Step {
    /// Messages are to be sent, peers were named, and the download goes on.
    Continue { send: Vec<Vec<u8>>, peers: Vec<PeerEvent> },
    /// The metadata is there.
    Complete(Response),
    /// The download is given up.
    Fail,
}

fn nothing() -> (r: Progress)
    ensures
        r@ == (ProgressModel::Continue { send: Seq::empty(), peers: Seq::empty() }),
{
    let send: Vec<Vec<u8>> = Vec::new();
    let peers: Vec<PeerEvent> = Vec::new();
    assert(bytes_list(send@) =~= Seq::empty());
    assert(event_list(peers@) =~= Seq::empty());
    Progress::Continue { send, peers }
}

/// The lowest eight bits of a number.
fn byte_of(n: i64) -> (r: u8)
    ensures
        r == low_byte(n),
{
    // A multiple of 2^8 is added, so that nothing is negative.
    let shifted: i128 = n as i128 + 0x8000_0000_0000_0000;
    let low: u64 = shifted as u64 % 256;
    proof {
        vstd::arithmetic::div_mod::lemma_mod_multiples_vanish(0x80_0000_0000_0000, n as int, 256);
        assert(low == (n as int) % 256);
    }
    low as u8
}

fn id_of_extension(d: &Dict, name: &str) -> (r: Option<i64>)
    ensures
        r == extension_id(d@, name@),
{
    match d.get_dict("m") {
        Some(m) => m.get_int(name),
        None => None,
    }
}

fn join_pieces(pieces: &Vec<Vec<u8>>) -> (r: Vec<u8>)
    ensures
        r@ == joined(bytes_list(pieces@)),
{
    let ghost s = bytes_list(pieces@);
    let mut out: Vec<u8> = Vec::new();
    let mut i: usize = 0;
    assert(out@ =~= joined(s.take(0)));
    while i < pieces.len()
        invariant
            i <= pieces@.len(),
            s == bytes_list(pieces@),
            out@ == joined(s.take(i as int)),
        decreases pieces.len() - i,
    {
        proof {
            assert(s.take(i + 1).drop_last() =~= s.take(i as int));
            assert(s.take(i + 1).last() == s[i as int]);
        }
        out.extend_from_slice(pieces[i].as_slice());
        assert(out@ =~= joined(s.take(i + 1)));
        i += 1;
    }
    assert(s.take(i as int) =~= s);
    out
}

fn all_there(pieces: &Vec<Vec<u8>>) -> (r: bool)
    ensures
        r == complete(bytes_list(pieces@)),
{
    let ghost s = bytes_list(pieces@);
    let mut i: usize = 0;
    while i < pieces.len()
        invariant
            i <= pieces@.len(),
            s == bytes_list(pieces@),
            forall|j: int| 0 <= j < i ==> (#[trigger] s[j]).len() > 0,
        decreases pieces.len() - i,
    {
        if pieces[i].len() == 0 {
            assert(s[i as int].len() == 0);
            return false;
        }
        i += 1;
    }
    true
}

impl Download {
    /// A download that has not begun yet.
    pub fn new(request: Request) -> (r: Self)
        ensures
            r@ == (DownloadModel { request: request@, pieces: None, size: 0, pex: None }),
    {
        Download { request, pieces: None, size: 0, pex: None }
    }

    fn on_hello(&mut self, d: &Dict) -> (r: Progress)
        requires
            old(self)@.pieces is None,
        ensures
            (Outcome { next: final(self)@, progress: r@ }) == hello_step(old(self)@, d@),
    {
        let n: i64 = match d.get_int("metadata_size") {
            Some(n) => n,
            None => {
                return Progress::Fail;
            },
        };
        if n < 0 || n > MAX_METADATA_SIZE as i64 {
            return Progress::Fail;
        }
        let size = n as usize;
        let count = (size + BLOCK - 1) / BLOCK;
        let ids = id_of_extension(d, "ut_metadata");
        let mut pieces: Vec<Vec<u8>> = Vec::new();
        let mut send: Vec<Vec<u8>> = Vec::new();
        let ghost wanted = match ids {
            Some(id) => Seq::new(count as nat, |i: int| piece_request(id, i)),
            None => Seq::empty(),
        };
        let mut i: usize = 0;
        while i < count
            invariant
                i <= count,
                count <= 1000,
                bytes_list(pieces@) =~= Seq::new(i as nat, |i: int| Seq::<u8>::empty()),
                wanted == match ids {
                    Some(id) => Seq::new(count as nat, |i: int| piece_request(id, i)),
                    None => Seq::empty(),
                },
                bytes_list(send@) =~= if ids is Some {
                    wanted.take(i as int)
                } else {
                    wanted
                },
            decreases count - i,
        {
            let ghost p0 = bytes_list(pieces@);
            let ghost s0 = bytes_list(send@);
            let none: Vec<u8> = Vec::new();
            pieces.push(none);
            assert(bytes_list(pieces@) =~= p0.push(none@));
            if let Some(id) = ids {
                let head = Dict::new().with("msg_type", BVal::Int(REQUEST)).with(
                    "piece",
                    BVal::Int(i as i64),
                );
                let msg = make_extended(byte_of(id), head);
                assert(msg@ == piece_request(id, i as int));
                send.push(msg);
                assert(bytes_list(send@) =~= s0.push(msg@));
            }
            i += 1;
        }
        let peers: Vec<PeerEvent> = Vec::new();
        assert(event_list(peers@) =~= Seq::empty());
        assert(bytes_list(send@) =~= wanted);
        assert(count as nat == piece_count(n as nat));
        assert(bytes_list(pieces@) =~= Seq::new(
            piece_count(n as nat),
            |i: int| Seq::<u8>::empty(),
        ));
        self.pieces = Some(pieces);
        self.size = size;
        self.pex = id_of_extension(d, "ut_pex");
        Progress::Continue { send, peers }
    }

    fn on_data(&mut self, d: &Dict, data: &[u8]) -> (r: Progress)
        requires
            old(self)@.pieces is Some,
        ensures
            (Outcome { next: final(self)@, progress: r@ }) == data_step(
                old(self)@,
                old(self)@.pieces->0,
                d@,
                data@,
            ),
    {
        let n: i64 = match d.get_int("piece") {
            Some(n) => n,
            None => {
                return Progress::Fail;
            },
        };
        let mut pieces = match self.pieces.take() {
            Some(p) => p,
            None => {
                return Progress::Fail;
            },
        };
        let ghost p0 = bytes_list(pieces@);
        assert(old(self)@.pieces == Some(p0));
        let count = pieces.len();
        let last = count > 0 && n >= 0 && n as u64 == (count - 1) as u64;
        let fits = if last && self.size % BLOCK != 0 {
            data.len() == self.size % BLOCK
        } else {
            data.len() == BLOCK
        };
        if count == 0 || !fits {
            self.pieces = Some(pieces);
            return Progress::Fail;
        }
        if n >= 0 && (n as u64) < count as u64 {
            let copy = slice_to_vec(data);
            pieces.set(n as usize, copy);
            assert(bytes_list(pieces@) =~= p0.update(n as int, data@));
        }
        assert(bytes_list(pieces@) == filled(p0, n as int, data@));
        let progress = if all_there(&pieces) {
            Progress::Whole(join_pieces(&pieces))
        } else {
            nothing()
        };
        self.pieces = Some(pieces);
        progress
    }

    fn on_pex(&self, id: u8, d: &Dict) -> (r: Progress)
        ensures
            (Outcome { next: self@, progress: r@ }) == pex_step(self@, id, d@),
    {
        match (self.pex, d.get_bytes("added")) {
            (Some(pex), Some(added)) => {
                if pex != id as i64 {
                    return nothing();
                }
                let found = decode_compact_peers(added.as_slice());
                let ghost s = peers_model(found@);
                let ghost f = |p: (IpModel, u16)| RequestModel {
                    info_hash: self@.request.info_hash,
                    ip: ip_text(p.0),
                    port: p.1,
                };
                let mut peers: Vec<PeerEvent> = Vec::new();
                let mut i: usize = 0;
                while i < found.len()
                    invariant
                        i <= found@.len(),
                        s == peers_model(found@),
                        f == (|p: (IpModel, u16)| RequestModel {
                            info_hash: self@.request.info_hash,
                            ip: ip_text(p.0),
                            port: p.1,
                        }),
                        event_list(peers@) =~= s.map_values(f).take(i as int),
                    decreases found.len() - i,
                {
                    let ghost e0 = event_list(peers@);
                    let e = PeerEvent {
                        info_hash: self.request.info_hash,
                        ip: found[i].0.text(),
                        port: found[i].1,
                    };
                    peers.push(e);
                    assert(event_list(peers@) =~= e0.push(e@));
                    assert(s.map_values(f)[i as int] == e@);
                    i += 1;
                }
                let send: Vec<Vec<u8>> = Vec::new();
                assert(bytes_list(send@) =~= Seq::empty());
                assert(event_list(peers@) =~= named_peers(added@, self@.request.info_hash));
                Progress::Continue { send, peers }
            },
            _ => nothing(),
        }
    }

    /// Takes in a message.
    pub fn take_message(&mut self, payload: &[u8]) -> (r: Progress)
        ensures
            (Outcome { next: final(self)@, progress: r@ }) == message_step(old(self)@, payload@),
    {
        if payload.len() == 0 || payload[0] != EXTENDED {
            return nothing();
        }
        if payload.len() < 2 {
            return Progress::Fail;
        }
        let id = payload[1];
        let rest = slice_subrange(payload, 2, payload.len());
        assert(rest@ =~= payload@.skip(2));
        let begun = self.pieces.is_some();
        match decode_dict(rest) {
            Some((d, e)) => {
                if id == HANDSHAKE {
                    if begun {
                        return Progress::Fail;
                    }
                    self.on_hello(&d)
                } else {
                    if !begun {
                        return Progress::Fail;
                    }
                    let brings = match d.get_int("msg_type") {
                        Some(kind) => kind == DATA,
                        None => false,
                    };
                    if brings {
                        let data = slice_subrange(rest, e, rest.len());
                        assert(data@ =~= rest@.skip(e as int));
                        self.on_data(&d, data)
                    } else {
                        self.on_pex(id, &d)
                    }
                }
            },
            None => Progress::Fail,
        }
    }

    /// The response, where the digest of the metadata is the info-hash that was asked for.
    pub fn judge(&self, whole: Vec<u8>, digest: &[u8; 20]) -> (r: Option<Response>)
        ensures
            r is Some == (digest@ == self@.request.info_hash),
            match r {
                Some(p) => p.request@ == self@.request && (*p.metadata_info)@ == whole@,
                None => true,
            },
    {
        if same_bytes(digest, &self.request.info_hash) {
            Some(Response { request: self.request.clone(), metadata_info: Arc::new(whole) })
        } else {
            None
        }
    }

    /// Takes in a message, and checks the metadata once all pieces are there.
    pub fn on_message(&mut self, payload: &[u8]) -> (r: Step)
        ensures
            final(self)@ == message_step(old(self)@, payload@).next,
            match message_step(old(self)@, payload@).progress {
                ProgressModel::Continue { send, peers } => match r {
                    Step::Continue { send: s, peers: p } => bytes_list(s@) == send && event_list(
                        p@,
                    ) == peers,
                    _ => false,
                },
                ProgressModel::Whole(whole) => if sha1_of(whole)
                    == old(self)@.request.info_hash {
                    match r {
                        Step::Complete(p) => p.request@ == old(self)@.request && (*p.metadata_info)@
                            == whole,
                        _ => false,
                    }
                } else {
                    r is Fail
                },
                ProgressModel::Fail => r is Fail,
            },
    {
        match self.take_message(payload) {
            Progress::Continue { send, peers } => Step::Continue { send, peers },
            Progress::Whole(whole) => {
                let digest = sha1_digest(whole.as_slice());
                match self.judge(whole, &digest) {
                    Some(p) => Step::Complete(p),
                    None => Step::Fail,
                }
            },
            Progress::Fail => Step::Fail,
        }
    }
}

// ---------------------------------------------------------------------------
// A download that succeeds
// ---------------------------------------------------------------------------

/// A piece of metadata.
pub open spec fn block(info: Seq<u8>, i: int) -> Seq<u8> {
    info.subrange(
        i * BLOCK,
        if (i + 1) * BLOCK <= info.len() {
            (i + 1) * BLOCK
        } else {
            info.len() as int
        },
    )
}

/// What came in so far are pieces of the metadata.
pub open spec fn honest(m: DownloadModel, info: Seq<u8>) -> bool {
    &&& m.size == info.len()
    &&& m.pieces is Some
    &&& m.pieces->0.len() == piece_count(info.len())
    &&& forall|i: int|
        0 <= i < m.pieces->0.len() ==> (#[trigger] m.pieces->0[i]).len() == 0 || m.pieces->0[i]
            == block(info, i)
}

proof fn lemma_piece_head(kind: i64, piece: int)
    requires
        0 <= piece <= i64::MAX,
    ensures
        encodable(BModel::Dict(piece_head(kind, piece)), MAX_DEPTH as nat),
        int_at(piece_head(kind, piece), "msg_type"@) == Some(kind),
        int_at(piece_head(kind, piece), "piece"@) == Some(piece as i64),
{
    let depth = (MAX_DEPTH - 1) as nat;
    let p0: Pairs = Seq::empty();
    let p1 = with_int(p0, "msg_type"@, kind);
    reveal_strlit("msg_type");
    reveal_strlit("piece");
    assert("msg_type"@[0] != "piece"@[0]);
    lemma_keys_differ("msg_type"@, "piece"@);
    lemma_put_encodable(p0, key("msg_type"@), BModel::Int(kind), depth);
    lemma_put_encodable(p1, key("piece"@), BModel::Int(piece as i64), depth);
    law_put_lookup(p0, key("msg_type"@), BModel::Int(kind), key("msg_type"@));
    law_put_lookup(p1, key("piece"@), BModel::Int(piece as i64), key("msg_type"@));
}

proof fn lemma_blocks(info: Seq<u8>, pieces: Seq<Seq<u8>>, k: int)
    requires
        0 <= k <= pieces.len(),
        pieces.len() == piece_count(info.len()),
        forall|i: int| 0 <= i < pieces.len() ==> #[trigger] pieces[i] == block(info, i),
    ensures
        joined(pieces.take(k)) == info.take(
            if k * BLOCK <= info.len() {
                k * BLOCK
            } else {
                info.len() as int
            },
        ),
    decreases k,
{
    if k == 0 {
        assert(joined(pieces.take(0)) =~= info.take(0));
    } else {
        lemma_blocks(info, pieces, k - 1);
        assert(pieces.take(k).drop_last() =~= pieces.take(k - 1));
        assert(pieces.take(k).last() == block(info, k - 1));
        assert((k - 1) * BLOCK <= info.len());
        assert(joined(pieces.take(k)) =~= info.take(
            if k * BLOCK <= info.len() {
                k * BLOCK
            } else {
                info.len() as int
            },
        ));
    }
}

proof fn lemma_piece_message(m: DownloadModel, id: u8, i: int, data: Seq<u8>)
    requires
        m.pieces is Some,
        id != HANDSHAKE,
        0 <= i <= i64::MAX,
    ensures
        message_step(m, piece_message(id, i, data)) == data_step(
            m,
            m.pieces->0,
            piece_head(DATA, i),
            data,
        ),
{
    let head = piece_head(DATA, i);
    let payload = piece_message(id, i, data);
    let rest = payload.skip(2);
    let wire = crate::codec::enc(BModel::Dict(head));
    lemma_piece_head(DATA, i);
    law_leading_dict(head, data);
    assert(rest =~= wire + data);
    assert(rest.skip(wire.len() as int) =~= data);
    assert(payload[0] == EXTENDED && payload[1] == id);
}

proof fn lemma_block_length(info: Seq<u8>, i: int)
    requires
        0 <= i < piece_count(info.len()),
    ensures
        block(info, i).len() > 0,
        right_length(block(info, i).len(), i, piece_count(info.len()), info.len()),
{
    let count = piece_count(info.len());
    assert(i < count - 1 ==> (i + 1) * BLOCK <= info.len());
    assert(i == count - 1 ==> (i + 1) * BLOCK >= info.len());
}

proof fn lemma_all_blocks(info: Seq<u8>, pieces: Seq<Seq<u8>>)
    requires
        pieces.len() == piece_count(info.len()),
        forall|i: int| 0 <= i < pieces.len() ==> #[trigger] pieces[i] == block(info, i),
    ensures
        joined(pieces) == info,
{
    lemma_blocks(info, pieces, pieces.len() as int);
    assert(pieces.take(pieces.len() as int) =~= pieces);
    assert(info.take(info.len() as int) =~= info);
}

/// When the peer has told the size of the metadata, all of its pieces are asked for under the
/// number that the peer gave, and what is there so far are pieces of it.
pub proof fn law_all_pieces_are_asked_for(m: DownloadModel, d: Pairs, info: Seq<u8>, id: i64)
    requires
        info.len() <= MAX_METADATA_SIZE,
        int_at(d, "metadata_size"@) == Some(info.len() as i64),
        extension_id(d, "ut_metadata"@) == Some(id),
    ensures
        honest(hello_step(m, d).next, info),
        hello_step(m, d).progress == (ProgressModel::Continue {
            send: Seq::new(piece_count(info.len()), |i: int| piece_request(id, i)),
            peers: Seq::empty(),
        }),
        info.len() <= piece_count(info.len()) * BLOCK,
{
}

/// A piece that comes in is put in its place and nothing else changes. With the last one that was
/// missing, the metadata is there.
pub proof fn law_piece_comes_in(m: DownloadModel, info: Seq<u8>, id: u8, i: int)
    requires
        honest(m, info),
        info.len() <= MAX_METADATA_SIZE,
        id != HANDSHAKE,
        0 <= i < piece_count(info.len()),
    ensures
        ({
            let now = m.pieces->0.update(i, block(info, i));
            let o = message_step(m, piece_message(id, i, block(info, i)));
            &&& o.next == (DownloadModel { pieces: Some(now), ..m })
            &&& honest(o.next, info)
            &&& o.progress == if complete(now) {
                ProgressModel::Whole(info)
            } else {
                ProgressModel::Continue { send: Seq::empty(), peers: Seq::empty() }
            }
        }),
{
    let data = block(info, i);
    lemma_piece_message(m, id, i, data);
    lemma_piece_head(DATA, i);
    lemma_block_length(info, i);
    let now = m.pieces->0.update(i, data);
    if complete(now) {
        lemma_all_blocks(info, now);
    }
}

/// The download after pieces came in, one after another.
pub open spec fn fed(m: DownloadModel, info: Seq<u8>, id: u8, order: Seq<int>) -> DownloadModel
    decreases order.len(),
{
    if order.len() == 0 {
        m
    } else {
        message_step(
            fed(m, info, id, order.drop_last()),
            piece_message(id, order.last(), block(info, order.last())),
        ).next
    }
}

proof fn lemma_one_more(order: Seq<int>, i: int)
    requires
        order.len() > 0,
    ensures
        order.contains(i) == (order.drop_last().contains(i) || order.last() == i),
{
    let prev = order.drop_last();
    if order.contains(i) && order.last() != i {
        let x = choose|x: int| 0 <= x < order.len() && order[x] == i;
        assert(prev[x] == i);
    }
    if prev.contains(i) {
        let x = choose|x: int| 0 <= x < prev.len() && prev[x] == i;
        assert(order[x] == i);
    }
    assert(order[order.len() - 1] == order.last());
}

proof fn lemma_fed(m: DownloadModel, info: Seq<u8>, id: u8, order: Seq<int>)
    requires
        honest(m, info),
        info.len() <= MAX_METADATA_SIZE,
        id != HANDSHAKE,
        forall|j: int| 0 <= j < order.len() ==> 0 <= #[trigger] order[j] < piece_count(info.len()),
    ensures
        honest(fed(m, info, id, order), info),
        forall|i: int|
            0 <= i < piece_count(info.len()) ==> #[trigger] fed(m, info, id, order).pieces->0[i]
                == if order.contains(i) {
                block(info, i)
            } else {
                m.pieces->0[i]
            },
    decreases order.len(),
{
    if order.len() > 0 {
        let prev = order.drop_last();
        let last = order.last();
        assert(order[order.len() - 1] == last);
        lemma_fed(m, info, id, prev);
        let b = fed(m, info, id, prev);
        law_piece_comes_in(b, info, id, last);
        let f = fed(m, info, id, order);
        assert forall|i: int| 0 <= i < piece_count(info.len()) implies #[trigger] f.pieces->0[i]
            == if order.contains(i) {
            block(info, i)
        } else {
            m.pieces->0[i]
        } by {
            assert(b.pieces->0[i] == if prev.contains(i) {
                block(info, i)
            } else {
                m.pieces->0[i]
            });
            lemma_one_more(order, i);
        }
    }
}

/// In whatever order the pieces of metadata come in, each once, the metadata is there with the last
/// of them and not before.
pub proof fn law_pieces_in_any_order(
    m: DownloadModel,
    info: Seq<u8>,
    id: u8,
    order: Seq<int>,
    k: int,
)
    requires
        honest(m, info),
        forall|i: int| 0 <= i < m.pieces->0.len() ==> (#[trigger] m.pieces->0[i]).len() == 0,
        info.len() <= MAX_METADATA_SIZE,
        id != HANDSHAKE,
        order.no_duplicates(),
        forall|j: int| 0 <= j < order.len() ==> 0 <= #[trigger] order[j] < piece_count(info.len()),
        forall|i: int| 0 <= i < piece_count(info.len()) ==> #[trigger] order.contains(i),
        0 <= k < order.len(),
    ensures
        message_step(
            fed(m, info, id, order.take(k)),
            piece_message(id, order[k], block(info, order[k])),
        ).progress == if k == order.len() - 1 {
            ProgressModel::Whole(info)
        } else {
            ProgressModel::Continue { send: Seq::empty(), peers: Seq::empty() }
        },
{
    let before = order.take(k);
    lemma_fed(m, info, id, before);
    let b = fed(m, info, id, before);
    law_piece_comes_in(b, info, id, order[k]);
    let now = b.pieces->0.update(order[k], block(info, order[k]));
    if k == order.len() - 1 {
        assert forall|i: int| 0 <= i < now.len() implies (#[trigger] now[i]).len() > 0 by {
            if i != order[k] {
                assert(order.contains(i));
                let x = choose|x: int| 0 <= x < order.len() && order[x] == i;
                assert(before[x] == i);
                assert(b.pieces->0[i] == block(info, i));
            }
        }
    } else {
        let i = order[k + 1];
        assert(!before.contains(i)) by {
            if before.contains(i) {
                let x = choose|x: int| 0 <= x < before.len() && before[x] == i;
                assert(order[x] == order[k + 1]);
            }
        }
        assert(order[k] != order[k + 1]);
        assert(b.pieces->0[i].len() == 0);
        assert(now[i].len() == 0);
    }
}

/// The peers that the peer names, as far as they have IPv4 addresses, are the peers that it is
/// understood to name.
pub proof fn law_exchanged_peers_are_named(m: DownloadModel, id: u8, s: Seq<AddrModel>)
    requires
        m.pieces is Some,
        m.pex == Some(id as i64),
        id != HANDSHAKE,
        forall|i: int| 0 <= i < s.len() ==> (#[trigger] s[i]).ip is V4,
    ensures
        message_step(m, extended(id, with_bytes(Seq::empty(), "added"@, compact_addrs(s)))) == (
        Outcome {
            next: m,
            progress: ProgressModel::Continue {
                send: Seq::empty(),
                peers: s.map_values(
                    |a: AddrModel|
                        RequestModel {
                            info_hash: m.request.info_hash,
                            ip: ip_text(a.ip),
                            port: a.port,
                        },
                ),
            },
        }),
{
    let b = compact_addrs(s);
    let empty: Pairs = Seq::empty();
    let d = with_bytes(empty, "added"@, b);
    let payload = extended(id, d);
    let none: Seq<u8> = Seq::empty();
    reveal_strlit("added");
    reveal_strlit("msg_type");
    assert("added"@[0] != "msg_type"@[0]);
    lemma_keys_differ("added"@, "msg_type"@);
    lemma_put_encodable(empty, key("added"@), BModel::Bytes(b), (MAX_DEPTH - 1) as nat);
    law_put_lookup(empty, key("added"@), BModel::Bytes(b), key("msg_type"@));
    assert(lookup(empty, key("msg_type"@)) is None);
    law_leading_dict(d, none);
    assert(payload.skip(2) =~= crate::codec::enc(BModel::Dict(d)) + none);
    assert(payload[0] == EXTENDED && payload[1] == id);
    law_compact_peers_read_back(s);
    assert(named_peers(b, m.request.info_hash) =~= s.map_values(
        |a: AddrModel|
            RequestModel { info_hash: m.request.info_hash, ip: ip_text(a.ip), port: a.port },
    ));
}

// ---------------------------------------------------------------------------
// The size of what is downloaded
// ---------------------------------------------------------------------------

/// There is a place for every piece of metadata of the size that was told, and each piece that is
/// there has the length that its place asks for.
pub open spec fn sized(m: DownloadModel) -> bool {
    match m.pieces {
        Some(pieces) => {
            &&& pieces.len() == piece_count(m.size)
            &&& forall|i: int|
                0 <= i < pieces.len() ==> (#[trigger] pieces[i]).len() == 0 || right_length(
                    pieces[i].len(),
                    i,
                    pieces.len(),
                    m.size,
                )
        },
        None => true,
    }
}

proof fn lemma_joined_length(pieces: Seq<Seq<u8>>, size: nat, k: int)
    requires
        0 <= k <= pieces.len(),
        pieces.len() == piece_count(size),
        forall|i: int|
            0 <= i < pieces.len() ==> right_length(
                (#[trigger] pieces[i]).len(),
                i,
                pieces.len(),
                size,
            ),
    ensures
        joined(pieces.take(k)).len() == if k * BLOCK <= size {
            k * BLOCK
        } else {
            size as int
        },
    decreases k,
{
    if k > 0 {
        lemma_joined_length(pieces, size, k - 1);
        assert(pieces.take(k).drop_last() =~= pieces.take(k - 1));
        assert(pieces.take(k).last() == pieces[k - 1]);
        assert((k - 1) * BLOCK <= size);
    }
}

/// A piece that comes in keeps places and lengths in order, and metadata that is whole has the size
/// that was told.
proof fn lemma_data_sized(m: DownloadModel, d: Pairs, data: Seq<u8>)
    requires
        sized(m),
        m.pieces is Some,
    ensures
        sized(data_step(m, m.pieces->0, d, data).next),
        data_step(m, m.pieces->0, d, data).next.size == m.size,
        match data_step(m, m.pieces->0, d, data).progress {
            ProgressModel::Whole(whole) => whole.len() == m.size,
            _ => true,
        },
{
    let o = data_step(m, m.pieces->0, d, data);
    if let ProgressModel::Whole(_) = o.progress {
        let now = o.next.pieces->0;
        assert forall|i: int| 0 <= i < now.len() implies right_length(
            (#[trigger] now[i]).len(),
            i,
            now.len(),
            m.size,
        ) by {
            assert(now[i].len() > 0);
        }
        lemma_joined_length(now, m.size, now.len() as int);
        assert(now.take(now.len() as int) =~= now);
    }
}

/// The size of the metadata is the one that the peer told: what is whole in the end has as many
/// bytes, whatever messages came in.
pub proof fn law_metadata_has_the_size_told(m: DownloadModel, payload: Seq<u8>)
    requires
        sized(m),
    ensures
        ({
            let o = message_step(m, payload);
            &&& sized(o.next)
            &&& m.pieces is Some ==> o.next.pieces is Some && o.next.size == m.size
            &&& m.pieces is None && o.next.pieces is Some ==> {
                &&& match leading_dict(payload.skip(2)) {
                    Some((d, _)) => int_at(d, "metadata_size"@) == Some(o.next.size as i64),
                    None => false,
                }
                &&& o.next.size <= MAX_METADATA_SIZE
            }
            &&& match o.progress {
                ProgressModel::Whole(whole) => m.pieces is Some && whole.len() == m.size,
                _ => true,
            }
        }),
{
    if m.pieces is Some {
        if let Some((d, e)) = leading_dict(payload.skip(2)) {
            lemma_data_sized(m, d, payload.skip(2).skip(e));
        }
    }
}

// ---------------------------------------------------------------------------
// What goes over the wire
// ---------------------------------------------------------------------------

/// A message asks for a piece under the number `id`: it is an extended message of this number that
/// holds nothing but a dictionary which says so.
pub open spec fn asks_for_piece(msg: Seq<u8>, id: i64, piece: int) -> bool {
    &&& msg.len() > 2
    &&& msg[0] == 20
    &&& msg[1] == (id as int) % 256
    &&& match leading_dict(msg.skip(2)) {
        Some((d, e)) => {
            &&& e == msg.len() - 2
            &&& int_at(d, "msg_type"@) == Some(0i64)
            &&& int_at(d, "piece"@) matches Some(n) && n == piece
        },
        None => false,
    }
}

proof fn lemma_request_reads(id: i64, piece: int)
    requires
        0 <= piece <= i64::MAX,
    ensures
        asks_for_piece(piece_request(id, piece), id, piece),
{
    let head = piece_head(REQUEST, piece);
    let none: Seq<u8> = Seq::empty();
    let wire = crate::codec::enc(BModel::Dict(head));
    let msg = piece_request(id, piece);
    lemma_piece_head(REQUEST, piece);
    law_leading_dict(head, none);
    assert(wire + none =~= wire);
    assert(msg.skip(2) =~= wire);
}

/// When a peer has told the size of its metadata, it is asked for every piece of it, each piece
/// once and in their order, under the number that it gave: so many that all blocks of 16384 bytes
/// but the last are full and the last is not empty.
pub proof fn law_every_piece_is_asked_for(
    m: DownloadModel,
    payload: Seq<u8>,
    d: Pairs,
    e: int,
    n: i64,
    extensions: Pairs,
    id: i64,
)
    requires
        m.pieces is None,
        payload.len() >= 2,
        payload[0] == 20,
        payload[1] == 0,
        leading_dict(payload.skip(2)) == Some((d, e)),
        int_at(d, "metadata_size"@) == Some(n),
        0 <= n <= 16_384_000,
        dict_at(d, "m"@) == Some(extensions),
        int_at(extensions, "ut_metadata"@) == Some(id),
    ensures
        ({
            let o = message_step(m, payload);
            &&& o.next.request == m.request
            &&& o.next.size == n
            &&& o.next.pieces is Some
            &&& o.next.pex == int_at(extensions, "ut_pex"@)
            &&& match o.progress {
                ProgressModel::Continue { send, peers } => {
                    &&& peers.len() == 0
                    &&& n <= 16384 * send.len() < n + 16384
                    &&& o.next.pieces->0.len() == send.len()
                    &&& forall|i: int|
                        0 <= i < send.len() ==> asks_for_piece(#[trigger] send[i], id, i)
                        && o.next.pieces->0[i].len() == 0
                },
                _ => false,
            }
        }),
{
    let count = piece_count(n as nat);
    assert forall|i: int| 0 <= i < count implies asks_for_piece(
        #[trigger] piece_request(id, i),
        id,
        i,
    ) by {
        lemma_request_reads(id, i);
    }
}

/// The bytes of metadata that make up a piece: 16384 of them, or what is left at the end.
pub open spec fn piece_bytes(info: Seq<u8>, i: int) -> Seq<u8> {
    if 16384 * (i + 1) <= info.len() {
        info.subrange(16384 * i, 16384 * (i + 1))
    } else {
        info.subrange(16384 * i, info.len() as int)
    }
}

/// A message brings a piece: it is an extended message, begins with a dictionary which says so, and
/// the bytes follow.
pub open spec fn brings_piece(msg: Seq<u8>, piece: int, data: Seq<u8>) -> bool {
    &&& msg.len() >= 2
    &&& msg[0] == 20
    &&& msg[1] != 0
    &&& match leading_dict(msg.skip(2)) {
        Some((d, e)) => {
            &&& int_at(d, "msg_type"@) == Some(1i64)
            &&& int_at(d, "piece"@) matches Some(n) && n == piece
            &&& msg.skip(2).skip(e) == data
        },
        None => false,
    }
}

/// What is there of metadata: of each piece either all bytes or none.
pub open spec fn holds_of(m: DownloadModel, info: Seq<u8>) -> bool {
    &&& m.size == info.len()
    &&& m.pieces is Some
    &&& info.len() <= 16384 * m.pieces->0.len() < info.len() + 16384
    &&& forall|i: int|
        0 <= i < m.pieces->0.len() ==> (#[trigger] m.pieces->0[i]).len() == 0 || m.pieces->0[i]
            == piece_bytes(info, i)
}

/// Every piece that is brought is kept. The metadata is handed out, with all its bytes in their
/// order, when the last missing piece is brought, and not before.
pub proof fn law_pieces_are_put_together(m: DownloadModel, info: Seq<u8>, msg: Seq<u8>, i: int)
    requires
        holds_of(m, info),
        0 <= i < m.pieces->0.len(),
        brings_piece(msg, i, piece_bytes(info, i)),
    ensures
        ({
            let o = message_step(m, msg);
            &&& holds_of(o.next, info)
            &&& o.next.request == m.request
            &&& o.next.pieces->0.len() == m.pieces->0.len()
            &&& o.next.pieces->0[i] == piece_bytes(info, i)
            &&& forall|j: int|
                0 <= j < m.pieces->0.len() && j != i ==> #[trigger] o.next.pieces->0[j]
                    == m.pieces->0[j]
            &&& (forall|j: int|
                0 <= j < m.pieces->0.len() && j != i ==> (#[trigger] m.pieces->0[j]).len() > 0)
                ==> o.progress == ProgressModel::Whole(info)
            &&& (exists|j: int|
                0 <= j < m.pieces->0.len() && j != i && (#[trigger] m.pieces->0[j]).len() == 0)
                ==> o.progress is Continue
        }),
{
    let data = piece_bytes(info, i);
    let pieces = m.pieces->0;
    assert(pieces.len() == piece_count(info.len()));
    assert forall|j: int| 0 <= j < pieces.len() implies #[trigger] piece_bytes(info, j) == block(
        info,
        j,
    ) by {}
    lemma_block_length(info, i);
    let now = pieces.update(i, data);
    assert(now[i].len() > 0);
    if exists|j: int| 0 <= j < pieces.len() && j != i && (#[trigger] pieces[j]).len() == 0 {
        let j = choose|j: int|
            0 <= j < pieces.len() && j != i && (#[trigger] pieces[j]).len() == 0;
        assert(now[j].len() == 0);
    }
    if forall|j: int| 0 <= j < pieces.len() && j != i ==> (#[trigger] pieces[j]).len() > 0 {
        assert forall|j: int| 0 <= j < now.len() implies #[trigger] now[j] == block(info, j) by {
            assert(piece_bytes(info, j) == block(info, j));
            if j != i {
                assert(now[j] == pieces[j]);
            }
        }
        assert forall|j: int| 0 <= j < now.len() implies (#[trigger] now[j]).len() > 0 by {
            if j != i {
                assert(now[j] == pieces[j]);
            }
        }
        lemma_all_blocks(info, now);
    }
}

/// A piece of another length than its place asks for ends the download: all pieces have 16384
/// bytes, but for a last one that is smaller.
pub proof fn law_piece_of_wrong_length_ends_download(
    m: DownloadModel,
    msg: Seq<u8>,
    i: int,
    data: Seq<u8>,
)
    requires
        m.pieces is Some,
        m.size <= 16384 * m.pieces->0.len() < m.size + 16384,
        0 <= i < m.pieces->0.len(),
        brings_piece(msg, i, data),
        16384 * (i + 1) <= m.size ==> data.len() != 16384,
        16384 * (i + 1) > m.size ==> data.len() != m.size - 16384 * i,
    ensures
        message_step(m, msg).progress is Fail,
        message_step(m, msg).next == m,
{
    let count = m.pieces->0.len();
    assert(i < count - 1 ==> 16384 * (i + 1) <= m.size);
}

/// Of the peers that a peer names, every one is told of: one for each six bytes, with the address
/// that they write.
pub proof fn law_every_named_peer_is_told(
    m: DownloadModel,
    payload: Seq<u8>,
    d: Pairs,
    e: int,
    added: Seq<u8>,
)
    requires
        m.pieces is Some,
        payload.len() >= 2,
        payload[0] == 20,
        payload[1] != 0,
        m.pex == Some(payload[1] as i64),
        leading_dict(payload.skip(2)) == Some((d, e)),
        int_at(d, "msg_type"@) != Some(1i64),
        bytes_at(d, "added"@) == Some(added),
    ensures
        message_step(m, payload).next == m,
        match message_step(m, payload).progress {
            ProgressModel::Continue { send, peers } => {
                &&& send.len() == 0
                &&& peers.len() == added.len() / 6
                &&& forall|i: int|
                    0 <= i < peers.len() ==> {
                        &&& (#[trigger] peers[i]).info_hash == m.request.info_hash
                        &&& peers[i].ip == ip_text(
                            IpModel::V4(
                                added[6 * i],
                                added[6 * i + 1],
                                added[6 * i + 2],
                                added[6 * i + 3],
                            ),
                        )
                        &&& peers[i].port == added[6 * i + 4] * 256 + added[6 * i + 5]
                    }
            },
            _ => false,
        },
{
}

/// A message that carries no extension changes nothing.
pub proof fn law_other_messages_change_nothing(m: DownloadModel, payload: Seq<u8>)
    requires
        payload.len() == 0 || payload[0] != 20,
    ensures
        message_step(m, payload).next == m,
        message_step(m, payload).progress == (ProgressModel::Continue {
            send: Seq::empty(),
            peers: Seq::empty(),
        }),
{
}

} // verus!
