//! What the node answers to other nodes, as it shows in the packets that it sends.

use vstd::prelude::*;
use vstd::string::*;
use vstd::utf8::{decode_utf8, encode_utf8_decode_utf8, encode_utf8_valid_utf8, valid_utf8};
use crate::bencode::{bytes_at, dict_at, int_at, key, list_at, BModel};
use crate::codec::{encodable, lemma_put_encodable, MAX_DEPTH};
use crate::keyed::{law_put_lookup, lemma_lex_irreflexive, lex_lt, lookup, put, sorted};
use crate::krpc::{
    error_msg, headed, law_error_read_back, law_response_read_back, lemma_keys_differ, message_in,
    with_bytes, MessageModel, Pairs,
};
use crate::laws::{
    lemma_id_args, lemma_nearest_ids, lemma_nodes_query, lemma_peers_query, shunned, whole_ids,
};
use crate::peers::newest;
use crate::protocol::{
    announced_port, compact_values, get_peers_answer, id_args, named_port, packet_step,
    request_step, response_step, ActionModel, DhtModel, Run,
};
use crate::routing::{
    closer, compact_run, distance, law_compact_nodes_read_back, law_nearest,
    law_nothing_closer_left_out, named_nodes, nearest, Entry,
};
use crate::service::{asks_for, is_query, lemma_asks_reads, named_at, query_at};
use crate::text::readable;
use crate::types::{ip_text, AddrModel, IpModel, Mode, NodeModel, PeerModel};
use crate::util::{compact_nodes, law_compact_addr_read_back};

verus! {

/// The answer that is sent to an address under a transaction, where an action sends one.
pub open spec fn answer_at(a: ActionModel, addr: AddrModel, t: Seq<u8>) -> Option<Pairs> {
    match a {
        ActionModel::Send { addr: to, buf } => match message_in(buf) {
            Some(m) => if to == addr && m.t == t && m.y == "r"@ {
                dict_at(m.body, "r"@)
            } else {
                None
            },
            None => None,
        },
        _ => None,
    }
}

/// An action tells an address that its query was refused, with a number and a text.
pub open spec fn refuses_at(
    a: ActionModel,
    addr: AddrModel,
    t: Seq<u8>,
    code: i64,
    text: Seq<char>,
) -> bool {
    match a {
        ActionModel::Send { addr: to, buf } => match message_in(buf) {
            Some(m) => {
                &&& to == addr
                &&& m.t == t
                &&& m.y == "e"@
                &&& list_at(m.body, "e"@) == Some(
                    seq![BModel::Int(code), BModel::Bytes(key(text))],
                )
            },
            None => false,
        },
        _ => false,
    }
}

/// A query of a kind with its arguments, as it is read from a message.
pub open spec fn is_asked(body: Pairs, q: Seq<char>, args: Pairs) -> bool {
    bytes_at(body, "q"@) == Some(key(q)) && dict_at(body, "a"@) == Some(args)
}

/// Bytes of the length of an identifier stand under a name.
pub open spec fn has_id(p: Pairs, name: Seq<char>) -> bool {
    bytes_at(p, name) is Some && bytes_at(p, name)->0.len() == 20
}

/// The identifier that a node shows to one who asks for `asked`: its own, or, as a crawler, one that
/// begins with the first fifteen bytes of what is asked for and ends like its own.
pub open spec fn shows_id(d: DhtModel, asked: Seq<u8>, id: Seq<u8>) -> bool {
    &&& d.cfg.mode == Mode::Standard ==> id == d.self_id
    &&& d.cfg.mode == Mode::Crawl ==> {
        &&& id.len() == 20
        &&& forall|i: int| 0 <= i < 15 ==> #[trigger] id[i] == asked[i]
        &&& forall|i: int| 15 <= i < 20 ==> #[trigger] id[i] == d.self_id[i]
    }
}

proof fn lemma_answer_reads(r: Run, addr: AddrModel, t: Seq<u8>, answer: Pairs)
    requires
        encodable(BModel::Dict(answer), (MAX_DEPTH - 1) as nat),
    ensures
        r.answers(addr, t, answer).out == r.out.push(r.answers(addr, t, answer).out.last()),
        answer_at(r.answers(addr, t, answer).out.last(), addr, t) == Some(answer),
{
    law_response_read_back(t, answer);
}

proof fn lemma_kind_read(q: Seq<char>)
    ensures
        valid_utf8(key(q)),
        decode_utf8(key(q)) == q,
{
    encode_utf8_valid_utf8(q);
    encode_utf8_decode_utf8(q);
}

proof fn lemma_first_letters()
    ensures
        "ping"@ != "find_node"@,
        "ping"@ != "get_peers"@,
        "ping"@ != "announce_peer"@,
        "find_node"@ != "get_peers"@,
        "find_node"@ != "announce_peer"@,
        "get_peers"@ != "announce_peer"@,
{
    reveal_strlit("ping");
    reveal_strlit("find_node");
    reveal_strlit("get_peers");
    reveal_strlit("announce_peer");
    assert("ping"@[0] != "find_node"@[0] && "ping"@[0] != "get_peers"@[0] && "ping"@[0]
        != "announce_peer"@[0] && "find_node"@[0] != "get_peers"@[0] && "find_node"@[0]
        != "announce_peer"@[0] && "get_peers"@[0] != "announce_peer"@[0]);
}

proof fn lemma_shown(d: DhtModel, asked: Seq<u8>)
    requires
        d.self_id.len() == 20,
        asked.len() == 20,
    ensures
        shows_id(d, asked, d.id_for(Some(asked))),
{
}

/// A ping is answered, with nothing but the identifier of the node.
pub proof fn law_ping_gets_an_answer(
    r: Run,
    t: Seq<u8>,
    body: Pairs,
    args: Pairs,
    addr: AddrModel,
    fresh: Seq<char>,
    now: u64,
)
    requires
        r.d.self_id.len() == 20,
        is_asked(body, "ping"@, args),
        has_id(args, "id"@),
    ensures
        ({
            let b = request_step(r, t, body, addr, fresh, now);
            &&& b.d == r.d
            &&& b.out.len() == r.out.len() + 1
            &&& b.out.drop_last() == r.out
            &&& answer_at(b.out.last(), addr, t) is Some
            &&& bytes_at(answer_at(b.out.last(), addr, t)->0, "id"@) is Some
            &&& shows_id(
                r.d,
                bytes_at(args, "id"@)->0,
                bytes_at(answer_at(b.out.last(), addr, t)->0, "id"@)->0,
            )
        }),
{
    let remote = bytes_at(args, "id"@)->0;
    let id = r.d.id_for(Some(remote));
    lemma_kind_read("ping"@);
    lemma_id_args(id);
    lemma_answer_reads(r, addr, t, id_args(id));
    lemma_shown(r.d, remote);
    assert(r.answers(addr, t, id_args(id)).out.drop_last() =~= r.out);
}

/// An identifier lies nearer to a target than another: in the first byte in which their distances
/// differ, its distance is the smaller one. The distance of two bytes is the bits in which they
/// differ.
pub open spec fn nearer(a: Seq<u8>, b: Seq<u8>, target: Seq<u8>) -> bool {
    exists|p: int|
        0 <= p < 20 && #[trigger] (a[p] ^ target[p]) < (b[p] ^ target[p]) && forall|i: int|
            0 <= i < p ==> #[trigger] (a[i] ^ target[i]) == (b[i] ^ target[i])
}

proof fn lemma_lex_at(x: Seq<u8>, y: Seq<u8>, p: int)
    requires
        0 <= p < x.len(),
        x.len() == y.len(),
        x[p] < y[p],
        forall|i: int| 0 <= i < p ==> #[trigger] x[i] == y[i],
    ensures
        lex_lt(x, y),
    decreases p,
{
    if p > 0 {
        assert(x[0] == y[0]);
        assert forall|i: int| 0 <= i < p - 1 implies #[trigger] x.skip(1)[i] == y.skip(1)[i] by {
            assert(x[i + 1] == y[i + 1]);
        }
        lemma_lex_at(x.skip(1), y.skip(1), p - 1);
    }
}

proof fn lemma_nearer_is_closer(a: Seq<u8>, b: Seq<u8>, target: Seq<u8>)
    requires
        a.len() == 20,
        b.len() == 20,
        nearer(a, b, target),
    ensures
        closer(a, b, target),
{
    let p = choose|p: int|
        0 <= p < 20 && #[trigger] (a[p] ^ target[p]) < (b[p] ^ target[p]) && forall|i: int|
            0 <= i < p ==> #[trigger] (a[i] ^ target[i]) == (b[i] ^ target[i]);
    let x = distance(a, target);
    let y = distance(b, target);
    assert forall|i: int| 0 <= i < p implies #[trigger] x[i] == y[i] by {
        assert((a[i] ^ target[i]) == (b[i] ^ target[i]));
    }
    lemma_lex_at(x, y, p);
}

/// Of the nodes that are known, these are the nearest to a target: as many as asked for or all, none
/// twice, in the order of their distance, and none that is left out lies nearer.
pub open spec fn are_nearest(
    known: Seq<Entry>,
    sel: Seq<Entry>,
    target: Seq<u8>,
    k: nat,
) -> bool {
    &&& sel.no_duplicates()
    &&& sel.len() == if known.len() < k {
        known.len()
    } else {
        k
    }
    &&& forall|i: int| 0 <= i < sel.len() ==> known.contains(#[trigger] sel[i])
    &&& forall|i: int, j: int|
        0 <= i < j < sel.len() ==> !nearer((#[trigger] sel[j]).0, (#[trigger] sel[i]).0, target)
    &&& forall|e: Entry, i: int| #[trigger]
        known.contains(e) && !sel.contains(e) && 0 <= i < sel.len() ==> !nearer(
            e.0,
            (#[trigger] sel[i]).0,
            target,
        )
}

proof fn lemma_sorted_apart(s: Seq<Entry>)
    requires
        sorted(s),
    ensures
        s.no_duplicates(),
        forall|i: int, j: int|
            0 <= i < s.len() && 0 <= j < s.len() && i != j ==> (#[trigger] s[i]).0 != (
            #[trigger] s[j]).0,
{
    assert forall|i: int, j: int| 0 <= i < s.len() && 0 <= j < s.len() && i != j implies (
    #[trigger] s[i]).0 != (#[trigger] s[j]).0 by {
        lemma_lex_irreflexive(s[i].0);
    }
}

proof fn lemma_nearest_are_nearest(known: Seq<Entry>, target: Seq<u8>, k: nat)
    requires
        sorted(known),
        whole_ids(known),
    ensures
        are_nearest(known, nearest(known, target, k), target, k),
        whole_ids(nearest(known, target, k)),
{
    broadcast use vstd::seq_lib::group_to_multiset_ensures;

    let sel = nearest(known, target, k);
    law_nearest(known, target, k);
    lemma_nearest_ids(known, target, k);
    lemma_sorted_apart(known);
    known.lemma_multiset_has_no_duplicates();
    assert forall|x: Entry| sel.to_multiset().contains(x) implies sel.to_multiset().count(x)
        == 1 by {
        assert(sel.to_multiset().count(x) <= known.to_multiset().count(x));
        assert(known.to_multiset().contains(x));
    }
    sel.lemma_multiset_has_no_duplicates_conv();
    assert forall|i: int| 0 <= i < sel.len() implies known.contains(#[trigger] sel[i]) by {
        assert(sel.contains(sel[i]));
        assert(sel.to_multiset().count(sel[i]) > 0);
        assert(known.to_multiset().count(sel[i]) > 0);
    }
    assert forall|i: int, j: int| 0 <= i < j < sel.len() implies !nearer(
        (#[trigger] sel[j]).0,
        (#[trigger] sel[i]).0,
        target,
    ) by {
        assert(!closer(sel[j].0, sel[i].0, target));
        if nearer(sel[j].0, sel[i].0, target) {
            lemma_nearer_is_closer(sel[j].0, sel[i].0, target);
        }
    }
    assert forall|e: Entry, i: int| #[trigger]
        known.contains(e) && !sel.contains(e) && 0 <= i < sel.len() implies !nearer(
        e.0,
        (#[trigger] sel[i]).0,
        target,
    ) by {
        law_nothing_closer_left_out(known, target, k, e, i);
        let j = choose|j: int| 0 <= j < known.len() && known[j] == e;
        assert(known[j].0.len() == 20);
        if nearer(e.0, sel[i].0, target) {
            lemma_nearer_is_closer(e.0, sel[i].0, target);
        }
    }
}

/// A node stands at a place of a run of nodes in the compact form.
pub open spec fn node_at(b: Seq<u8>, j: int, e: Entry) -> bool {
    &&& named_at(b, j, e.1.addr)
    &&& b.subrange(26 * j, 26 * j + 20) == e.0
}

/// The places of nodes in a list, one for each that stands in a run of bytes in the compact form:
/// they are in order, and of no node with an IPv4 address the place is missing.
pub open spec fn are_places(b: Seq<u8>, sel: Seq<Entry>, places: Seq<int>) -> bool {
    &&& b.len() == 26 * places.len()
    &&& forall|j: int|
        0 <= j < places.len() ==> 0 <= #[trigger] places[j] < sel.len() && node_at(
            b,
            j,
            sel[places[j]],
        )
    &&& forall|j: int, l: int|
        0 <= j < l < places.len() ==> #[trigger] places[j] < #[trigger] places[l]
    &&& forall|i: int|
        0 <= i < sel.len() && (#[trigger] sel[i]).1.addr.ip is V4 ==> places.contains(i)
}

/// A run of bytes names nodes in the compact form: those of them that have IPv4 addresses, each
/// once, in their order, and nothing else.
pub open spec fn names_nodes(b: Seq<u8>, sel: Seq<Entry>) -> bool {
    exists|places: Seq<int>| #[trigger] are_places(b, sel, places)
}

spec fn v4_places(s: Seq<Entry>) -> Seq<int>
    decreases s.len(),
{
    if s.len() == 0 {
        Seq::empty()
    } else if s.last().1.addr.ip is V4 {
        v4_places(s.drop_last()).push(s.len() - 1)
    } else {
        v4_places(s.drop_last())
    }
}

proof fn lemma_v4_places(s: Seq<Entry>)
    ensures
        v4_places(s).len() == named_nodes(s).len(),
        forall|j: int|
            0 <= j < v4_places(s).len() ==> 0 <= #[trigger] v4_places(s)[j] < s.len()
                && named_nodes(s)[j] == (
                s[v4_places(s)[j]].0,
                s[v4_places(s)[j]].1.addr.ip,
                s[v4_places(s)[j]].1.addr.port,
            ),
        forall|j: int, l: int|
            0 <= j < l < v4_places(s).len() ==> #[trigger] v4_places(s)[j] < #[trigger] v4_places(
                s,
            )[l],
        forall|i: int|
            0 <= i < s.len() && (#[trigger] s[i]).1.addr.ip is V4 ==> v4_places(s).contains(i),
    decreases s.len(),
{
    if s.len() > 0 {
        let front = s.drop_last();
        let p = v4_places(front);
        let q = v4_places(s);
        lemma_v4_places(front);
        assert forall|j: int| 0 <= j < q.len() implies 0 <= #[trigger] q[j] < s.len()
            && named_nodes(s)[j] == (s[q[j]].0, s[q[j]].1.addr.ip, s[q[j]].1.addr.port) by {
            if j < p.len() {
                assert(q[j] == p[j]);
                assert(front[p[j]] == s[p[j]]);
            }
        }
        assert forall|j: int, l: int| 0 <= j < l < q.len() implies #[trigger] q[j]
            < #[trigger] q[l] by {
            assert(q[j] == p[j]);
            if l < p.len() {
                assert(q[l] == p[l]);
            }
        }
        assert forall|i: int| 0 <= i < s.len() && (#[trigger] s[i]).1.addr.ip is V4 implies q.contains(
            i,
        ) by {
            if i < front.len() {
                assert(front[i] == s[i]);
                let j = choose|j: int| 0 <= j < p.len() && p[j] == i;
                assert(q[j] == i);
            } else {
                assert(q[q.len() - 1] == i);
            }
        }
    }
}

proof fn lemma_compact_run_names(sel: Seq<Entry>)
    requires
        whole_ids(sel),
    ensures
        names_nodes(compact_run(sel), sel),
{
    let b = compact_run(sel);
    let p = v4_places(sel);
    law_compact_nodes_read_back(sel);
    lemma_v4_places(sel);
    assert forall|j: int| 0 <= j < p.len() implies 0 <= #[trigger] p[j] < sel.len() && node_at(
        b,
        j,
        sel[p[j]],
    ) by {
        assert(named_nodes(sel)[j] == compact_nodes(b)[j]);
    }
    assert(are_places(b, sel, p));
}

/// An answer names, of the nodes that are known, the `k` that lie nearest to a target.
pub open spec fn names_nearest(
    answer: Pairs,
    known: Seq<Entry>,
    target: Seq<u8>,
    k: nat,
) -> bool {
    &&& bytes_at(answer, "nodes"@) is Some
    &&& exists|sel: Seq<Entry>| #[trigger]
        are_nearest(known, sel, target, k) && names_nodes(bytes_at(answer, "nodes"@)->0, sel)
}

proof fn lemma_names_nearest(
    answer: Pairs,
    known: Seq<Entry>,
    target: Seq<u8>,
    k: nat,
)
    requires
        sorted(known),
        whole_ids(known),
        bytes_at(answer, "nodes"@) == Some(compact_run(nearest(known, target, k))),
    ensures
        names_nearest(answer, known, target, k),
{
    let sel = nearest(known, target, k);
    lemma_nearest_are_nearest(known, target, k);
    lemma_compact_run_names(sel);
    assert(are_nearest(known, sel, target, k));
}

proof fn lemma_nodes_under_id(id: Seq<u8>, nodes: Seq<u8>)
    ensures
        ({
            let a = with_bytes(id_args(id), "nodes"@, nodes);
            &&& encodable(BModel::Dict(a), (MAX_DEPTH - 1) as nat)
            &&& bytes_at(a, "id"@) == Some(id)
            &&& bytes_at(a, "nodes"@) == Some(nodes)
        }),
{
    reveal_strlit("id");
    reveal_strlit("nodes");
    lemma_keys_differ("id"@, "nodes"@);
    lemma_id_args(id);
    let v = BModel::Bytes(nodes);
    lemma_put_encodable(id_args(id), key("nodes"@), v, (MAX_DEPTH - 2) as nat);
    law_put_lookup(id_args(id), key("nodes"@), v, key("id"@));
}

/// A node that sent a query is known from then on, under its identifier and at its address, where
/// there is room.
pub open spec fn is_known(a: DhtModel, b: DhtModel, id: Seq<u8>, addr: AddrModel, now: u64) -> bool {
    if a.routing.nodes.len() < a.cfg.max_nodes {
        &&& lookup(b.routing.nodes, id) == Some((NodeModel { id, addr, last_active: now }))
        &&& forall|other: Seq<u8>|
            other != id ==> #[trigger] lookup(b.routing.nodes, other) == lookup(
                a.routing.nodes,
                other,
            )
    } else {
        b.routing == a.routing
    }
}

proof fn lemma_noted_is_known(r: Run, id: Seq<u8>, addr: AddrModel, now: u64)
    ensures
        is_known(r.d, r.notes(id, addr, now).d, id, addr, now),
        r.notes(id, addr, now).out == r.out,
        (DhtModel { routing: r.d.routing, ..r.notes(id, addr, now).d }) == r.d,
{
    let n = NodeModel { id, addr, last_active: now };
    assert forall|other: Seq<u8>| other != id implies #[trigger] lookup(
        r.enters(id, addr, now).d.routing.nodes,
        other,
    ) == lookup(r.d.routing.nodes, other) by {
        law_put_lookup(r.d.routing.nodes, id, n, other);
    }
    law_put_lookup(r.d.routing.nodes, id, n, id);
}

/// A standard node answers a query for nodes with the nodes that it knows nearest to the target, and
/// remembers who asked. Nothing else is done.
pub proof fn law_nearest_nodes_are_named(
    r: Run,
    t: Seq<u8>,
    body: Pairs,
    args: Pairs,
    addr: AddrModel,
    fresh: Seq<char>,
    now: u64,
)
    requires
        r.d.cfg.mode == Mode::Standard,
        sorted(r.d.routing.nodes),
        whole_ids(r.d.routing.nodes),
        is_asked(body, "find_node"@, args),
        has_id(args, "id"@),
        has_id(args, "target"@),
    ensures
        ({
            let b = request_step(r, t, body, addr, fresh, now);
            let answer = answer_at(b.out.last(), addr, t);
            &&& b.out.len() == r.out.len() + 1
            &&& b.out.drop_last() == r.out
            &&& answer is Some
            &&& bytes_at(answer->0, "id"@) == Some(r.d.self_id)
            &&& names_nearest(
                answer->0,
                r.d.routing.nodes,
                bytes_at(args, "target"@)->0,
                r.d.cfg.k,
            )
            &&& is_known(r.d, b.d, bytes_at(args, "id"@)->0, addr, now)
            &&& (DhtModel { routing: r.d.routing, ..b.d }) == r.d
        }),
{
    let target = bytes_at(args, "target"@)->0;
    let near = compact_run(nearest(r.d.routing.nodes, target, r.d.cfg.k));
    let answer = with_bytes(id_args(r.d.self_id), "nodes"@, near);
    lemma_kind_read("find_node"@);
    lemma_first_letters();
    lemma_nodes_under_id(r.d.self_id, near);
    lemma_answer_reads(r, addr, t, answer);
    lemma_names_nearest(answer, r.d.routing.nodes, target, r.d.cfg.k);
    lemma_noted_is_known(r.answers(addr, t, answer), bytes_at(args, "id"@)->0, addr, now);
    assert(r.answers(addr, t, answer).out.drop_last() =~= r.out);
}

/// A crawler leaves queries for nodes unanswered, and remembers who asked.
pub proof fn law_crawler_names_nothing(
    r: Run,
    t: Seq<u8>,
    body: Pairs,
    args: Pairs,
    addr: AddrModel,
    fresh: Seq<char>,
    now: u64,
)
    requires
        r.d.cfg.mode == Mode::Crawl,
        is_asked(body, "find_node"@, args),
        has_id(args, "id"@),
    ensures
        request_step(r, t, body, addr, fresh, now).out == r.out,
        is_known(
            r.d,
            request_step(r, t, body, addr, fresh, now).d,
            bytes_at(args, "id"@)->0,
            addr,
            now,
        ),
{
    lemma_kind_read("find_node"@);
    lemma_first_letters();
    lemma_noted_is_known(r, bytes_at(args, "id"@)->0, addr, now);
}

proof fn lemma_token_answer(id: Seq<u8>, token: Seq<u8>, nodes: Seq<u8>)
    ensures
        ({
            let a = with_bytes(with_bytes(id_args(id), "token"@, token), "nodes"@, nodes);
            &&& encodable(BModel::Dict(a), (MAX_DEPTH - 1) as nat)
            &&& bytes_at(a, "id"@) == Some(id)
            &&& bytes_at(a, "token"@) == Some(token)
            &&& bytes_at(a, "nodes"@) == Some(nodes)
            &&& lookup(a, key("values"@)) is None
        }),
{
    reveal_strlit("id");
    reveal_strlit("token");
    reveal_strlit("nodes");
    reveal_strlit("values");
    assert("token"@[0] != "nodes"@[0] && "values"@[0] != "nodes"@[0] && "values"@[0]
        != "token"@[0]);
    lemma_keys_differ("id"@, "token"@);
    lemma_keys_differ("id"@, "nodes"@);
    lemma_keys_differ("id"@, "values"@);
    lemma_keys_differ("token"@, "nodes"@);
    lemma_keys_differ("token"@, "values"@);
    lemma_keys_differ("nodes"@, "values"@);
    lemma_id_args(id);
    let depth = (MAX_DEPTH - 2) as nat;
    let v = BModel::Bytes(token);
    let n = BModel::Bytes(nodes);
    let p = with_bytes(id_args(id), "token"@, token);
    let empty: Pairs = Seq::empty();
    lemma_put_encodable(id_args(id), key("token"@), v, depth);
    lemma_put_encodable(p, key("nodes"@), n, depth);
    law_put_lookup(empty, key("id"@), BModel::Bytes(id), key("values"@));
    assert(lookup(empty, key("values"@)) is None);
    law_put_lookup(id_args(id), key("token"@), v, key("id"@));
    law_put_lookup(id_args(id), key("token"@), v, key("values"@));
    law_put_lookup(p, key("nodes"@), n, key("id"@));
    law_put_lookup(p, key("nodes"@), n, key("token"@));
    law_put_lookup(p, key("nodes"@), n, key("values"@));
}

/// What follows on a query for peers beside the answer: the sender is remembered, and the owner
/// hears of the query where it wants to.
pub open spec fn heard_of_query(
    r: Run,
    b: Run,
    id: Seq<u8>,
    ih: Seq<u8>,
    addr: AddrModel,
    now: u64,
) -> bool {
    &&& is_known(r.d, b.d, id, addr, now)
    &&& b.d.peers == r.d.peers
    &&& b.d.trans == r.d.trans
    &&& b.d.blacklist == r.d.blacklist
    &&& b.out.len() == r.out.len() + if r.d.callbacks.on_get_peers {
        2int
    } else {
        1
    }
    &&& b.out.take(r.out.len() as int) == r.out
    &&& r.d.callbacks.on_get_peers ==> b.out.last() == (ActionModel::GetPeers {
        info_hash: crate::hexcode::hex_text(ih),
        ip: ip_text(addr.ip),
        port: addr.port,
    })
}

proof fn lemma_heard_of_query(
    r: Run,
    t: Seq<u8>,
    body: Pairs,
    args: Pairs,
    addr: AddrModel,
    fresh: Seq<char>,
    now: u64,
)
    requires
        is_asked(body, "get_peers"@, args),
        has_id(args, "id"@),
        has_id(args, "info_hash"@),
        ({
            let ih = bytes_at(args, "info_hash"@)->0;
            let token = r.d.tokens.token(ip_text(addr.ip), fresh, now);
            encodable(
                BModel::Dict(get_peers_answer(r.d, ih, token)),
                (MAX_DEPTH - 1) as nat,
            )
        }),
    ensures
        ({
            let b = request_step(r, t, body, addr, fresh, now);
            let ih = bytes_at(args, "info_hash"@)->0;
            let token = r.d.tokens.token(ip_text(addr.ip), fresh, now);
            &&& heard_of_query(r, b, bytes_at(args, "id"@)->0, ih, addr, now)
            &&& answer_at(b.out[r.out.len() as int], addr, t) == Some(
                get_peers_answer(r.d, ih, token),
            )
        }),
{
    let id = bytes_at(args, "id"@)->0;
    let ih = bytes_at(args, "info_hash"@)->0;
    let ip = ip_text(addr.ip);
    let token = r.d.tokens.token(ip, fresh, now);
    let d = DhtModel { tokens: r.d.tokens.issued(ip, fresh, now), ..r.d };
    let answer = get_peers_answer(r.d, ih, token);
    assert(get_peers_answer(d, ih, token) == answer);
    lemma_kind_read("get_peers"@);
    lemma_first_letters();
    let r0 = Run { d, ..r };
    let r1 = r0.answers(addr, t, answer);
    lemma_answer_reads(r0, addr, t, answer);
    let e = ActionModel::GetPeers {
        info_hash: crate::hexcode::hex_text(ih),
        ip,
        port: addr.port,
    };
    let r2 = r1.tells(d.callbacks.on_get_peers, e);
    lemma_noted_is_known(r2, id, addr, now);
    let b = request_step(r, t, body, addr, fresh, now);
    assert(b == r2.notes(id, addr, now));
    assert(b.out.take(r.out.len() as int) =~= r.out);
}

/// A standard node that stores no peer of an info-hash answers a query for them with a token and
/// with the nodes that it knows nearest to the info-hash.
pub proof fn law_nearest_nodes_stand_in_for_peers(
    r: Run,
    t: Seq<u8>,
    body: Pairs,
    args: Pairs,
    addr: AddrModel,
    fresh: Seq<char>,
    now: u64,
)
    requires
        r.d.cfg.mode == Mode::Standard,
        sorted(r.d.routing.nodes),
        whole_ids(r.d.routing.nodes),
        is_asked(body, "get_peers"@, args),
        has_id(args, "id"@),
        has_id(args, "info_hash"@),
        !r.d.peers.table.dom().contains(bytes_at(args, "info_hash"@)->0),
    ensures
        ({
            let b = request_step(r, t, body, addr, fresh, now);
            let answer = answer_at(b.out[r.out.len() as int], addr, t);
            let ih = bytes_at(args, "info_hash"@)->0;
            &&& heard_of_query(r, b, bytes_at(args, "id"@)->0, ih, addr, now)
            &&& answer is Some
            &&& bytes_at(answer->0, "id"@) == Some(r.d.self_id)
            &&& bytes_at(answer->0, "token"@) is Some
            &&& lookup(answer->0, key("values"@)) is None
            &&& names_nearest(answer->0, r.d.routing.nodes, ih, r.d.cfg.k)
        }),
{
    let ih = bytes_at(args, "info_hash"@)->0;
    let token = r.d.tokens.token(ip_text(addr.ip), fresh, now);
    let near = compact_run(nearest(r.d.routing.nodes, ih, r.d.cfg.k));
    let answer = get_peers_answer(r.d, ih, token);
    lemma_token_answer(r.d.self_id, key(token), near);
    lemma_heard_of_query(r, t, body, args, addr, fresh, now);
    lemma_names_nearest(answer, r.d.routing.nodes, ih, r.d.cfg.k);
}

/// A crawler answers a query for peers with a token, and with no nodes, next to whatever is asked
/// for.
pub proof fn law_crawler_gives_a_token(
    r: Run,
    t: Seq<u8>,
    body: Pairs,
    args: Pairs,
    addr: AddrModel,
    fresh: Seq<char>,
    now: u64,
)
    requires
        r.d.cfg.mode == Mode::Crawl,
        r.d.self_id.len() == 20,
        is_asked(body, "get_peers"@, args),
        has_id(args, "id"@),
        has_id(args, "info_hash"@),
    ensures
        ({
            let b = request_step(r, t, body, addr, fresh, now);
            let answer = answer_at(b.out[r.out.len() as int], addr, t);
            let ih = bytes_at(args, "info_hash"@)->0;
            &&& heard_of_query(r, b, bytes_at(args, "id"@)->0, ih, addr, now)
            &&& answer is Some
            &&& bytes_at(answer->0, "id"@) is Some
            &&& shows_id(r.d, ih, bytes_at(answer->0, "id"@)->0)
            &&& bytes_at(answer->0, "token"@) is Some
            &&& bytes_at(answer->0, "nodes"@) is Some
            &&& bytes_at(answer->0, "nodes"@)->0.len() == 0
            &&& lookup(answer->0, key("values"@)) is None
        }),
{
    let ih = bytes_at(args, "info_hash"@)->0;
    let token = r.d.tokens.token(ip_text(addr.ip), fresh, now);
    lemma_token_answer(r.d.id_for(Some(ih)), key(token), Seq::empty());
    lemma_heard_of_query(r, t, body, args, addr, fresh, now);
    lemma_shown(r.d, ih);
}

/// A value is the compact form of an address: four bytes of the host, two of the port.
pub open spec fn writes_address(v: BModel, ip: IpModel, port: u16) -> bool {
    match v {
        BModel::Bytes(b) => {
            &&& b.len() == 6
            &&& ip == IpModel::V4(b[0], b[1], b[2], b[3])
            &&& port == b[4] * 256 + b[5]
        },
        _ => false,
    }
}

proof fn lemma_values_written(s: Seq<PeerModel>)
    requires
        forall|i: int| 0 <= i < s.len() ==> (#[trigger] s[i]).ip is V4,
    ensures
        compact_values(s).len() == s.len(),
        forall|i: int|
            0 <= i < s.len() ==> writes_address(#[trigger] compact_values(s)[i], s[i].ip, s[i].port),
        forall|i: int| 0 <= i < s.len() ==> (#[trigger] compact_values(s)[i]) is Bytes,
    decreases s.len(),
{
    if s.len() > 0 {
        let front = s.drop_last();
        let v = compact_values(s);
        let u = compact_values(front);
        assert forall|i: int| 0 <= i < front.len() implies (#[trigger] front[i]).ip is V4 by {
            assert(front[i] == s[i]);
        }
        lemma_values_written(front);
        assert(s[s.len() - 1].ip is V4);
        let a = AddrModel { ip: s.last().ip, port: s.last().port };
        law_compact_addr_read_back(a);
        assert forall|i: int| 0 <= i < s.len() implies writes_address(
            #[trigger] v[i],
            s[i].ip,
            s[i].port,
        ) by {
            if i < front.len() {
                assert(v[i] == u[i]);
                assert(writes_address(u[i], front[i].ip, front[i].port));
            }
        }
    }
}

proof fn lemma_values_answer(id: Seq<u8>, token: Seq<u8>, values: Seq<BModel>)
    requires
        forall|i: int| 0 <= i < values.len() ==> (#[trigger] values[i]) is Bytes,
    ensures
        ({
            let a = with_bytes(
                put(id_args(id), key("values"@), BModel::List(values)),
                "token"@,
                token,
            );
            &&& encodable(BModel::Dict(a), (MAX_DEPTH - 1) as nat)
            &&& bytes_at(a, "id"@) == Some(id)
            &&& bytes_at(a, "token"@) == Some(token)
            &&& list_at(a, "values"@) == Some(values)
            &&& lookup(a, key("nodes"@)) is None
        }),
{
    reveal_strlit("id");
    reveal_strlit("token");
    reveal_strlit("nodes");
    reveal_strlit("values");
    assert("token"@[0] != "nodes"@[0] && "values"@[0] != "nodes"@[0] && "values"@[0]
        != "token"@[0]);
    lemma_keys_differ("id"@, "token"@);
    lemma_keys_differ("id"@, "nodes"@);
    lemma_keys_differ("id"@, "values"@);
    lemma_keys_differ("token"@, "nodes"@);
    lemma_keys_differ("token"@, "values"@);
    lemma_keys_differ("nodes"@, "values"@);
    lemma_id_args(id);
    let depth = (MAX_DEPTH - 2) as nat;
    let v = BModel::List(values);
    let b = BModel::Bytes(token);
    let p = put(id_args(id), key("values"@), v);
    let empty: Pairs = Seq::empty();
    assert forall|i: int| 0 <= i < values.len() implies encodable(
        #[trigger] values[i],
        (depth - 1) as nat,
    ) by {
        assert(values[i] is Bytes);
    }
    assert(encodable(v, depth));
    lemma_put_encodable(id_args(id), key("values"@), v, depth);
    lemma_put_encodable(p, key("token"@), b, depth);
    law_put_lookup(empty, key("id"@), BModel::Bytes(id), key("nodes"@));
    assert(lookup(empty, key("nodes"@)) is None);
    law_put_lookup(id_args(id), key("values"@), v, key("id"@));
    law_put_lookup(id_args(id), key("values"@), v, key("nodes"@));
    law_put_lookup(p, key("token"@), b, key("id"@));
    law_put_lookup(p, key("token"@), b, key("values"@));
    law_put_lookup(p, key("token"@), b, key("nodes"@));
}

/// A standard node that stores peers of an info-hash answers a query for them with a token and with
/// these peers, the last `k` of them or all, and with no nodes.
pub proof fn law_stored_peers_are_handed_out(
    r: Run,
    t: Seq<u8>,
    body: Pairs,
    args: Pairs,
    addr: AddrModel,
    fresh: Seq<char>,
    now: u64,
    stored: Seq<PeerModel>,
)
    requires
        r.d.cfg.mode == Mode::Standard,
        r.d.cfg.k > 0,
        is_asked(body, "get_peers"@, args),
        has_id(args, "id"@),
        has_id(args, "info_hash"@),
        r.d.peers.table.dom().contains(bytes_at(args, "info_hash"@)->0),
        r.d.peers.table[bytes_at(args, "info_hash"@)->0] == stored,
        stored.len() > 0,
        forall|i: int| 0 <= i < stored.len() ==> (#[trigger] stored[i]).ip is V4,
    ensures
        ({
            let b = request_step(r, t, body, addr, fresh, now);
            let answer = answer_at(b.out[r.out.len() as int], addr, t);
            let ih = bytes_at(args, "info_hash"@)->0;
            let n = if stored.len() < r.d.cfg.k {
                stored.len() as int
            } else {
                r.d.cfg.k as int
            };
            &&& heard_of_query(r, b, bytes_at(args, "id"@)->0, ih, addr, now)
            &&& answer is Some
            &&& bytes_at(answer->0, "id"@) == Some(r.d.self_id)
            &&& bytes_at(answer->0, "token"@) is Some
            &&& lookup(answer->0, key("nodes"@)) is None
            &&& list_at(answer->0, "values"@) is Some
            &&& list_at(answer->0, "values"@)->0.len() == n
            &&& forall|i: int|
                0 <= i < n ==> writes_address(
                    #[trigger] list_at(answer->0, "values"@)->0[i],
                    stored[stored.len() - n + i].ip,
                    stored[stored.len() - n + i].port,
                )
        }),
{
    let ih = bytes_at(args, "info_hash"@)->0;
    let token = r.d.tokens.token(ip_text(addr.ip), fresh, now);
    let last = newest(stored, r.d.cfg.k);
    assert forall|i: int| 0 <= i < last.len() implies (#[trigger] last[i]).ip is V4 by {
        assert(last[i] == stored[stored.len() - last.len() + i]);
    }
    let values = compact_values(last);
    lemma_values_written(last);
    lemma_values_answer(r.d.self_id, key(token), values);
    lemma_heard_of_query(r, t, body, args, addr, fresh, now);
    let b = request_step(r, t, body, addr, fresh, now);
    let answer = get_peers_answer(r.d, ih, token);
    assert(list_at(answer, "values"@) == Some(values));
    assert forall|i: int| 0 <= i < last.len() implies writes_address(
        #[trigger] values[i],
        stored[stored.len() - last.len() + i].ip,
        stored[stored.len() - last.len() + i].port,
    ) by {
        assert(last[i] == stored[stored.len() - last.len() + i]);
    }
}

proof fn lemma_announcement_taken(
    r: Run,
    t: Seq<u8>,
    body: Pairs,
    args: Pairs,
    addr: AddrModel,
    fresh: Seq<char>,
    now: u64,
    named: u16,
    token: Seq<u8>,
)
    requires
        r.d.cfg.mode == Mode::Standard,
        is_asked(body, "announce_peer"@, args),
        has_id(args, "id"@),
        has_id(args, "info_hash"@),
        int_at(args, "port"@) == Some(named as i64),
        bytes_at(args, "token"@) == Some(token),
        r.d.tokens.accepts(ip_text(addr.ip), readable(token), now),
    ensures
        ({
            let ih = bytes_at(args, "info_hash"@)->0;
            let port = announced_port(args, named as i64, addr);
            let p = PeerModel { ip: addr.ip, port, token: Some(readable(token)) };
            let e = ActionModel::AnnouncePeer {
                info_hash: crate::hexcode::hex_text(ih),
                ip: ip_text(addr.ip),
                port,
            };
            let told = r.stores(ih, p).answers(addr, t, id_args(r.d.self_id)).tells(
                r.d.callbacks.on_announce_peer,
                e,
            );
            request_step(r, t, body, addr, fresh, now) == told.notes(
                bytes_at(args, "id"@)->0,
                addr,
                now,
            )
        }),
{
    lemma_kind_read("announce_peer"@);
    lemma_first_letters();
}

/// A standard node that is told of a peer with a token that its host was given stores the peer, says
/// so, remembers who told, and tells its owner where it wants to hear of it. The peer is at the host
/// that sent the packet, at the port that is named, or at that of the packet where it is implied.
pub proof fn law_announced_peer_is_stored(
    r: Run,
    t: Seq<u8>,
    body: Pairs,
    args: Pairs,
    addr: AddrModel,
    fresh: Seq<char>,
    now: u64,
    named: u16,
    token: Seq<u8>,
)
    requires
        r.d.cfg.mode == Mode::Standard,
        r.d.peers.k > 0,
        is_asked(body, "announce_peer"@, args),
        has_id(args, "id"@),
        has_id(args, "info_hash"@),
        int_at(args, "port"@) == Some(named as i64),
        bytes_at(args, "token"@) == Some(token),
        r.d.tokens.accepts(ip_text(addr.ip), readable(token), now),
        r.d.peers.table.dom().len() < crate::peers::MAX_INFOHASHES
            || r.d.peers.table.dom().contains(bytes_at(args, "info_hash"@)->0),
    ensures
        ({
            let b = request_step(r, t, body, addr, fresh, now);
            let ih = bytes_at(args, "info_hash"@)->0;
            let port = match int_at(args, "implied_port"@) {
                Some(n) => if n != 0 {
                    addr.port
                } else {
                    named
                },
                None => named,
            };
            let answer = answer_at(b.out[r.out.len() as int], addr, t);
            &&& answer is Some
            &&& bytes_at(answer->0, "id"@) == Some(r.d.self_id)
            &&& b.d.peers.table.dom().contains(ih)
            &&& b.d.peers.table[ih].len() > 0
            &&& b.d.peers.table[ih].last().ip == addr.ip
            &&& b.d.peers.table[ih].last().port == port
            &&& is_known(r.d, b.d, bytes_at(args, "id"@)->0, addr, now)
            &&& b.out.len() == r.out.len() + if r.d.callbacks.on_announce_peer {
                2int
            } else {
                1
            }
            &&& r.d.callbacks.on_announce_peer ==> b.out.last() == (ActionModel::AnnouncePeer {
                info_hash: crate::hexcode::hex_text(ih),
                ip: ip_text(addr.ip),
                port,
            })
        }),
{
    let id = bytes_at(args, "id"@)->0;
    let ih = bytes_at(args, "info_hash"@)->0;
    let port = announced_port(args, named as i64, addr);
    assert(named_port(named as i64) == named);
    let p = PeerModel { ip: addr.ip, port, token: Some(readable(token)) };
    lemma_id_args(r.d.self_id);
    let r1 = r.stores(ih, p);
    lemma_answer_reads(r1, addr, t, id_args(r.d.self_id));
    let r2 = r1.answers(addr, t, id_args(r.d.self_id));
    let e = ActionModel::AnnouncePeer {
        info_hash: crate::hexcode::hex_text(ih),
        ip: ip_text(addr.ip),
        port,
    };
    let r3 = r2.tells(r.d.callbacks.on_announce_peer, e);
    lemma_noted_is_known(r3, id, addr, now);
    assert(r1.d.peers.table.dom().contains(ih) && r1.d.peers.table[ih].len() > 0
        && r1.d.peers.table[ih].last() == p) by {
        crate::peers::law_insert_then_get(r.d.peers, ih, p, r.d.peers.k, ih);
    }
    lemma_announcement_taken(r, t, body, args, addr, fresh, now, named, token);
}

/// A query that does not say who asks, or not what for, is refused with the error 203, and changes
/// nothing.
pub proof fn law_unformed_query_is_refused(
    r: Run,
    t: Seq<u8>,
    body: Pairs,
    q: Seq<char>,
    args: Pairs,
    addr: AddrModel,
    fresh: Seq<char>,
    now: u64,
    text: Seq<char>,
)
    requires
        is_asked(body, q, args),
        ({
            ||| !has_id(args, "id"@) && text == "invalid id"@
            ||| has_id(args, "id"@) && q == "find_node"@ && r.d.cfg.mode == Mode::Standard
                && !has_id(args, "target"@) && text == "invalid target"@
            ||| has_id(args, "id"@) && q == "get_peers"@ && !has_id(args, "info_hash"@) && text
                == "invalid info_hash"@
        }),
    ensures
        request_step(r, t, body, addr, fresh, now).d == r.d,
        request_step(r, t, body, addr, fresh, now).out.len() == r.out.len() + 1,
        request_step(r, t, body, addr, fresh, now).out.drop_last() == r.out,
        refuses_at(
            request_step(r, t, body, addr, fresh, now).out.last(),
            addr,
            t,
            203,
            text,
        ),
{
    lemma_kind_read(q);
    lemma_first_letters();
    law_error_read_back(t, 203, text);
    let e = error_msg(t, 203, text);
    lemma_error_list(t, 203, text);
    let b = r.refuses(addr, t, text);
    assert(b.out.drop_last() =~= r.out);
    assert(request_step(r, t, body, addr, fresh, now) == b);
}

proof fn lemma_error_list(t: Seq<u8>, code: i64, text: Seq<char>)
    ensures
        list_at(error_msg(t, code, text), "e"@) == Some(
            seq![BModel::Int(code), BModel::Bytes(key(text))],
        ),
{
    law_put_lookup(
        headed(t, "e"@),
        key("e"@),
        BModel::List(seq![BModel::Int(code), BModel::Bytes(key(text))]),
        key("e"@),
    );
}

/// A query of another kind is not answered; who sent it is remembered.
pub proof fn law_unknown_query_is_not_answered(
    r: Run,
    t: Seq<u8>,
    body: Pairs,
    q: Seq<char>,
    args: Pairs,
    addr: AddrModel,
    fresh: Seq<char>,
    now: u64,
)
    requires
        is_asked(body, q, args),
        has_id(args, "id"@),
        q != "ping"@,
        q != "find_node"@,
        q != "get_peers"@,
        q != "announce_peer"@,
    ensures
        request_step(r, t, body, addr, fresh, now).out == r.out,
        is_known(
            r.d,
            request_step(r, t, body, addr, fresh, now).d,
            bytes_at(args, "id"@)->0,
            addr,
            now,
        ),
{
    lemma_kind_read(q);
    lemma_noted_is_known(r, bytes_at(args, "id"@)->0, addr, now);
}

/// What is no message, and a message of an unknown kind, has no effect.
pub proof fn law_unreadable_packet_does_nothing(
    r: Run,
    data: Seq<u8>,
    addr: AddrModel,
    fresh: Seq<char>,
    now: u64,
)
    requires
        match message_in(data) {
            Some(m) => m.y != "q"@ && m.y != "r"@ && m.y != "e"@,
            None => true,
        },
    ensures
        packet_step(r, data, addr, fresh, now) == r,
{
}

/// A packet is handled as the query or the answer that it holds, unless its sender is blacklisted.
pub proof fn law_packet_is_handled_by_its_kind(
    r: Run,
    data: Seq<u8>,
    addr: AddrModel,
    fresh: Seq<char>,
    now: u64,
    m: MessageModel,
)
    requires
        !shunned(r.d, addr),
        message_in(data) == Some(m),
    ensures
        m.y == "q"@ ==> packet_step(r, data, addr, fresh, now) == request_step(
            r,
            m.t,
            m.body,
            addr,
            fresh,
            now,
        ),
        m.y == "r"@ ==> packet_step(r, data, addr, fresh, now) == response_step(
            r,
            m.t,
            m.body,
            addr,
            now,
        ),
{
    reveal_strlit("q");
    reveal_strlit("r");
    assert("q"@[0] != "r"@[0]);
}

/// An announcement that lacks the info-hash, the port or the token has no effect.
pub proof fn law_incomplete_announcement_does_nothing(
    r: Run,
    t: Seq<u8>,
    body: Pairs,
    args: Pairs,
    addr: AddrModel,
    fresh: Seq<char>,
    now: u64,
)
    requires
        is_asked(body, "announce_peer"@, args),
        has_id(args, "id"@),
        !has_id(args, "info_hash"@) || int_at(args, "port"@) is None || bytes_at(args, "token"@)
            is None,
    ensures
        request_step(r, t, body, addr, fresh, now) == r,
{
    lemma_kind_read("announce_peer"@);
    lemma_first_letters();
}

/// A port is written in the lowest sixteen bits of a number.
pub proof fn law_port_is_the_lowest_bits(n: i64, port: u16, high: int)
    requires
        0 <= n < 0x8000_0000,
        n == high * 0x1_0000 + port,
    ensures
        named_port(n) == port,
{
}

/// Whoever is asked is told who asks: a query for peers shows the identifier that goes with the
/// info-hash, a query for nodes and a ping the node's own.
pub proof fn law_questions_tell_who_asks(
    r: Run,
    addr: AddrModel,
    ih: Seq<u8>,
    target: Seq<u8>,
    port: Option<u16>,
    now: u64,
)
    requires
        r.d.self_id.len() == 20,
        ih.len() == 20,
    ensures
        ({
            let a = r.asks_get_peers(addr, ih, port, now).out.last();
            asks_for(a, addr, "get_peers"@, "info_hash"@, ih) && shows_id(
                r.d,
                ih,
                bytes_at(query_at(a, addr)->0.args, "id"@)->0,
            )
        }),
        ({
            let a = r.asks_find_node(addr, target, now).out.last();
            asks_for(a, addr, "find_node"@, "target"@, target) && bytes_at(
                query_at(a, addr)->0.args,
                "id"@,
            ) == Some(r.d.self_id)
        }),
        ({
            let a = r.asks_ping(addr, now).out.last();
            is_query(a, addr, "ping"@) && bytes_at(query_at(a, addr)->0.args, "id"@) == Some(
                r.d.self_id,
            )
        }),
{
    let shown = r.d.id_for(Some(ih));
    let p = r.d.get_peers_args(ih);
    lemma_peers_query(shown, ih);
    lemma_asks_reads(r, addr, "get_peers"@, p, Some(ih), None, port, now, addr);
    let f = r.d.find_node_args(target);
    lemma_nodes_query(r.d.id_for(None), target);
    lemma_asks_reads(r, addr, "find_node"@, f, None, Some(target), None, now, addr);
    lemma_id_args(r.d.id_for(None));
    lemma_asks_reads(r, addr, "ping"@, id_args(r.d.id_for(None)), None, None, None, now, addr);
}

} // verus!
