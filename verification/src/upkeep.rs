//! What the node does from time to time to look after its queries and the nodes that it knows.

use vstd::prelude::*;
use vstd::string::*;
use crate::krpc::{law_query_read_back, Pairs};
use crate::laws::{
    kept, lemma_cleared, lemma_give_up, lemma_id_args, lemma_kept_trans, lemma_nodes_query,
    lemma_peers_query, lemma_ping, lemma_pruned, lemma_refresh, shunned,
};
use crate::protocol::{
    cleared, drop_steps, find_steps, give_up_steps, id_args, ping_steps, refresh_step, retry_step,
    retry_steps, tick_step, ActionModel, Run, QUERY_TIMEOUT,
};
use crate::routing::{law_expired_nodes_are_found, law_refresh_plan_is_small, Entry};
use crate::service::{
    asks_for, handed_out, is_kind, is_query, law_begun_query_waits,
    law_only_the_listed_address_is_shut_out, lemma_asks_reads, lemma_find_every_one, lemma_get,
    lemma_no_query_waits, orderly, query_at, waits,
};
use crate::transaction::{
    due, law_begin_then_get, law_due_is_retried_or_given_up, law_finish, law_retry, TransModel,
    TxModel, MAX_TRANSACTIONS,
};
use crate::types::{addr_text, ip_text, AddrModel, Mode};
use crate::util::{be_bytes, law_be_bytes_injective};

verus! {

/// An action sends a query again: to the same address, under the same transaction, of the same kind
/// and for the same.
pub open spec fn resends(a: ActionModel, x: TxModel, name: Seq<char>, v: Seq<u8>) -> bool {
    asks_for(a, x.addr, x.qtype, name, v) && query_at(a, x.addr)->0.t == x.id
}

/// What a query that waits asks for, and under which name.
pub open spec fn is_about(x: TxModel, name: Seq<char>, v: Seq<u8>) -> bool {
    ||| x.qtype == "get_peers"@ && name == "info_hash"@ && x.info_hash == Some(v)
    ||| x.qtype == "find_node"@ && name == "target"@ && x.target == Some(v)
}

proof fn lemma_retry_reads(r: Run, x: TxModel, now: u64, name: Seq<char>, v: Seq<u8>)
    requires
        is_about(x, name, v),
    ensures
        retry_step(r, x, now).out.len() == r.out.len() + 1,
        resends(retry_step(r, x, now).out.last(), x, name, v),
{
    reveal_strlit("get_peers");
    reveal_strlit("find_node");
    assert("get_peers"@[0] != "find_node"@[0]);
    if x.qtype == "get_peers"@ {
        let a = r.d.get_peers_args(v);
        lemma_peers_query(r.d.id_for(Some(v)), v);
        law_query_read_back(x.id, "get_peers"@, a);
    } else {
        let a = r.d.find_node_args(v);
        lemma_nodes_query(r.d.id_for(None), v);
        law_query_read_back(x.id, "find_node"@, a);
    }
}

proof fn lemma_retry_prefix(r: Run, s: Seq<TxModel>, now: u64)
    ensures
        r.out.len() <= retry_steps(r, s, now).out.len(),
        forall|i: int|
            0 <= i < r.out.len() ==> #[trigger] retry_steps(r, s, now).out[i] == r.out[i],
        retry_steps(r, s, now).d.blacklist == r.d.blacklist,
        retry_steps(r, s, now).d.routing == r.d.routing,
        retry_steps(r, s, now).d.cfg == r.d.cfg,
    decreases s.len(),
{
    if s.len() > 0 {
        lemma_retry_prefix(r, s.drop_last(), now);
    }
}

proof fn lemma_retry_sends(
    r: Run,
    s: Seq<TxModel>,
    now: u64,
    i: int,
    name: Seq<char>,
    v: Seq<u8>,
)
    requires
        0 <= i < s.len(),
        is_about(s[i], name, v),
    ensures
        exists|k: int|
            r.out.len() <= k < retry_steps(r, s, now).out.len() && #[trigger] resends(
                retry_steps(r, s, now).out[k],
                s[i],
                name,
                v,
            ),
    decreases s.len(),
{
    let front = s.drop_last();
    let b = retry_steps(r, front, now);
    let c = retry_steps(r, s, now);
    lemma_retry_prefix(r, front, now);
    if i < front.len() {
        assert(front[i] == s[i]);
        lemma_retry_sends(r, front, now, i, name, v);
        let k = choose|k: int| r.out.len() <= k < b.out.len() && #[trigger] resends(
            b.out[k],
            s[i],
            name,
            v,
        );
        assert(c.out[k] == b.out[k]);
    } else {
        lemma_retry_reads(b, s[i], now, name, v);
        assert(resends(c.out[c.out.len() - 1], s[i], name, v));
    }
}

/// The state after queries were sent again.
spec fn retried(r: Run, now: u64) -> Run {
    retry_steps(r, r.d.trans.to_retry(QUERY_TIMEOUT, r.d.cfg.try_times, now), now)
}

/// The state after queries were given up.
spec fn given_up(r: Run, managed: bool, now: u64) -> Run {
    give_up_steps(
        retried(r, now),
        r.d.trans.to_remove(QUERY_TIMEOUT, r.d.cfg.try_times, now),
        managed,
        now,
    )
}

proof fn lemma_rest_of_tick(r: Run, managed: bool, noise: Seq<u8>, now: u64)
    requires
        r.d.routing.nodes.len() > 0,
    ensures
        kept(retried(r, now), tick_step(r, managed, noise, now)),
        kept(given_up(r, managed, now), tick_step(r, managed, noise, now)),
        kept(
            refresh_step(given_up(r, managed, now), noise, now),
            tick_step(r, managed, noise, now),
        ),
{
    let r1 = retried(r, now);
    let over = r.d.trans.to_remove(QUERY_TIMEOUT, r.d.cfg.try_times, now);
    let r2 = given_up(r, managed, now);
    lemma_give_up(r1, over, managed, now);
    let r3 = refresh_step(r2, noise, now);
    lemma_refresh(r2, noise, now);
    let end = tick_step(r, managed, noise, now);
    if managed {
        let e = r3.d.routing.expired(r3.d.cfg.node_expired_after, now);
        let r4 = ping_steps(r3, e, now);
        lemma_ping(r3, e, now);
        let r5 = cleared(r4, now);
        lemma_cleared(r4, now);
        lemma_kept_trans(r3, r4, r5);
        lemma_pruned(r5, now);
        lemma_kept_trans(r3, r5, end);
    } else {
        lemma_cleared(r3, now);
    }
    lemma_kept_trans(r2, r3, end);
    lemma_kept_trans(r1, r2, end);
}

/// A query for peers or for nodes that has waited as long as it is given, and has not been tried
/// often enough, is sent again.
pub proof fn law_due_query_is_sent_again(
    r: Run,
    managed: bool,
    noise: Seq<u8>,
    now: u64,
    i: int,
    name: Seq<char>,
    v: Seq<u8>,
)
    requires
        r.d.routing.nodes.len() > 0,
        0 <= i < r.d.trans.entries.len(),
        due(r.d.trans.entries[i], 10_000_000_000, now),
        r.d.trans.entries[i].retries < r.d.cfg.try_times,
        is_about(r.d.trans.entries[i], name, v),
    ensures
        exists|k: int|
            r.out.len() <= k < tick_step(r, managed, noise, now).out.len() && #[trigger] resends(
                tick_step(r, managed, noise, now).out[k],
                r.d.trans.entries[i],
                name,
                v,
            ),
{
    let x = r.d.trans.entries[i];
    let s = r.d.trans.to_retry(QUERY_TIMEOUT, r.d.cfg.try_times, now);
    law_due_is_retried_or_given_up(r.d.trans, QUERY_TIMEOUT, r.d.cfg.try_times, now, i);
    let j = choose|j: int| 0 <= j < s.len() && s[j] == x;
    lemma_retry_sends(r, s, now, j, name, v);
    lemma_rest_of_tick(r, managed, noise, now);
    let b = retried(r, now);
    let end = tick_step(r, managed, noise, now);
    let k = choose|k: int| r.out.len() <= k < b.out.len() && #[trigger] resends(
        b.out[k],
        x,
        name,
        v,
    );
    assert(end.out[k] == b.out[k]);
}

proof fn lemma_retry_leaves_alone(r: Run, s: Seq<TxModel>, now: u64, t: Seq<u8>)
    requires
        r.d.trans.valid(),
        forall|i: int| 0 <= i < s.len() ==> (#[trigger] s[i]).id != t,
    ensures
        retry_steps(r, s, now).d.trans.valid(),
        retry_steps(r, s, now).d.trans.get(t) == r.d.trans.get(t),
    decreases s.len(),
{
    if s.len() > 0 {
        let front = s.drop_last();
        assert forall|i: int| 0 <= i < front.len() implies (#[trigger] front[i]).id != t by {
            assert(front[i] == s[i]);
        }
        lemma_retry_leaves_alone(r, front, now, t);
        assert(s[s.len() - 1].id != t);
        law_retry(retry_steps(r, front, now).d.trans, s.last().id, now, t);
    }
}

proof fn lemma_give_up_lists(
    r: Run,
    s: Seq<TxModel>,
    managed: bool,
    now: u64,
    i: int,
    x: TxModel,
)
    requires
        r.d.trans.valid(),
        0 <= i < s.len(),
        s[i].id == x.id,
        forall|j: int, l: int|
            0 <= j < l < s.len() ==> (#[trigger] s[j]).id != (#[trigger] s[l]).id,
        r.d.trans.get(x.id) == Some(x),
        !managed || x.qtype != "ping"@,
        r.d.blacklist.listed.dom().finite(),
        r.d.blacklist.listed.dom().len() + s.len() <= r.d.blacklist.max_size,
    ensures
        ({
            let b = give_up_steps(r, s, managed, now).d.blacklist;
            let k = crate::blacklist::black_key(ip_text(x.addr.ip), Some(x.addr.port));
            b.listed.dom().contains(k) && b.listed[k].1 == now
        }),
    decreases s.len(),
{
    let front = s.drop_last();
    let b = give_up_steps(r, front, managed, now);
    let k = crate::blacklist::black_key(ip_text(x.addr.ip), Some(x.addr.port));
    lemma_give_up_room(r, front, managed, now);
    if i < front.len() {
        assert(front[i] == s[i]);
        assert forall|j: int, l: int| 0 <= j < l < front.len() implies (#[trigger] front[j]).id != (
        #[trigger] front[l]).id by {
            assert(front[j] == s[j] && front[l] == s[l]);
        }
        lemma_give_up_lists(r, front, managed, now, i, x);
    } else {
        assert forall|j: int| 0 <= j < front.len() implies (#[trigger] front[j]).id != x.id by {
            assert(s[j].id != s[i].id);
        }
        lemma_give_up_leaves_alone(r, front, managed, now, x.id);
        assert(b.d.trans.get(s.last().id) == Some(x));
    }
}

proof fn lemma_give_up_room(r: Run, s: Seq<TxModel>, managed: bool, now: u64)
    requires
        r.d.blacklist.listed.dom().finite(),
    ensures
        ({
            let b = give_up_steps(r, s, managed, now).d.blacklist;
            &&& b.listed.dom().finite()
            &&& b.listed.dom().len() <= r.d.blacklist.listed.dom().len() + s.len()
            &&& b.max_size == r.d.blacklist.max_size
        }),
    decreases s.len(),
{
    if s.len() > 0 {
        lemma_give_up_room(r, s.drop_last(), managed, now);
    }
}

proof fn lemma_give_up_leaves_alone(r: Run, s: Seq<TxModel>, managed: bool, now: u64, t: Seq<u8>)
    requires
        r.d.trans.valid(),
        forall|i: int| 0 <= i < s.len() ==> (#[trigger] s[i]).id != t,
    ensures
        give_up_steps(r, s, managed, now).d.trans.valid(),
        give_up_steps(r, s, managed, now).d.trans.get(t) == r.d.trans.get(t),
    decreases s.len(),
{
    if s.len() > 0 {
        let front = s.drop_last();
        assert forall|i: int| 0 <= i < front.len() implies (#[trigger] front[i]).id != t by {
            assert(front[i] == s[i]);
        }
        lemma_give_up_leaves_alone(r, front, managed, now, t);
        assert(s[s.len() - 1].id != t);
        law_finish(give_up_steps(r, front, managed, now).d.trans, s.last().id, t);
    }
}

proof fn lemma_filter_apart(s: Seq<TxModel>, f: spec_fn(TxModel) -> bool)
    requires
        forall|i: int, j: int|
            0 <= i < j < s.len() ==> (#[trigger] s[i]).id != (#[trigger] s[j]).id,
    ensures
        forall|i: int, j: int|
            0 <= i < j < s.filter(f).len() ==> (#[trigger] s.filter(f)[i]).id != (
            #[trigger] s.filter(f)[j]).id,
        forall|i: int|
            0 <= i < s.filter(f).len() ==> s.contains(#[trigger] s.filter(f)[i]) && f(
                s.filter(f)[i],
            ),
    decreases s.len(),
{
    reveal(Seq::filter);
    if s.len() > 0 {
        let front = s.drop_last();
        assert forall|i: int, j: int| 0 <= i < j < front.len() implies (#[trigger] front[i]).id != (
        #[trigger] front[j]).id by {
            assert(front[i] == s[i] && front[j] == s[j]);
        }
        lemma_filter_apart(front, f);
        let g = front.filter(f);
        let h = s.filter(f);
        assert forall|i: int| 0 <= i < h.len() implies s.contains(#[trigger] h[i]) && f(h[i]) by {
            if i < g.len() {
                assert(h[i] == g[i]);
                let k = choose|k: int| 0 <= k < front.len() && front[k] == g[i];
                assert(s[k] == h[i]);
            } else {
                assert(s[s.len() - 1] == h[i]);
            }
        }
        assert forall|i: int, j: int| 0 <= i < j < h.len() implies (#[trigger] h[i]).id != (
        #[trigger] h[j]).id by {
            assert(h[i] == g[i]);
            if j < g.len() {
                assert(h[j] == g[j]);
            } else {
                let k = choose|k: int| 0 <= k < front.len() && front[k] == g[i];
                assert(s[k].id != s[s.len() - 1].id);
            }
        }
    }
}

proof fn lemma_find_frame(r: Run, s: Seq<(AddrModel, Seq<u8>)>, now: u64)
    ensures
        find_steps(r, s, now).d.blacklist == r.d.blacklist,
        find_steps(r, s, now).d.routing == r.d.routing,
        find_steps(r, s, now).d.cfg == r.d.cfg,
    decreases s.len(),
{
    if s.len() > 0 {
        lemma_find_frame(r, s.drop_last(), now);
    }
}

proof fn lemma_drop_frame(r: Run, s: Seq<Seq<char>>)
    ensures
        drop_steps(r, s).d.blacklist == r.d.blacklist,
        drop_steps(r, s).d.trans == r.d.trans,
        drop_steps(r, s).d.cfg == r.d.cfg,
        drop_steps(r, s).out == r.out,
    decreases s.len(),
{
    if s.len() > 0 {
        lemma_drop_frame(r, s.drop_last());
    }
}

proof fn lemma_ping_frame(r: Run, s: Seq<Entry>, now: u64)
    ensures
        ping_steps(r, s, now).d.blacklist == r.d.blacklist,
        ping_steps(r, s, now).d.routing == r.d.routing,
        ping_steps(r, s, now).d.cfg == r.d.cfg,
    decreases s.len(),
{
    if s.len() > 0 {
        lemma_ping_frame(r, s.drop_last(), now);
    }
}

proof fn lemma_blacklist_after(r: Run, managed: bool, noise: Seq<u8>, now: u64)
    requires
        r.d.routing.nodes.len() > 0,
    ensures
        tick_step(r, managed, noise, now).d.blacklist == given_up(
            r,
            managed,
            now,
        ).d.blacklist.cleared(now),
{
    let r2 = given_up(r, managed, now);
    let plan = r2.d.routing.refresh(
        now,
        r2.d.cfg.kbucket_expired_after,
        r2.d.cfg.refresh_node_num,
        r2.d.cfg.mode == Mode::Crawl,
        noise,
    );
    let f = find_steps(r2, plan.tasks, now);
    lemma_find_frame(r2, plan.tasks, now);
    lemma_drop_frame(f, plan.clear);
    let r3 = refresh_step(r2, noise, now);
    lemma_ping_frame(r3, r3.d.routing.expired(r3.d.cfg.node_expired_after, now), now);
}

/// An address that did not answer, however often it was asked, is blacklisted, where there is room;
/// a managed node leaves out of this those that did not answer to a ping.
pub proof fn law_silent_address_is_shut_out(
    r: Run,
    managed: bool,
    noise: Seq<u8>,
    now: u64,
    i: int,
)
    requires
        r.d.valid(),
        r.d.routing.nodes.len() > 0,
        0 <= i < r.d.trans.entries.len(),
        due(r.d.trans.entries[i], 10_000_000_000, now),
        r.d.trans.entries[i].retries >= r.d.cfg.try_times,
        !managed || r.d.trans.entries[i].qtype != "ping"@,
        r.d.blacklist.listed.dom().len() + r.d.trans.entries.len() <= r.d.blacklist.max_size,
    ensures
        shunned(tick_step(r, managed, noise, now).d, r.d.trans.entries[i].addr),
{
    let x = r.d.trans.entries[i];
    let tries = r.d.cfg.try_times;
    let m = r.d.trans;
    let again = |t: TxModel| due(t, QUERY_TIMEOUT, now) && t.retries < tries;
    let over = |t: TxModel| due(t, QUERY_TIMEOUT, now) && t.retries >= tries;
    let s = m.to_retry(QUERY_TIMEOUT, tries, now);
    let g = m.to_remove(QUERY_TIMEOUT, tries, now);
    lemma_filter_apart(m.entries, again);
    lemma_filter_apart(m.entries, over);
    assert forall|j: int| 0 <= j < s.len() implies (#[trigger] s[j]).id != x.id by {
        let k = choose|k: int| 0 <= k < m.entries.len() && m.entries[k] == s[j];
        assert(again(s[j]));
        if k < i {
            assert(m.entries[k].id != m.entries[i].id);
        } else if i < k {
            assert(m.entries[i].id != m.entries[k].id);
        }
    }
    lemma_get(m, x.id);
    if let Some(y) = m.get(x.id) {
        let k = choose|k: int| 0 <= k < m.entries.len() && m.entries[k] == y;
        if k < i {
            assert(m.entries[k].id != m.entries[i].id);
        } else if i < k {
            assert(m.entries[i].id != m.entries[k].id);
        }
    }
    assert(m.get(x.id) == Some(x));
    lemma_retry_leaves_alone(r, s, now, x.id);
    lemma_retry_prefix(r, s, now);
    law_due_is_retried_or_given_up(m, QUERY_TIMEOUT, tries, now, i);
    let j = choose|j: int| 0 <= j < g.len() && g[j] == x;
    m.entries.lemma_filter_len(over);
    lemma_give_up_lists(retried(r, now), g, managed, now, j, x);
    lemma_blacklist_after(r, managed, noise, now);
}

proof fn lemma_nothing_due(r: Run, managed: bool, now: u64)
    requires
        r.d.trans.entries.len() == 0,
    ensures
        given_up(r, managed, now) == r,
{
    reveal(Seq::filter);
    let tries = r.d.cfg.try_times;
    let again = |t: TxModel| due(t, QUERY_TIMEOUT, now) && t.retries < tries;
    let over = |t: TxModel| due(t, QUERY_TIMEOUT, now) && t.retries >= tries;
    assert(r.d.trans.entries.filter(again).len() == 0);
    assert(r.d.trans.entries.filter(over).len() == 0);
}

/// Where no query waits, the search for nodes that is planned to refresh the routing table is sent,
/// every part of it.
pub proof fn law_refresh_is_carried_out(
    r: Run,
    managed: bool,
    noise: Seq<u8>,
    now: u64,
    i: int,
)
    requires
        r.d.routing.nodes.len() > 0,
        r.d.trans.entries.len() == 0,
        0 <= i < r.d.routing.refresh(
            now,
            r.d.cfg.kbucket_expired_after,
            r.d.cfg.refresh_node_num,
            r.d.cfg.mode == Mode::Crawl,
            noise,
        ).tasks.len(),
    ensures
        ({
            let (addr, target) = r.d.routing.refresh(
                now,
                r.d.cfg.kbucket_expired_after,
                r.d.cfg.refresh_node_num,
                r.d.cfg.mode == Mode::Crawl,
                noise,
            ).tasks[i];
            exists|k: int|
                r.out.len() <= k < tick_step(r, managed, noise, now).out.len()
                    && #[trigger] asks_for(
                    tick_step(r, managed, noise, now).out[k],
                    addr,
                    "find_node"@,
                    "target"@,
                    target,
                )
        }),
{
    let plan = r.d.routing.refresh(
        now,
        r.d.cfg.kbucket_expired_after,
        r.d.cfg.refresh_node_num,
        r.d.cfg.mode == Mode::Crawl,
        noise,
    );
    lemma_nothing_due(r, managed, now);
    let f = find_steps(r, plan.tasks, now);
    lemma_find_every_one(r, plan.tasks, now);
    lemma_drop_frame(f, plan.clear);
    lemma_rest_of_tick(r, managed, noise, now);
    let end = tick_step(r, managed, noise, now);
    let k = r.out.len() + i;
    let (addr, target) = plan.tasks[i];
    assert(asks_for(f.out[k], addr, "find_node"@, "target"@, target));
    assert(end.out[k] == refresh_step(r, noise, now).out[k]);
    assert(asks_for(end.out[k], addr, "find_node"@, "target"@, target));
}

/// Nothing but queries for nodes was asked so far, and there is room for more.
spec fn unpinged(b: Run, at: AddrModel, n: nat) -> bool {
    &&& orderly(b.d.trans)
    &&& !waits(b.d.trans, "ping"@, at)
    &&& b.d.trans.cursor + n < b.d.trans.max_cursor
    &&& b.d.trans.entries.len() + n <= MAX_TRANSACTIONS
}

proof fn lemma_unpinged_asks(
    b: Run,
    at: AddrModel,
    n: nat,
    addr: AddrModel,
    q: Seq<char>,
    args: Pairs,
    target: Option<Seq<u8>>,
    now: u64,
)
    requires
        unpinged(b, at, n + 1),
        is_kind(q),
        q != "ping"@ || addr != at,
    ensures
        unpinged(b.asks(addr, q, args, None, target, None, now), at, n),
{
    let c = b.asks(addr, q, args, None, target, None, now);
    let tx = TxModel {
        id: b.d.trans.next_id(),
        addr,
        qtype: q,
        responder: None,
        info_hash: None,
        target,
        announce_port: None,
        announce_implied_port: false,
        created_at: now,
        retries: 0,
    };
    law_begun_query_waits(b.d.trans, tx);
    assert(c.d.trans == b.d.trans.advanced().begun(tx));
    if waits(c.d.trans, "ping"@, at) {
        let i = choose|i: int|
            0 <= i < c.d.trans.entries.len() && (#[trigger] c.d.trans.entries[i]).qtype == "ping"@
                && c.d.trans.entries[i].addr == at;
        if i < b.d.trans.entries.len() {
            assert(b.d.trans.entries[i] == c.d.trans.entries[i]);
        }
    }
}

proof fn lemma_unpinged_find(r: Run, s: Seq<(AddrModel, Seq<u8>)>, now: u64, at: AddrModel, n: nat)
    requires
        unpinged(r, at, n + s.len()),
    ensures
        unpinged(find_steps(r, s, now), at, n),
    decreases s.len(),
{
    reveal_strlit("ping");
    reveal_strlit("find_node");
    assert("ping"@[0] != "find_node"@[0]);
    if s.len() > 0 {
        lemma_unpinged_find(r, s.drop_last(), now, at, n + 1);
        let b = find_steps(r, s.drop_last(), now);
        let (addr, target) = s.last();
        lemma_unpinged_asks(
            b,
            at,
            n,
            addr,
            "find_node"@,
            b.d.find_node_args(target),
            Some(target),
            now,
        );
    }
}

proof fn lemma_pings_sent(r: Run, s: Seq<Entry>, now: u64, i: int, n: nat)
    requires
        0 <= i < s.len(),
        unpinged(r, s[i].1.addr, n + s.len()),
    ensures
        exists|k: int|
            r.out.len() <= k < ping_steps(r, s, now).out.len() && #[trigger] is_query(
                ping_steps(r, s, now).out[k],
                s[i].1.addr,
                "ping"@,
            ),
    decreases s.len(),
{
    let at = s[i].1.addr;
    let front = s.drop_last();
    let b = ping_steps(r, front, now);
    let c = ping_steps(r, s, now);
    lemma_pinged_or_not(r, front, now, at, n + 1);
    if i < front.len() {
        assert(front[i] == s[i]);
        lemma_pings_sent(r, front, now, i, n + 1);
    }
    if exists|k: int| r.out.len() <= k < b.out.len() && #[trigger] is_query(b.out[k], at, "ping"@) {
        let k = choose|k: int|
            r.out.len() <= k < b.out.len() && #[trigger] is_query(b.out[k], at, "ping"@);
        assert(c.out[k] == b.out[k]);
    } else {
        lemma_no_query_waits(b.d.trans, "ping"@, at);
        let id = b.d.id_for(None);
        lemma_id_args(id);
        lemma_asks_reads(b, at, "ping"@, id_args(id), None, None, None, now, at);
        assert(is_query(c.out[c.out.len() - 1], at, "ping"@));
    }
}

proof fn lemma_pinged_or_not(r: Run, s: Seq<Entry>, now: u64, at: AddrModel, n: nat)
    requires
        unpinged(r, at, n + s.len()),
    ensures
        ({
            let b = ping_steps(r, s, now);
            &&& r.out.len() <= b.out.len()
            &&& forall|k: int| 0 <= k < r.out.len() ==> #[trigger] b.out[k] == r.out[k]
            &&& unpinged(b, at, n) || exists|k: int|
                r.out.len() <= k < b.out.len() && #[trigger] is_query(b.out[k], at, "ping"@)
        }),
    decreases s.len(),
{
    if s.len() > 0 {
        let front = s.drop_last();
        let b = ping_steps(r, front, now);
        let c = ping_steps(r, s, now);
        let addr = s.last().1.addr;
        lemma_pinged_or_not(r, front, now, at, n + 1);
        let id = b.d.id_for(None);
        lemma_id_args(id);
        lemma_asks_reads(b, addr, "ping"@, id_args(id), None, None, None, now, addr);
        if exists|k: int|
            r.out.len() <= k < b.out.len() && #[trigger] is_query(b.out[k], at, "ping"@) {
            let k = choose|k: int|
                r.out.len() <= k < b.out.len() && #[trigger] is_query(b.out[k], at, "ping"@);
            assert(c.out[k] == b.out[k]);
        } else if b.d.trans.get_at("ping"@, addr_text(addr)) is None {
            if addr == at {
                assert(is_query(c.out[c.out.len() - 1], at, "ping"@));
            } else {
                lemma_unpinged_asks(b, at, n, addr, "ping"@, id_args(id), None, now);
            }
        }
    }
}

/// A managed node that is no crawler asks every node that it has not heard of for long whether it is
/// still there, once no query waits.
pub proof fn law_expired_nodes_are_pinged(r: Run, noise: Seq<u8>, now: u64, i: int)
    requires
        r.d.cfg.mode == Mode::Standard,
        r.d.trans.entries.len() == 0,
        orderly(r.d.trans),
        0 <= i < r.d.routing.nodes.len(),
        r.d.routing.nodes[i].1.last_active + r.d.cfg.node_expired_after <= now,
        r.d.trans.cursor + 2 * r.d.routing.nodes.len() < r.d.trans.max_cursor,
        2 * r.d.routing.nodes.len() <= MAX_TRANSACTIONS,
    ensures
        exists|k: int|
            r.out.len() <= k < tick_step(r, true, noise, now).out.len() && #[trigger] is_query(
                tick_step(r, true, noise, now).out[k],
                r.d.routing.nodes[i].1.addr,
                "ping"@,
            ),
{
    let at = r.d.routing.nodes[i].1.addr;
    let plan = r.d.routing.refresh(
        now,
        r.d.cfg.kbucket_expired_after,
        r.d.cfg.refresh_node_num,
        false,
        noise,
    );
    law_refresh_plan_is_small(
        r.d.routing,
        now,
        r.d.cfg.kbucket_expired_after,
        r.d.cfg.refresh_node_num,
        false,
        noise,
    );
    lemma_nothing_due(r, true, now);
    let f = find_steps(r, plan.tasks, now);
    let n = r.d.routing.nodes.len();
    assert(!waits(r.d.trans, "ping"@, at));
    assert(unpinged(r, at, n + plan.tasks.len()));
    lemma_unpinged_find(r, plan.tasks, now, at, n);
    lemma_find_frame(r, plan.tasks, now);
    lemma_find_every_one(r, plan.tasks, now);
    assert(drop_steps(f, plan.clear) == f);
    let s = f.d.routing.expired(f.d.cfg.node_expired_after, now);
    law_expired_nodes_are_found(r.d.routing, r.d.cfg.node_expired_after, now, i);
    let j = choose|j: int| 0 <= j < s.len() && s[j] == r.d.routing.nodes[i];
    lemma_pings_sent(f, s, now, j, (n - s.len()) as nat);
    let p = ping_steps(f, s, now);
    let end = tick_step(r, true, noise, now);
    let k = choose|k: int|
        f.out.len() <= k < p.out.len() && #[trigger] is_query(p.out[k], at, "ping"@);
    assert(end.out == p.out);
}

// ---------------------------------------------------------------------------
// What becomes of a query
// ---------------------------------------------------------------------------

/// So many identifiers can be handed out that none of them is one of the first `n`.
spec fn has_ids(m: TransModel, n: nat, k: nat) -> bool {
    n <= m.cursor && m.cursor + k < m.max_cursor
}

proof fn lemma_asks_leaves_alone(
    b: Run,
    addr: AddrModel,
    q: Seq<char>,
    args: Pairs,
    target: Option<Seq<u8>>,
    now: u64,
    t: Seq<u8>,
    n: nat,
    k: nat,
)
    requires
        has_ids(b.d.trans, n, k + 1),
        handed_out(t, n),
    ensures
        ({
            let c = b.asks(addr, q, args, None, target, None, now);
            has_ids(c.d.trans, n, k) && c.d.trans.get(t) == b.d.trans.get(t)
        }),
{
    let m = b.d.trans;
    let tx = TxModel {
        id: m.next_id(),
        addr,
        qtype: q,
        responder: None,
        info_hash: None,
        target,
        announce_port: None,
        announce_implied_port: false,
        created_at: now,
        retries: 0,
    };
    assert(b.asks(addr, q, args, None, target, None, now).d.trans == m.advanced().begun(tx));
    assert(m.cursor % m.max_cursor == m.cursor) by (nonlinear_arith)
        requires
            0 <= m.cursor < m.max_cursor,
    ;
    let c = choose|c: nat| c < n && t == #[trigger] be_bytes(c);
    if tx.id == t {
        law_be_bytes_injective(c, m.cursor as nat);
    }
    if m.entries.len() < MAX_TRANSACTIONS {
        law_begin_then_get(m.advanced(), tx, t);
    }
}

proof fn lemma_find_leaves_alone(
    r: Run,
    s: Seq<(AddrModel, Seq<u8>)>,
    now: u64,
    t: Seq<u8>,
    n: nat,
    k: nat,
)
    requires
        has_ids(r.d.trans, n, k + s.len()),
        handed_out(t, n),
    ensures
        has_ids(find_steps(r, s, now).d.trans, n, k),
        find_steps(r, s, now).d.trans.get(t) == r.d.trans.get(t),
    decreases s.len(),
{
    if s.len() > 0 {
        let b = find_steps(r, s.drop_last(), now);
        let (addr, target) = s.last();
        lemma_find_leaves_alone(r, s.drop_last(), now, t, n, k + 1);
        lemma_asks_leaves_alone(
            b,
            addr,
            "find_node"@,
            b.d.find_node_args(target),
            Some(target),
            now,
            t,
            n,
            k,
        );
    }
}

proof fn lemma_ping_leaves_alone(r: Run, s: Seq<Entry>, now: u64, t: Seq<u8>, n: nat, k: nat)
    requires
        has_ids(r.d.trans, n, k + s.len()),
        handed_out(t, n),
    ensures
        has_ids(ping_steps(r, s, now).d.trans, n, k),
        ping_steps(r, s, now).d.trans.get(t) == r.d.trans.get(t),
    decreases s.len(),
{
    if s.len() > 0 {
        let b = ping_steps(r, s.drop_last(), now);
        let addr = s.last().1.addr;
        lemma_ping_leaves_alone(r, s.drop_last(), now, t, n, k + 1);
        lemma_asks_leaves_alone(
            b,
            addr,
            "ping"@,
            id_args(b.d.id_for(None)),
            None,
            now,
            t,
            n,
            k,
        );
    }
}

proof fn lemma_drops_few(r: Run, s: Seq<Seq<char>>)
    ensures
        drop_steps(r, s).d.routing.nodes.len() <= r.d.routing.nodes.len(),
    decreases s.len(),
{
    if s.len() > 0 {
        let b = drop_steps(r, s.drop_last());
        lemma_drops_few(r, s.drop_last());
        b.d.routing.nodes.lemma_filter_len(|e: Entry| addr_text(e.1.addr) != s.last());
    }
}

proof fn lemma_give_up_few(r: Run, s: Seq<TxModel>, managed: bool, now: u64)
    ensures
        give_up_steps(r, s, managed, now).d.routing.nodes.len() <= r.d.routing.nodes.len(),
        give_up_steps(r, s, managed, now).d.trans.cursor == r.d.trans.cursor,
        give_up_steps(r, s, managed, now).d.trans.max_cursor == r.d.trans.max_cursor,
        give_up_steps(r, s, managed, now).d.tokens == r.d.tokens,
        give_up_steps(r, s, managed, now).d.cfg == r.d.cfg,
    decreases s.len(),
{
    if s.len() > 0 {
        let b = give_up_steps(r, s.drop_last(), managed, now);
        lemma_give_up_few(r, s.drop_last(), managed, now);
        if let Some(x) = b.d.trans.get(s.last().id) {
            b.d.routing.nodes.lemma_filter_len(
                |e: Entry| addr_text(e.1.addr) != addr_text(x.addr),
            );
        }
    }
}

proof fn lemma_retry_ids(r: Run, s: Seq<TxModel>, now: u64)
    ensures
        retry_steps(r, s, now).d.trans.cursor == r.d.trans.cursor,
        retry_steps(r, s, now).d.trans.max_cursor == r.d.trans.max_cursor,
        retry_steps(r, s, now).d.tokens == r.d.tokens,
    decreases s.len(),
{
    if s.len() > 0 {
        lemma_retry_ids(r, s.drop_last(), now);
    }
}

/// Sending new queries changes nothing of those that wait.
proof fn lemma_fares_on(r: Run, managed: bool, noise: Seq<u8>, now: u64, t: Seq<u8>)
    requires
        r.d.routing.nodes.len() > 0,
        handed_out(t, r.d.trans.cursor as nat),
        r.d.trans.cursor + 2 * r.d.routing.nodes.len() < r.d.trans.max_cursor,
    ensures
        tick_step(r, managed, noise, now).d.trans.get(t) == given_up(r, managed, now).d.trans.get(t),
{
    let n = r.d.trans.cursor as nat;
    let many = r.d.routing.nodes.len();
    let tries = r.d.cfg.try_times;
    let s = r.d.trans.to_retry(QUERY_TIMEOUT, tries, now);
    let g = r.d.trans.to_remove(QUERY_TIMEOUT, tries, now);
    let r2 = given_up(r, managed, now);
    lemma_retry_ids(r, s, now);
    lemma_retry_prefix(r, s, now);
    lemma_give_up_few(retried(r, now), g, managed, now);
    let plan = r2.d.routing.refresh(
        now,
        r2.d.cfg.kbucket_expired_after,
        r2.d.cfg.refresh_node_num,
        r2.d.cfg.mode == Mode::Crawl,
        noise,
    );
    law_refresh_plan_is_small(
        r2.d.routing,
        now,
        r2.d.cfg.kbucket_expired_after,
        r2.d.cfg.refresh_node_num,
        r2.d.cfg.mode == Mode::Crawl,
        noise,
    );
    let f = find_steps(r2, plan.tasks, now);
    lemma_find_leaves_alone(
        r2,
        plan.tasks,
        now,
        t,
        n,
        (2 * many - plan.tasks.len()) as nat,
    );
    lemma_find_frame(r2, plan.tasks, now);
    lemma_drop_frame(f, plan.clear);
    lemma_drops_few(f, plan.clear);
    let r3 = refresh_step(r2, noise, now);
    assert(has_ids(r3.d.trans, n, many));
    let e = r3.d.routing.expired(r3.d.cfg.node_expired_after, now);
    r3.d.routing.nodes.lemma_filter_len(
        |x: Entry| !crate::timed::fresh(x.1.last_active, r3.d.cfg.node_expired_after, now),
    );
    lemma_ping_leaves_alone(r3, e, now, t, n, (many - e.len()) as nat);
}

proof fn lemma_retry_counts(
    r: Run,
    s: Seq<TxModel>,
    now: u64,
    i: int,
    name: Seq<char>,
    v: Seq<u8>,
)
    requires
        r.d.trans.valid(),
        0 <= i < s.len(),
        forall|j: int, l: int|
            0 <= j < l < s.len() ==> (#[trigger] s[j]).id != (#[trigger] s[l]).id,
        is_about(s[i], name, v),
        s[i].retries < u8::MAX,
        r.d.trans.get(s[i].id) == Some(s[i]),
    ensures
        retry_steps(r, s, now).d.trans.valid(),
        retry_steps(r, s, now).d.trans.get(s[i].id) == Some(
            (TxModel { retries: (s[i].retries + 1) as u8, created_at: now, ..s[i] }),
        ),
    decreases s.len(),
{
    let x = s[i];
    let front = s.drop_last();
    let b = retry_steps(r, front, now);
    if i < front.len() {
        assert(front[i] == s[i]);
        assert forall|j: int, l: int| 0 <= j < l < front.len() implies (#[trigger] front[j]).id != (
        #[trigger] front[l]).id by {
            assert(front[j] == s[j] && front[l] == s[l]);
        }
        lemma_retry_counts(r, front, now, i, name, v);
        assert(s[i].id != s[s.len() - 1].id);
        law_retry(b.d.trans, s.last().id, now, x.id);
    } else {
        assert forall|j: int| 0 <= j < front.len() implies (#[trigger] front[j]).id != x.id by {
            assert(s[j].id != s[i].id);
        }
        lemma_retry_leaves_alone(r, front, now, x.id);
        law_retry(b.d.trans, x.id, now, x.id);
    }
}

proof fn lemma_give_up_forgets(r: Run, s: Seq<TxModel>, managed: bool, now: u64, i: int)
    requires
        r.d.trans.valid(),
        0 <= i < s.len(),
    ensures
        give_up_steps(r, s, managed, now).d.trans.valid(),
        give_up_steps(r, s, managed, now).d.trans.get(s[i].id) is None,
    decreases s.len(),
{
    let front = s.drop_last();
    let b = give_up_steps(r, front, managed, now);
    if i < front.len() {
        assert(front[i] == s[i]);
        lemma_give_up_forgets(r, front, managed, now, i);
    } else {
        lemma_give_up_valid(r, front, managed, now);
    }
    law_finish(b.d.trans, s.last().id, s[i].id);
}

proof fn lemma_give_up_valid(r: Run, s: Seq<TxModel>, managed: bool, now: u64)
    requires
        r.d.trans.valid(),
    ensures
        give_up_steps(r, s, managed, now).d.trans.valid(),
    decreases s.len(),
{
    if s.len() > 0 {
        lemma_give_up_valid(r, s.drop_last(), managed, now);
        let b = give_up_steps(r, s.drop_last(), managed, now);
        law_finish(b.d.trans, s.last().id, s.last().id);
    }
}

/// Two transactions of a table with the same identifier are the same.
proof fn lemma_same_query(m: TransModel, i: int, y: TxModel)
    requires
        m.valid(),
        0 <= i < m.entries.len(),
        m.entries.contains(y),
        y.id == m.entries[i].id,
    ensures
        y == m.entries[i],
{
    let k = choose|k: int| 0 <= k < m.entries.len() && m.entries[k] == y;
    if k < i {
        assert(m.entries[k].id != m.entries[i].id);
    } else if i < k {
        assert(m.entries[i].id != m.entries[k].id);
    }
}

/// What becomes of a query that waits: until it is due it waits on. One for peers or for nodes that
/// is due and was not tried often enough waits anew, with one more try counted. One that was tried
/// often enough waits no more.
pub proof fn law_query_waits_as_long_as_it_is_given(
    r: Run,
    managed: bool,
    noise: Seq<u8>,
    now: u64,
    i: int,
    name: Seq<char>,
    v: Seq<u8>,
)
    requires
        r.d.routing.nodes.len() > 0,
        orderly(r.d.trans),
        r.d.trans.cursor + 2 * r.d.routing.nodes.len() < r.d.trans.max_cursor,
        0 <= i < r.d.trans.entries.len(),
    ensures
        ({
            let x = r.d.trans.entries[i];
            let after = tick_step(r, managed, noise, now).d.trans.entries;
            let is_due = due(x, 10_000_000_000, now);
            &&& !is_due ==> after.contains(x)
            &&& is_due && x.retries < r.d.cfg.try_times && is_about(x, name, v) ==> after.contains(
                (TxModel { retries: (x.retries + 1) as u8, created_at: now, ..x }),
            )
            &&& is_due && x.retries >= r.d.cfg.try_times ==> forall|k: int|
                0 <= k < after.len() ==> (#[trigger] after[k]).id != x.id
        }),
{
    let m = r.d.trans;
    let x = m.entries[i];
    let tries = r.d.cfg.try_times;
    let again = |t: TxModel| due(t, QUERY_TIMEOUT, now) && t.retries < tries;
    let over = |t: TxModel| due(t, QUERY_TIMEOUT, now) && t.retries >= tries;
    let s = m.to_retry(QUERY_TIMEOUT, tries, now);
    let g = m.to_remove(QUERY_TIMEOUT, tries, now);
    assert(handed_out(m.entries[i].id, m.cursor as nat));
    lemma_filter_apart(m.entries, again);
    lemma_filter_apart(m.entries, over);
    lemma_get(m, x.id);
    if let Some(y) = m.get(x.id) {
        lemma_same_query(m, i, y);
    }
    assert(m.get(x.id) == Some(x));
    law_due_is_retried_or_given_up(m, QUERY_TIMEOUT, tries, now, i);
    if !again(x) {
        assert forall|j: int| 0 <= j < s.len() implies (#[trigger] s[j]).id != x.id by {
            assert(m.entries.contains(s[j]) && again(s[j]));
            if s[j].id == x.id {
                lemma_same_query(m, i, s[j]);
            }
        }
        lemma_retry_leaves_alone(r, s, now, x.id);
    } else if is_about(x, name, v) {
        let j = choose|j: int| 0 <= j < s.len() && s[j] == x;
        lemma_retry_counts(r, s, now, j, name, v);
    }
    let r1 = retried(r, now);
    if !over(x) {
        assert forall|j: int| 0 <= j < g.len() implies (#[trigger] g[j]).id != x.id by {
            assert(m.entries.contains(g[j]) && over(g[j]));
            if g[j].id == x.id {
                lemma_same_query(m, i, g[j]);
            }
        }
        if !again(x) || is_about(x, name, v) {
            lemma_give_up_leaves_alone(r1, g, managed, now, x.id);
        }
    } else {
        let j = choose|j: int| 0 <= j < g.len() && g[j] == x;
        lemma_give_up_forgets(r1, g, managed, now, j);
    }
    lemma_fares_on(r, managed, noise, now, x.id);
    lemma_get(tick_step(r, managed, noise, now).d.trans, x.id);
}

// ---------------------------------------------------------------------------
// What is dropped in time
// ---------------------------------------------------------------------------

proof fn lemma_give_up_keeps_listed(r: Run, s: Seq<TxModel>, managed: bool, now: u64, k: Seq<char>)
    requires
        r.d.blacklist.listed.dom().contains(k),
    ensures
        ({
            let b = give_up_steps(r, s, managed, now).d.blacklist.listed;
            b.dom().contains(k) && (b[k].1 == r.d.blacklist.listed[k].1 || b[k].1 == now)
        }),
    decreases s.len(),
{
    if s.len() > 0 {
        lemma_give_up_keeps_listed(r, s.drop_last(), managed, now, k);
    }
}

/// The blacklist names nobody for longer than an hour, and nobody leaves it earlier.
pub proof fn law_listing_ends_after_an_hour(
    r: Run,
    managed: bool,
    noise: Seq<u8>,
    now: u64,
    k: Seq<char>,
)
    requires
        r.d.routing.nodes.len() > 0,
    ensures
        ({
            let before = r.d.blacklist.listed;
            let after = tick_step(r, managed, noise, now).d.blacklist.listed;
            &&& after.dom().contains(k) ==> now < after[k].1 + 3_600_000_000_000
            &&& before.dom().contains(k) && now < before[k].1 + 3_600_000_000_000
                ==> after.dom().contains(k)
        }),
{
    lemma_blacklist_after(r, managed, noise, now);
    let tries = r.d.cfg.try_times;
    let s = r.d.trans.to_retry(QUERY_TIMEOUT, tries, now);
    let g = r.d.trans.to_remove(QUERY_TIMEOUT, tries, now);
    lemma_retry_prefix(r, s, now);
    if r.d.blacklist.listed.dom().contains(k) {
        lemma_give_up_keeps_listed(retried(r, now), g, managed, now, k);
    }
}

proof fn lemma_find_keeps_tokens(r: Run, s: Seq<(AddrModel, Seq<u8>)>, now: u64)
    ensures
        find_steps(r, s, now).d.tokens == r.d.tokens,
    decreases s.len(),
{
    if s.len() > 0 {
        lemma_find_keeps_tokens(r, s.drop_last(), now);
    }
}

proof fn lemma_drop_keeps_tokens(r: Run, s: Seq<Seq<char>>)
    ensures
        drop_steps(r, s).d.tokens == r.d.tokens,
    decreases s.len(),
{
    if s.len() > 0 {
        lemma_drop_keeps_tokens(r, s.drop_last());
    }
}

proof fn lemma_ping_keeps_tokens(r: Run, s: Seq<Entry>, now: u64)
    ensures
        ping_steps(r, s, now).d.tokens == r.d.tokens,
    decreases s.len(),
{
    if s.len() > 0 {
        lemma_ping_keeps_tokens(r, s.drop_last(), now);
    }
}

/// A token that is accepted is accepted after the upkeep too, and one that is too old is forgotten.
pub proof fn law_old_tokens_are_forgotten(
    r: Run,
    managed: bool,
    noise: Seq<u8>,
    now: u64,
    ip: Seq<char>,
    token: Seq<char>,
)
    requires
        r.d.routing.nodes.len() > 0,
    ensures
        ({
            let after = tick_step(r, managed, noise, now).d.tokens;
            &&& after.accepts(ip, token, now) == r.d.tokens.accepts(ip, token, now)
            &&& after.given.dom().contains(ip) ==> now < after.given[ip].1 + after.expired_after
            &&& after.expired_after == r.d.tokens.expired_after
        }),
{
    let tries = r.d.cfg.try_times;
    let s = r.d.trans.to_retry(QUERY_TIMEOUT, tries, now);
    let g = r.d.trans.to_remove(QUERY_TIMEOUT, tries, now);
    let r2 = given_up(r, managed, now);
    lemma_retry_ids(r, s, now);
    lemma_give_up_few(retried(r, now), g, managed, now);
    let plan = r2.d.routing.refresh(
        now,
        r2.d.cfg.kbucket_expired_after,
        r2.d.cfg.refresh_node_num,
        r2.d.cfg.mode == Mode::Crawl,
        noise,
    );
    let f = find_steps(r2, plan.tasks, now);
    lemma_find_keeps_tokens(r2, plan.tasks, now);
    lemma_drop_keeps_tokens(f, plan.clear);
    let r3 = refresh_step(r2, noise, now);
    lemma_ping_keeps_tokens(r3, r3.d.routing.expired(r3.d.cfg.node_expired_after, now), now);
    assert(tick_step(r, managed, noise, now).d.tokens == r.d.tokens.cleared(now));
    crate::token::law_clearing_keeps_accepted(r.d.tokens, ip, token, now, now);
}

/// A managed node knows no more nodes than it may once the upkeep is done.
pub proof fn law_table_is_cut_down(r: Run, noise: Seq<u8>, now: u64)
    requires
        r.d.routing.nodes.len() > 0,
    ensures
        tick_step(r, true, noise, now).d.routing.nodes.len() <= r.d.cfg.max_nodes,
{
    let tries = r.d.cfg.try_times;
    let s = r.d.trans.to_retry(QUERY_TIMEOUT, tries, now);
    let g = r.d.trans.to_remove(QUERY_TIMEOUT, tries, now);
    let r2 = given_up(r, true, now);
    lemma_retry_prefix(r, s, now);
    lemma_give_up_few(retried(r, now), g, true, now);
    let plan = r2.d.routing.refresh(
        now,
        r2.d.cfg.kbucket_expired_after,
        r2.d.cfg.refresh_node_num,
        r2.d.cfg.mode == Mode::Crawl,
        noise,
    );
    let f = find_steps(r2, plan.tasks, now);
    lemma_find_frame(r2, plan.tasks, now);
    lemma_drop_frame(f, plan.clear);
    let r3 = refresh_step(r2, noise, now);
    let e = r3.d.routing.expired(r3.d.cfg.node_expired_after, now);
    lemma_ping_frame(r3, e, now);
    let clean = cleared(ping_steps(r3, e, now), now);
    crate::routing::law_pruned_bound(
        clean.d.routing,
        clean.d.cfg.node_expired_after,
        clean.d.cfg.max_nodes,
        now,
    );
}

proof fn lemma_give_up_lists_no_other(
    r: Run,
    s: Seq<TxModel>,
    managed: bool,
    now: u64,
    at: AddrModel,
)
    requires
        at.ip is V4,
        forall|i: int|
            0 <= i < r.d.trans.entries.len() ==> (#[trigger] r.d.trans.entries[i]).addr.ip is V4,
        forall|i: int, j: int|
            0 <= i < r.d.trans.entries.len() && 0 <= j < s.len() && (#[trigger]
            r.d.trans.entries[i]).id == (#[trigger] s[j]).id ==> r.d.trans.entries[i].addr != at,
    ensures
        shunned(give_up_steps(r, s, managed, now).d, at) == shunned(r.d, at),
        forall|x: TxModel| #[trigger]
            give_up_steps(r, s, managed, now).d.trans.entries.contains(x)
                ==> r.d.trans.entries.contains(x),
    decreases s.len(),
{
    if s.len() > 0 {
        let front = s.drop_last();
        let b = give_up_steps(r, front, managed, now);
        let t = s.last().id;
        assert forall|i: int, j: int|
            0 <= i < r.d.trans.entries.len() && 0 <= j < front.len() && (#[trigger]
            r.d.trans.entries[i]).id == (#[trigger] front[j]).id implies r.d.trans.entries[i].addr
            != at by {
            assert(front[j] == s[j]);
        }
        lemma_give_up_lists_no_other(r, front, managed, now, at);
        lemma_get(b.d.trans, t);
        if let Some(x) = b.d.trans.get(t) {
            assert(r.d.trans.entries.contains(x));
            let i = choose|i: int| 0 <= i < r.d.trans.entries.len() && r.d.trans.entries[i] == x;
            assert(r.d.trans.entries[i].id == s[s.len() - 1].id);
            law_only_the_listed_address_is_shut_out(b.d.blacklist, x.addr, at, now);
        }
        let c = b.d.trans.finished(t);
        assert forall|x: TxModel| #[trigger] c.entries.contains(x) implies b.d.trans.entries.contains(
            x,
        ) by {
            let k = choose|k: int| 0 <= k < c.entries.len() && c.entries[k] == x;
            crate::transaction::lemma_place(b.d.trans.entries, t);
            let p = crate::transaction::place(b.d.trans.entries, t);
            if k < p || p == b.d.trans.entries.len() {
                assert(b.d.trans.entries[k] == x);
            } else {
                assert(b.d.trans.entries[k + 1] == x);
            }
        }
    }
}

proof fn lemma_retry_keeps_addresses(r: Run, s: Seq<TxModel>, now: u64)
    ensures
        ({
            let a = r.d.trans.entries;
            let b = retry_steps(r, s, now).d.trans.entries;
            &&& b.len() == a.len()
            &&& forall|i: int|
                0 <= i < a.len() ==> (#[trigger] b[i]).id == a[i].id && b[i].addr == a[i].addr
        }),
    decreases s.len(),
{
    if s.len() > 0 {
        lemma_retry_keeps_addresses(r, s.drop_last(), now);
        let b = retry_steps(r, s.drop_last(), now);
        crate::transaction::lemma_place(b.d.trans.entries, s.last().id);
    }
}

/// Nobody is shut out but those that did not answer, however often they were asked: an address with
/// no such query is not blacklisted by the upkeep.
pub proof fn law_nobody_else_is_shut_out(
    r: Run,
    managed: bool,
    noise: Seq<u8>,
    now: u64,
    at: AddrModel,
)
    requires
        r.d.valid(),
        r.d.routing.nodes.len() > 0,
        at.ip is V4,
        forall|i: int|
            0 <= i < r.d.trans.entries.len() ==> (#[trigger] r.d.trans.entries[i]).addr.ip is V4,
        forall|i: int|
            0 <= i < r.d.trans.entries.len() && due(
                #[trigger] r.d.trans.entries[i],
                10_000_000_000,
                now,
            ) && r.d.trans.entries[i].retries >= r.d.cfg.try_times ==> r.d.trans.entries[i].addr
                != at,
        !shunned(r.d, at),
    ensures
        !shunned(tick_step(r, managed, noise, now).d, at),
{
    let m = r.d.trans;
    let tries = r.d.cfg.try_times;
    let over = |t: TxModel| due(t, QUERY_TIMEOUT, now) && t.retries >= tries;
    let s = m.to_retry(QUERY_TIMEOUT, tries, now);
    let g = m.to_remove(QUERY_TIMEOUT, tries, now);
    let r1 = retried(r, now);
    lemma_filter_apart(m.entries, over);
    lemma_retry_prefix(r, s, now);
    lemma_retry_keeps_addresses(r, s, now);
    let e = r1.d.trans.entries;
    assert forall|i: int| 0 <= i < e.len() implies (#[trigger] e[i]).addr.ip is V4 by {
        assert(m.entries[i].addr.ip is V4);
    }
    assert forall|i: int, j: int|
        0 <= i < e.len() && 0 <= j < g.len() && (#[trigger] e[i]).id == (
        #[trigger] g[j]).id implies e[i].addr != at by {
        assert(m.entries.contains(g[j]) && over(g[j]));
        lemma_same_query(m, i, g[j]);
    }
    lemma_give_up_lists_no_other(r1, g, managed, now, at);
    lemma_blacklist_after(r, managed, noise, now);
}

} // verus!
