//! Addresses that are not to be talked to.

use vstd::prelude::*;
use vstd::string::*;
use crate::text::{dec_text, push_dec};
use crate::timed::{fresh, fresh_entries, TimedMap};
use crate::transaction::SECOND;

verus! {

/// How long an address stays on the list, in seconds.
pub const BLACKLIST_SECONDS: u64 = 3600;

/// The name under which a host, or one port of it, is listed.
pub open spec fn black_key(ip: Seq<char>, port: Option<u16>) -> Seq<char> {
    match port {
        Some(p) => ip + seq![':'] + dec_text(p as nat),
        None => ip,
    }
}

/// The listed names with the times at which they were listed, and the most that are listed.
#[verifier::ext_equal]
pub struct BlackModel {
    pub listed: Map<Seq<char>, ((), u64)>,
    pub max_size: nat,
}

impl BlackModel {
    /// A host is listed as a whole or at this port.
    pub open spec fn has(self, ip: Seq<char>, port: Option<u16>) -> bool {
        self.listed.dom().contains(ip) || self.listed.dom().contains(black_key(ip, port))
    }

    /// The list after a host, or one port of it, was listed; a full list takes no new name.
    pub open spec fn inserted(self, ip: Seq<char>, port: Option<u16>, now: u64) -> BlackModel {
        let k = black_key(ip, port);
        if self.listed.dom().len() >= self.max_size && !self.listed.dom().contains(k) {
            self
        } else {
            BlackModel { listed: self.listed.insert(k, ((), now)), ..self }
        }
    }

    /// The list without the names whose time is over.
    pub open spec fn cleared(self, now: u64) -> BlackModel {
        BlackModel {
            listed: fresh_entries(self.listed, (BLACKLIST_SECONDS * SECOND) as u64, now),
            ..self
        }
    }

    /// The list is within its bound.
    pub open spec fn valid(self) -> bool {
        self.listed.dom().finite() && self.listed.dom().len() <= self.max_size
    }
}

/// Listing keeps the list within its bound.
pub proof fn law_insert_keeps_bound(m: BlackModel, ip: Seq<char>, port: Option<u16>, now: u64)
    requires
        m.valid(),
    ensures
        m.inserted(ip, port, now).valid(),
{
}

/// Dropping old names keeps the list within its bound.
pub proof fn law_clear_keeps_bound(m: BlackModel, now: u64)
    requires
        m.valid(),
    ensures
        m.cleared(now).valid(),
{
    let a = m.cleared(now).listed.dom();
    assert(a.subset_of(m.listed.dom()));
    vstd::set_lib::lemma_len_subset(a, m.listed.dom());
}

/// A name that was listed is found until its time is over, where the list had room for it.
pub proof fn law_listed_until_expired(
    m: BlackModel,
    ip: Seq<char>,
    port: Option<u16>,
    now: u64,
    later: u64,
)
    requires
        m.listed.dom().len() < m.max_size,
        fresh(now, (BLACKLIST_SECONDS * SECOND) as u64, later),
    ensures
        m.inserted(ip, port, now).has(ip, port),
        m.inserted(ip, port, now).cleared(later).has(ip, port),
{
    let k = black_key(ip, port);
    let n = m.inserted(ip, port, now);
    assert(n.listed.dom().contains(k));
    assert(n.cleared(later).listed.dom().contains(k));
}

/// A full list takes no new name, and listing never takes another name off the list.
pub proof fn law_full_list_takes_nobody_new(
    m: BlackModel,
    ip: Seq<char>,
    port: Option<u16>,
    now: u64,
    k: Seq<char>,
)
    ensures
        m.listed.dom().contains(k) ==> m.inserted(ip, port, now).listed.dom().contains(k),
        m.listed.dom().len() >= m.max_size && !m.listed.dom().contains(k) ==> !m.inserted(
            ip,
            port,
            now,
        ).listed.dom().contains(k),
{
}

/// A name is dropped from the list once an hour has passed since it was listed, and not before.
pub proof fn law_listed_for_an_hour(m: BlackModel, k: Seq<char>, now: u64)
    requires
        m.listed.dom().contains(k),
    ensures
        m.cleared(now).listed.dom().contains(k) == (now < m.listed[k].1 + 3_600_000_000_000),
        m.cleared(now).max_size == m.max_size,
{
}

/// The list of addresses that are not to be talked to.
pub struct BlackList {
    listed: TimedMap<()>,
    max_size: usize,
}

impl View for BlackList {
    type V = BlackModel;

    closed spec fn view(&self) -> BlackModel {
        BlackModel { listed: self.listed@, max_size: self.max_size as nat }
    }
}

/// The name of a host, or of one port of it.
fn gen_key(ip: &str, port: Option<u16>) -> (r: String)
    ensures
        r@ == black_key(ip@, port),
{
    let mut out = ip.to_owned();
    match port {
        Some(p) => {
            out.push(':');
            push_dec(&mut out, p as u64);
            assert(out@ =~= black_key(ip@, port));
        },
        None => {},
    }
    out
}

impl BlackList {
    /// The list is held together.
    pub closed spec fn wf(&self) -> bool {
        self.listed.wf()
    }

    /// An empty list for at most `max_size` names.
    pub fn new(max_size: usize) -> (r: Self)
        ensures
            r@.listed == Map::<Seq<char>, ((), u64)>::empty(),
            r@.max_size == max_size,
            r@.valid(),
            r.wf(),
    {
        BlackList { listed: TimedMap::new(), max_size }
    }

    /// Lists a host, or one port of it.
    pub fn insert(&mut self, ip: &str, port: Option<u16>, now: u64)
        requires
            old(self).wf(),
        ensures
            final(self)@ == old(self)@.inserted(ip@, port, now),
            final(self).wf(),
            old(self)@.valid() ==> final(self)@.valid(),
    {
        let key = gen_key(ip, port);
        if self.listed.len() >= self.max_size && !self.listed.contains(key.as_str()) {
            return;
        }
        self.listed.insert(key, (), now);
    }

    /// Whether a host is listed as a whole or at this port.
    pub fn contains(&self, ip: &str, port: Option<u16>) -> (r: bool)
        ensures
            r == self@.has(ip@, port),
    {
        if self.listed.contains(ip) {
            return true;
        }
        let key = gen_key(ip, port);
        self.listed.contains(key.as_str())
    }

    /// Drops the names whose time is over.
    pub fn clear_expired(&mut self, now: u64)
        requires
            old(self).wf(),
        ensures
            final(self)@ == old(self)@.cleared(now),
            final(self).wf(),
            old(self)@.valid() ==> final(self)@.valid(),
    {
        proof {
            if self@.valid() {
                law_clear_keeps_bound(self@, now);
            }
        }
        self.listed.clear_expired(BLACKLIST_SECONDS * SECOND, now);
    }
}

} // verus!
