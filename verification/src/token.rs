//! The tokens that nodes are given to announce themselves with.

use vstd::prelude::*;
use vstd::string::*;
use crate::timed::{fresh, fresh_entries, is_fresh, TimedMap};

verus! {

/// The tokens given to each host with the times at which they were given, and how long they hold.
#[verifier::ext_equal]
pub struct TokenModel {
    pub given: Map<Seq<char>, (Seq<char>, u64)>,
    pub expired_after: u64,
}

impl TokenModel {
    /// A host holds a token that has not expired.
    pub open spec fn holds(self, ip: Seq<char>, now: u64) -> bool {
        self.given.dom().contains(ip) && fresh(self.given[ip].1, self.expired_after, now)
    }

    /// The token of a host: the one it holds, or else `new`.
    pub open spec fn token(self, ip: Seq<char>, new: Seq<char>, now: u64) -> Seq<char> {
        if self.holds(ip, now) {
            self.given[ip].0
        } else {
            new
        }
    }

    /// The tokens after one was asked for.
    pub open spec fn issued(self, ip: Seq<char>, new: Seq<char>, now: u64) -> TokenModel {
        if self.holds(ip, now) {
            self
        } else {
            TokenModel { given: self.given.insert(ip, (new, now)), ..self }
        }
    }

    /// A host presents the token that it holds.
    pub open spec fn accepts(self, ip: Seq<char>, token: Seq<char>, now: u64) -> bool {
        self.holds(ip, now) && self.given[ip].0 == token
    }

    /// The tokens without those that have expired.
    pub open spec fn cleared(self, now: u64) -> TokenModel {
        TokenModel { given: fresh_entries(self.given, self.expired_after, now), ..self }
    }
}

/// A token that was handed out is accepted from its host until it expires, and no other token is.
pub proof fn law_issued_token_is_accepted(
    m: TokenModel,
    ip: Seq<char>,
    new: Seq<char>,
    now: u64,
    later: u64,
    presented: Seq<char>,
)
    requires
        m.issued(ip, new, now).holds(ip, later),
    ensures
        m.issued(ip, new, now).accepts(ip, presented, later) <==> presented == m.token(
            ip,
            new,
            now,
        ),
{
}

/// A token is accepted from the host that it was given to, and only this one, for as long as said
/// from when it was given, and no longer.
pub proof fn law_token_is_accepted_until_it_expires(
    m: TokenModel,
    ip: Seq<char>,
    token: Seq<char>,
    now: u64,
)
    ensures
        m.accepts(ip, token, now) == (m.given.dom().contains(ip) && m.given[ip].0 == token && (
        if now < m.given[ip].1 {
            m.expired_after > 0
        } else {
            now - m.given[ip].1 < m.expired_after
        })),
{
}

/// A host whose token is still accepted is given the same again; one that has none, or one that is too
/// old, is given the new one, which counts from then on.
pub proof fn law_token_is_given_again(
    m: TokenModel,
    ip: Seq<char>,
    new: Seq<char>,
    now: u64,
)
    requires
        m.expired_after > 0,
    ensures
        ({
            let after = m.issued(ip, new, now);
            let given = m.token(ip, new, now);
            &&& after.accepts(ip, given, now)
            &&& after.given.dom().contains(ip)
            &&& after.given[ip].0 == given
            &&& after.expired_after == m.expired_after
            &&& m.accepts(ip, m.given[ip].0, now) ==> given == m.given[ip].0 && after == m
            &&& (!m.given.dom().contains(ip) || m.given[ip].1 + m.expired_after <= now) ==> given
                == new && after.given[ip].1 == now
        }),
{
}

/// A token of one host says nothing for another host.
pub proof fn law_tokens_are_bound_to_hosts(
    m: TokenModel,
    ip: Seq<char>,
    new: Seq<char>,
    now: u64,
    other: Seq<char>,
    presented: Seq<char>,
    later: u64,
)
    requires
        other != ip,
    ensures
        m.issued(ip, new, now).accepts(other, presented, later) == m.accepts(
            other,
            presented,
            later,
        ),
{
}

/// Dropping expired tokens changes nothing that is accepted.
pub proof fn law_clearing_keeps_accepted(
    m: TokenModel,
    ip: Seq<char>,
    presented: Seq<char>,
    now: u64,
    later: u64,
)
    requires
        now <= later,
    ensures
        m.cleared(now).accepts(ip, presented, later) == m.accepts(ip, presented, later),
{
}

/// What tokens and their times stand for.
pub open spec fn given_model(m: Map<Seq<char>, (String, u64)>) -> Map<Seq<char>, (Seq<char>, u64)> {
    m.map_values(|e: (String, u64)| (e.0@, e.1))
}

/// The tokens that nodes were given.
pub struct TokenManager {
    given: TimedMap<String>,
    expired_after: u64,
}

impl View for TokenManager {
    type V = TokenModel;

    closed spec fn view(&self) -> TokenModel {
        TokenModel { given: given_model(self.given@), expired_after: self.expired_after }
    }
}

impl TokenManager {
    /// The tokens are held together.
    pub closed spec fn wf(&self) -> bool {
        self.given.wf()
    }

    /// No tokens yet; those to come hold for `expired_after`.
    pub fn new(expired_after: u64) -> (r: Self)
        ensures
            r@ == (TokenModel { given: Map::empty(), expired_after }),
            r.wf(),
    {
        let r = TokenManager { given: TimedMap::new(), expired_after };
        assert(r@.given =~= Map::empty());
        r
    }

    /// The token of a host; `new` is the random text that it gets where it holds none.
    pub fn token(&mut self, ip: &str, new: &str, now: u64) -> (r: String)
        requires
            old(self).wf(),
        ensures
            r@ == old(self)@.token(ip@, new@, now),
            final(self)@ == old(self)@.issued(ip@, new@, now),
            final(self).wf(),
    {
        let ghost before = self@;
        match self.given.get(ip) {
            Some(e) => {
                if is_fresh(e.1, self.expired_after, now) {
                    return e.0.clone();
                }
            },
            None => {},
        }
        self.given.insert(ip.to_owned(), new.to_owned(), now);
        assert(self@.given =~= before.issued(ip@, new@, now).given);
        new.to_owned()
    }

    /// Whether a host presents the token that it holds.
    pub fn check(&self, ip: &str, token: &str, now: u64) -> (r: bool)
        ensures
            r == self@.accepts(ip@, token@, now),
    {
        match self.given.get(ip) {
            Some(e) => {
                let t = token.to_owned();
                is_fresh(e.1, self.expired_after, now) && e.0 == t
            },
            None => false,
        }
    }

    /// Drops the tokens that have expired.
    pub fn clear_expired(&mut self, now: u64)
        requires
            old(self).wf(),
        ensures
            final(self)@ == old(self)@.cleared(now),
            final(self).wf(),
    {
        let ghost before = self@;
        self.given.clear_expired(self.expired_after, now);
        assert(self@.given =~= before.cleared(now).given);
    }
}

} // verus!
