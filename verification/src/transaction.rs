//! Queries that wait for their answers.

use vstd::prelude::*;
use vstd::string::*;
use vstd::hash_map::StringHashMap;
use vstd::arithmetic::power2::{
    lemma2_to64, lemma_pow2_pos, lemma_pow2_strictly_increases, lemma_pow2_unfold, pow2,
};
use vstd::bits::lemma_u32_shl_is_mul;
use crate::keyed::same_bytes;
use crate::types::{addr_text, opt_id, AddrModel, SocketAddr};
use crate::util::{be_bytes, int2bytes, law_be_bytes_injective};

verus! {

/// The most transactions that wait at one time.
pub const MAX_TRANSACTIONS: usize = 10000;

/// The nanoseconds of a second.
pub const SECOND: u64 = 1_000_000_000;

/// A query that waits for its answer. Times are nanoseconds of a clock that never runs backwards.
pub struct Transaction {
    pub trans_id_bytes: Vec<u8>,
    pub addr: SocketAddr,
    pub qtype: String,
    /// The ticket of the party that waits for the end of the transaction.
    pub responder: Option<u64>,
    pub info_hash: Option<[u8; 20]>,
    pub target: Option<[u8; 20]>,
    pub announce_port: Option<u16>,
    pub announce_implied_port: bool,
    pub created_at: u64,
    pub retries: u8,
}

/// What a transaction stands for.
pub struct TxModel {
    pub id: Seq<u8>,
    pub addr: AddrModel,
    pub qtype: Seq<char>,
    pub responder: Option<u64>,
    pub info_hash: Option<Seq<u8>>,
    pub target: Option<Seq<u8>>,
    pub announce_port: Option<u16>,
    pub announce_implied_port: bool,
    pub created_at: u64,
    pub retries: u8,
}

impl View for Transaction {
    type V = TxModel;

    open spec fn view(&self) -> TxModel {
        TxModel {
            id: self.trans_id_bytes@,
            addr: self.addr@,
            qtype: self.qtype@,
            responder: self.responder,
            info_hash: opt_id(self.info_hash),
            target: opt_id(self.target),
            announce_port: self.announce_port,
            announce_implied_port: self.announce_implied_port,
            created_at: self.created_at,
            retries: self.retries,
        }
    }
}

impl Clone for Transaction {
    fn clone(&self) -> (r: Self)
        ensures
            r@ == self@,
    {
        let id = self.trans_id_bytes.clone();
        assert(id@ =~= self.trans_id_bytes@);
        Transaction {
            trans_id_bytes: id,
            addr: self.addr.clone(),
            qtype: self.qtype.clone(),
            responder: self.responder,
            info_hash: self.info_hash,
            target: self.target,
            announce_port: self.announce_port,
            announce_implied_port: self.announce_implied_port,
            created_at: self.created_at,
            retries: self.retries,
        }
    }
}

/// What a list of transactions stands for.
pub open spec fn tx_list(s: Seq<Transaction>) -> Seq<TxModel> {
    Seq::new(s.len(), |i: int| s[i]@)
}

/// The place of the transaction with the identifier `tid`, or the end where there is none.
pub open spec fn place(s: Seq<TxModel>, tid: Seq<u8>) -> int
    decreases s.len(),
{
    if s.len() == 0 || s[0].id == tid {
        0
    } else {
        1 + place(s.skip(1), tid)
    }
}

/// The key of the index: the kind of query and the address, separated by a colon.
pub open spec fn index_key(qtype: Seq<char>, address: Seq<char>) -> Seq<char> {
    qtype + seq![':'] + address
}

/// The seconds that a transaction is given: the timeout, doubled with every retry.
pub open spec fn patience(retries: u8, timeout: u64) -> nat {
    let factor: nat = if retries >= 31 {
        u32::MAX as nat
    } else {
        pow2(retries as nat)
    };
    let product = (timeout / SECOND) as nat * factor;
    if product > u64::MAX {
        u64::MAX as nat
    } else {
        product
    }
}

/// The time from `then` to `now`; none where the clock has not passed `then`.
pub open spec fn elapsed(then: u64, now: u64) -> nat {
    if now < then {
        0
    } else {
        (now - then) as nat
    }
}

/// A transaction has waited as long as it is given.
pub open spec fn due(t: TxModel, timeout: u64, now: u64) -> bool {
    elapsed(t.created_at, now) / SECOND as nat >= patience(t.retries, timeout)
}

/// With every retry a transaction is given twice the time, as long as the time can be counted.
pub proof fn law_exponential_backoff(retries: u8, timeout: u64)
    requires
        retries < 30,
        (timeout / SECOND) * pow2(retries as nat + 1) <= u64::MAX,
    ensures
        patience((retries + 1) as u8, timeout) == 2 * patience(retries, timeout),
        patience(retries, timeout) >= timeout / SECOND,
{
    let base = (timeout / SECOND) as int;
    let p = pow2(retries as nat) as int;
    lemma_pow2_unfold(retries as nat + 1);
    lemma_pow2_pos(retries as nat);
    assert(base * (2 * p) == 2 * (base * p)) by (nonlinear_arith);
    assert(base * p >= base) by (nonlinear_arith)
        requires
            p >= 1,
            base >= 0,
    ;
    assert(base * p <= base * (2 * p)) by (nonlinear_arith)
        requires
            p >= 1,
            base >= 0,
    ;
}

/// A transaction is due once it has waited for the timeout, doubled with every retry; until the
/// thirtieth retry, and as long as the time can be counted.
pub proof fn law_due_after_timeout(x: TxModel, timeout: u64, now: u64)
    requires
        x.created_at <= now,
        x.retries <= 30,
        (timeout / 1_000_000_000) * pow2(x.retries as nat) <= u64::MAX,
    ensures
        due(x, timeout, now) == ((now - x.created_at) / 1_000_000_000 >= (timeout / 1_000_000_000)
            * pow2(x.retries as nat)),
        x.retries == 0 ==> due(x, timeout, now) == ((now - x.created_at) / 1_000_000_000 >= timeout
            / 1_000_000_000),
{
    vstd::arithmetic::power2::lemma2_to64();
    let base = (timeout / SECOND) as int;
    assert(base * 1 == base);
}

/// What the table of transactions holds.
#[verifier::ext_equal]
pub struct TransModel {
    pub entries: Seq<TxModel>,
    pub index: Map<Seq<char>, Seq<u8>>,
    pub cursor: u64,
    pub max_cursor: u64,
}

impl TransModel {
    /// The transaction with the identifier `tid`.
    pub open spec fn get(self, tid: Seq<u8>) -> Option<TxModel> {
        if place(self.entries, tid) < self.entries.len() {
            Some(self.entries[place(self.entries, tid)])
        } else {
            None
        }
    }

    /// The transaction of a kind that was last begun with an address.
    pub open spec fn get_at(self, qtype: Seq<char>, address: Seq<char>) -> Option<TxModel> {
        if self.index.dom().contains(index_key(qtype, address)) {
            self.get(self.index[index_key(qtype, address)])
        } else {
            None
        }
    }

    /// The next transaction identifier.
    pub open spec fn next_id(self) -> Seq<u8> {
        be_bytes((self.cursor % self.max_cursor) as nat)
    }

    /// The table after an identifier was handed out.
    pub open spec fn advanced(self) -> TransModel {
        TransModel {
            cursor: if self.cursor == u64::MAX {
                0
            } else {
                (self.cursor + 1) as u64
            },
            ..self
        }
    }

    /// The table after a transaction was begun; a full table stays as it is.
    pub open spec fn begun(self, t: TxModel) -> TransModel {
        if self.entries.len() >= MAX_TRANSACTIONS {
            self
        } else {
            let at = place(self.entries, t.id);
            TransModel {
                entries: if at < self.entries.len() {
                    self.entries.update(at, t)
                } else {
                    self.entries.push(t)
                },
                index: self.index.insert(index_key(t.qtype, addr_text(t.addr)), t.id),
                ..self
            }
        }
    }

    /// The table after the transaction `tid` came to its end.
    pub open spec fn finished(self, tid: Seq<u8>) -> TransModel {
        let at = place(self.entries, tid);
        if at < self.entries.len() {
            TransModel { entries: self.entries.remove(at), ..self }
        } else {
            self
        }
    }

    /// The table after the transaction `tid` was tried once more.
    pub open spec fn retried(self, tid: Seq<u8>, now: u64) -> TransModel {
        let at = place(self.entries, tid);
        if at < self.entries.len() {
            let t = self.entries[at];
            let again = TxModel {
                retries: if t.retries == u8::MAX {
                    u8::MAX
                } else {
                    (t.retries + 1) as u8
                },
                created_at: now,
                ..t
            };
            TransModel { entries: self.entries.update(at, again), ..self }
        } else {
            self
        }
    }

    /// The transactions that are due and may be tried again.
    pub open spec fn to_retry(self, timeout: u64, max_retries: u8, now: u64) -> Seq<TxModel> {
        self.entries.filter(|t: TxModel| due(t, timeout, now) && t.retries < max_retries)
    }

    /// The transactions that are due and have used up their retries.
    pub open spec fn to_remove(self, timeout: u64, max_retries: u8, now: u64) -> Seq<TxModel> {
        self.entries.filter(|t: TxModel| due(t, timeout, now) && t.retries >= max_retries)
    }

    /// No identifier is used twice, and the table is within its bound.
    pub open spec fn valid(self) -> bool {
        &&& self.max_cursor > 0
        &&& self.entries.len() <= MAX_TRANSACTIONS
        &&& forall|i: int, j: int|
            0 <= i < j < self.entries.len() ==> (#[trigger] self.entries[i]).id
                != (#[trigger] self.entries[j]).id
    }
}

pub proof fn lemma_place(s: Seq<TxModel>, tid: Seq<u8>)
    ensures
        0 <= place(s, tid) <= s.len(),
        place(s, tid) < s.len() ==> s[place(s, tid)].id == tid,
        forall|i: int| 0 <= i < place(s, tid) ==> (#[trigger] s[i]).id != tid,
    decreases s.len(),
{
    if s.len() > 0 && s[0].id != tid {
        let t = s.skip(1);
        lemma_place(t, tid);
        assert forall|i: int| 0 <= i < place(s, tid) implies (#[trigger] s[i]).id != tid by {
            if i > 0 {
                assert(t[i - 1] == s[i]);
            }
        }
    }
}

proof fn lemma_place_is(s: Seq<TxModel>, tid: Seq<u8>, i: int)
    requires
        0 <= i <= s.len(),
        forall|j: int| 0 <= j < i ==> (#[trigger] s[j]).id != tid,
        i < s.len() ==> s[i].id == tid,
    ensures
        place(s, tid) == i,
{
    lemma_place(s, tid);
    let p = place(s, tid);
    if p < i {
        assert(s[p].id != tid);
    } else if i < p {
        assert(s[i].id != tid);
    }
}

/// Beginning a transaction keeps identifiers apart and the table within its bound.
pub proof fn law_begin_keeps_valid(m: TransModel, t: TxModel)
    requires
        m.valid(),
    ensures
        m.begun(t).valid(),
{
    lemma_place(m.entries, t.id);
}

/// Ending a transaction keeps identifiers apart, and the transaction is not found any more.
pub proof fn law_finish(m: TransModel, tid: Seq<u8>, other: Seq<u8>)
    requires
        m.valid(),
    ensures
        m.finished(tid).valid(),
        m.finished(tid).get(tid) is None,
        other != tid ==> m.finished(tid).get(other) == m.get(other),
{
    lemma_place(m.entries, tid);
    lemma_place(m.entries, other);
    let at = place(m.entries, tid);
    let rest = m.finished(tid).entries;
    lemma_place(rest, tid);
    let p = place(rest, tid);
    if at < m.entries.len() {
        assert forall|i: int| 0 <= i < rest.len() implies (#[trigger] rest[i]).id != tid by {
            if i < at {
                assert(rest[i] == m.entries[i]);
            } else {
                assert(rest[i] == m.entries[i + 1]);
                assert(m.entries[at].id == tid);
            }
        }
        if other != tid {
            let q = place(m.entries, other);
            let nq = if q > at {
                q - 1
            } else {
                q
            };
            assert forall|j: int| 0 <= j < nq implies (#[trigger] rest[j]).id != other by {
                if j < at {
                    assert(rest[j] == m.entries[j]);
                } else {
                    assert(rest[j] == m.entries[j + 1]);
                }
            }
            lemma_place_is(rest, other, nq);
        }
    }
}

/// A transaction that was begun is found by its identifier and by its kind and address, and no
/// other transaction is lost.
pub proof fn law_begin_then_get(m: TransModel, t: TxModel, other: Seq<u8>)
    requires
        m.entries.len() < MAX_TRANSACTIONS,
    ensures
        m.begun(t).get(t.id) == Some(t),
        m.begun(t).get_at(t.qtype, addr_text(t.addr)) == Some(t),
        other != t.id ==> m.begun(t).get(other) == m.get(other),
{
    lemma_place(m.entries, t.id);
    lemma_place(m.entries, other);
    let s = m.begun(t).entries;
    let at = place(m.entries, t.id);
    assert forall|j: int| 0 <= j < at implies (#[trigger] s[j]).id != t.id by {
        assert(s[j] == m.entries[j]);
    }
    lemma_place_is(s, t.id, at);
    if other != t.id {
        let q = place(m.entries, other);
        let nq = if q == m.entries.len() {
            s.len() as int
        } else {
            q
        };
        assert forall|j: int| 0 <= j < nq implies (#[trigger] s[j]).id != other by {
            if j < m.entries.len() && j != at {
                assert(s[j] == m.entries[j]);
            }
        }
        lemma_place_is(s, other, nq);
    }
}

/// Trying a transaction once more keeps identifiers apart and leaves all others alone. The
/// transaction itself waits anew, with one more retry counted.
pub proof fn law_retry(m: TransModel, tid: Seq<u8>, now: u64, other: Seq<u8>)
    requires
        m.valid(),
    ensures
        m.retried(tid, now).valid(),
        m.retried(tid, now).get(tid) == match m.get(tid) {
            Some(t) => Some(
                TxModel {
                    retries: if t.retries == u8::MAX {
                        u8::MAX
                    } else {
                        (t.retries + 1) as u8
                    },
                    created_at: now,
                    ..t
                },
            ),
            None => None,
        },
        other != tid ==> m.retried(tid, now).get(other) == m.get(other),
{
    lemma_place(m.entries, tid);
    lemma_place(m.entries, other);
    let s = m.retried(tid, now).entries;
    let at = place(m.entries, tid);
    if at < m.entries.len() {
        assert forall|i: int| 0 <= i < s.len() implies (#[trigger] s[i]).id == m.entries[i].id by {}
        lemma_place_is(s, tid, at);
        lemma_place_is(s, other, place(m.entries, other));
    }
}

/// A transaction that has waited as long as it is given is tried again or given up, as its retries
/// say, and one that has not is left alone.
pub proof fn law_due_is_retried_or_given_up(
    m: TransModel,
    timeout: u64,
    max_retries: u8,
    now: u64,
    i: int,
)
    requires
        0 <= i < m.entries.len(),
    ensures
        m.to_retry(timeout, max_retries, now).contains(m.entries[i]) == (due(
            m.entries[i],
            timeout,
            now,
        ) && m.entries[i].retries < max_retries),
        m.to_remove(timeout, max_retries, now).contains(m.entries[i]) == (due(
            m.entries[i],
            timeout,
            now,
        ) && m.entries[i].retries >= max_retries),
{
    let t = m.entries[i];
    let again = |t: TxModel| due(t, timeout, now) && t.retries < max_retries;
    let over = |t: TxModel| due(t, timeout, now) && t.retries >= max_retries;
    if again(t) {
        m.entries.lemma_filter_contains(again, i);
    }
    if over(t) {
        m.entries.lemma_filter_contains(over, i);
    }
    let r = m.entries.filter(again);
    let g = m.entries.filter(over);
    if r.contains(t) {
        let j = choose|j: int| 0 <= j < r.len() && r[j] == t;
        m.entries.lemma_filter_pred(again, j);
    }
    if g.contains(t) {
        let j = choose|j: int| 0 <= j < g.len() && g[j] == t;
        m.entries.lemma_filter_pred(over, j);
    }
}

/// A full table refuses every transaction.
pub proof fn law_full_table_refuses(m: TransModel, t: TxModel)
    requires
        m.entries.len() >= MAX_TRANSACTIONS,
    ensures
        m.begun(t) == m,
{
}

/// The table after `n` identifiers were handed out.
pub open spec fn advanced_by(m: TransModel, n: nat) -> TransModel
    decreases n,
{
    if n == 0 {
        m
    } else {
        advanced_by(m, (n - 1) as nat).advanced()
    }
}

proof fn lemma_advanced_by(m: TransModel, n: nat)
    requires
        m.cursor + n <= u64::MAX,
    ensures
        advanced_by(m, n).cursor == m.cursor + n,
        advanced_by(m, n).max_cursor == m.max_cursor,
    decreases n,
{
    if n > 0 {
        lemma_advanced_by(m, (n - 1) as nat);
    }
}

/// Identifiers that are handed out less than a whole round apart are different.
pub proof fn law_ids_differ_within_a_round(m: TransModel, n: nat)
    requires
        m.max_cursor > 0,
        0 < n < m.max_cursor,
        m.cursor + n <= u64::MAX,
    ensures
        advanced_by(m, n).next_id() != m.next_id(),
{
    lemma_advanced_by(m, n);
    let a = m.cursor as int;
    let k = m.max_cursor as int;
    if advanced_by(m, n).next_id() == m.next_id() {
        law_be_bytes_injective(
            (advanced_by(m, n).cursor % m.max_cursor) as nat,
            (m.cursor % m.max_cursor) as nat,
        );
        assert((a + n) % k == a % k);
        assert(false) by (nonlinear_arith)
            requires
                (a + n) % k == a % k,
                0 < n < k,
                a >= 0,
        {
            assert((a + n) == k * ((a + n) / k) + (a + n) % k);
            assert(a == k * (a / k) + a % k);
            let d = (a + n) / k - a / k;
            assert(k * d == n);
            assert(d < 1 || d >= 1);
        }
    }
}

/// The queries that wait for their answers.
pub struct TransactionManager {
    cursor: u64,
    max_cursor: u64,
    entries: Vec<Transaction>,
    index: StringHashMap<Vec<u8>>,
}

impl View for TransactionManager {
    type V = TransModel;

    closed spec fn view(&self) -> TransModel {
        TransModel {
            entries: tx_list(self.entries@),
            index: self.index@.map_values(|v: Vec<u8>| v@),
            cursor: self.cursor,
            max_cursor: self.max_cursor,
        }
    }
}

fn copy_bytes(b: &Vec<u8>) -> (r: Vec<u8>)
    ensures
        r@ == b@,
{
    let r = b.clone();
    assert(r@ =~= b@);
    r
}

/// How long a transaction is given, in seconds.
fn patience_secs(retries: u8, timeout: u64) -> (r: u64)
    ensures
        r == patience(retries, timeout),
{
    let factor: u64 = if retries >= 31 {
        0xffff_ffff
    } else {
        proof {
            lemma2_to64();
            if retries < 30 {
                lemma_pow2_strictly_increases(retries as nat, 30);
            }
            lemma_u32_shl_is_mul(1u32, retries as u32);
        }
        (1u32 << (retries as u32)) as u64
    };
    let base: u64 = timeout / SECOND;
    proof {
        assert(base * factor <= 0xffff_ffff_ffff_ffff * 0xffff_ffff_ffff_ffff) by (nonlinear_arith)
            requires
                0 <= base <= 0xffff_ffff_ffff_ffff,
                0 <= factor <= 0xffff_ffff_ffff_ffff,
        ;
    }
    let product: u128 = base as u128 * factor as u128;
    if product > 0xffff_ffff_ffff_ffff {
        u64::MAX
    } else {
        product as u64
    }
}

/// Whether a transaction has waited as long as it is given.
fn is_due(t: &Transaction, timeout: u64, now: u64) -> (r: bool)
    ensures
        r == due(t@, timeout, now),
{
    let waited: u64 = if now < t.created_at {
        0
    } else {
        now - t.created_at
    };
    waited / SECOND >= patience_secs(t.retries, timeout)
}

impl TransactionManager {
    /// An empty table that hands out identifiers below `max_cursor`.
    pub fn new(max_cursor: u64) -> (r: Self)
        ensures
            r@ == (TransModel {
                entries: Seq::empty(),
                index: Map::empty(),
                cursor: 0,
                max_cursor,
            }),
            max_cursor > 0 ==> r@.valid(),
    {
        let r = TransactionManager {
            cursor: 0,
            max_cursor,
            entries: Vec::new(),
            index: StringHashMap::new(),
        };
        assert(r@.entries =~= Seq::empty());
        assert(r@.index =~= Map::empty());
        r
    }

    /// Hands out the next transaction identifier.
    pub fn gen_id(&mut self) -> (r: Vec<u8>)
        requires
            old(self)@.max_cursor > 0,
        ensures
            r@ == old(self)@.next_id(),
            final(self)@ == old(self)@.advanced(),
    {
        let id: u64 = self.cursor % self.max_cursor;
        self.cursor = if self.cursor == u64::MAX {
            0
        } else {
            self.cursor + 1
        };
        int2bytes(id)
    }

    /// The key of the index.
    pub fn gen_index_key(&self, query_type: &str, address: &str) -> (r: String)
        ensures
            r@ == index_key(query_type@, address@),
    {
        let mut out = query_type.to_owned();
        out.push(':');
        out.append(address);
        assert(out@ =~= index_key(query_type@, address@));
        out
    }

    fn find(&self, tid: &[u8]) -> (r: usize)
        ensures
            r == place(self@.entries, tid@),
            r <= self.entries@.len(),
    {
        let mut i: usize = 0;
        while i < self.entries.len()
            invariant
                i <= self.entries@.len(),
                forall|j: int| 0 <= j < i ==> (#[trigger] self@.entries[j]).id != tid@,
            decreases self.entries.len() - i,
        {
            assert(self@.entries[i as int] == self.entries@[i as int]@);
            if same_bytes(self.entries[i].trans_id_bytes.as_slice(), tid) {
                proof {
                    lemma_place_is(self@.entries, tid@, i as int);
                }
                return i;
            }
            i += 1;
        }
        proof {
            lemma_place_is(self@.entries, tid@, i as int);
        }
        i
    }

    /// Begins a transaction; a full table refuses it.
    pub fn insert(&mut self, trans: Transaction) -> (r: bool)
        ensures
            r == (old(self)@.entries.len() < MAX_TRANSACTIONS),
            final(self)@ == old(self)@.begun(trans@),
            old(self)@.valid() ==> final(self)@.valid(),
    {
        proof {
            if self@.valid() {
                law_begin_keeps_valid(self@, trans@);
            }
        }
        if self.entries.len() >= MAX_TRANSACTIONS {
            return false;
        }
        let ghost before = self@;
        let ghost t = trans@;
        let key = copy_bytes(&trans.trans_id_bytes);
        let address = trans.addr.text();
        let idx = self.gen_index_key(trans.qtype.as_str(), address.as_str());
        let at: usize = self.find(key.as_slice());
        if at < self.entries.len() {
            self.entries.set(at, trans);
            assert(self@.entries =~= before.entries.update(at as int, t));
        } else {
            self.entries.push(trans);
            assert(self@.entries =~= before.entries.push(t));
        }
        self.index.insert(idx, key);
        assert(self@.index =~= before.begun(t).index);
        true
    }

    /// The transaction with an identifier.
    pub fn get_by_trans_id(&self, tid: &[u8]) -> (r: Option<&Transaction>)
        ensures
            match r {
                Some(t) => self@.get(tid@) == Some(t@),
                None => self@.get(tid@) is None,
            },
    {
        let at: usize = self.find(tid);
        if at < self.entries.len() {
            Some(&self.entries[at])
        } else {
            None
        }
    }

    /// The transaction of a kind that was last begun with an address, where it still waits.
    pub fn get_by_index(&self, query_type: &str, address: &str) -> (r: Option<&Transaction>)
        ensures
            match r {
                Some(t) => self@.get_at(query_type@, address@) == Some(t@),
                None => self@.get_at(query_type@, address@) is None,
            },
    {
        let idx = self.gen_index_key(query_type, address);
        match self.index.get(idx.as_str()) {
            Some(tid) => self.get_by_trans_id(tid.as_slice()),
            None => None,
        }
    }

    /// Ends a transaction and hands out the ticket of the party that waits for its end.
    pub fn finish_by_trans_id(&mut self, tid: &[u8]) -> (r: Option<u64>)
        ensures
            final(self)@ == old(self)@.finished(tid@),
            r == match old(self)@.get(tid@) {
                Some(t) => t.responder,
                None => None,
            },
            old(self)@.valid() ==> final(self)@.valid(),
    {
        proof {
            if self@.valid() {
                law_finish(self@, tid@, tid@);
            }
        }
        let ghost before = self@;
        let at: usize = self.find(tid);
        if at < self.entries.len() {
            let t = self.entries.remove(at);
            assert(self@.entries =~= before.entries.remove(at as int));
            t.responder
        } else {
            None
        }
    }

    /// How many transactions wait.
    pub fn len(&self) -> (r: usize)
        ensures
            r == self@.entries.len(),
    {
        self.entries.len()
    }

    /// The transactions that are due: those to try again, and the identifiers of those to give up.
    pub fn scan_timeouts(&self, timeout: u64, max_retries: u8, now: u64) -> (r: (
        Vec<Transaction>,
        Vec<Vec<u8>>,
    ))
        ensures
            tx_list(r.0@) == self@.to_retry(timeout, max_retries, now),
            r.1@.len() == self@.to_remove(timeout, max_retries, now).len(),
            forall|i: int|
                0 <= i < r.1@.len() ==> (#[trigger] r.1@[i])@ == self@.to_remove(
                    timeout,
                    max_retries,
                    now,
                )[i].id,
    {
        let mut to_retry: Vec<Transaction> = Vec::new();
        let mut to_remove: Vec<Vec<u8>> = Vec::new();
        let ghost all = self@.entries;
        let ghost again = |t: TxModel| due(t, timeout, now) && t.retries < max_retries;
        let ghost over = |t: TxModel| due(t, timeout, now) && t.retries >= max_retries;
        let mut i: usize = 0;
        assert(tx_list(to_retry@) =~= all.take(0).filter(again)) by {
            reveal(Seq::filter);
        }
        assert(all.take(0).filter(over).len() == 0) by {
            reveal(Seq::filter);
        }
        while i < self.entries.len()
            invariant
                i <= self.entries@.len(),
                all == tx_list(self.entries@),
                again == (|t: TxModel| due(t, timeout, now) && t.retries < max_retries),
                over == (|t: TxModel| due(t, timeout, now) && t.retries >= max_retries),
                tx_list(to_retry@) == all.take(i as int).filter(again),
                to_remove@.len() == all.take(i as int).filter(over).len(),
                forall|j: int|
                    0 <= j < to_remove@.len() ==> (#[trigger] to_remove@[j])@ == all.take(
                        i as int,
                    ).filter(over)[j].id,
            decreases self.entries.len() - i,
        {
            let t = &self.entries[i];
            proof {
                reveal(Seq::filter);
                assert(all.take(i + 1).drop_last() =~= all.take(i as int));
                assert(all.take(i + 1).last() == t@);
            }
            if is_due(t, timeout, now) {
                if t.retries >= max_retries {
                    to_remove.push(copy_bytes(&t.trans_id_bytes));
                } else {
                    let ghost r0 = tx_list(to_retry@);
                    let copy = t.clone();
                    to_retry.push(copy);
                    assert(tx_list(to_retry@) =~= r0.push(t@));
                }
            }
            i += 1;
        }
        assert(all.take(i as int) =~= all);
        (to_retry, to_remove)
    }

    /// Notes that a transaction was tried once more.
    pub fn mark_retry(&mut self, tid: &[u8], now: u64)
        ensures
            final(self)@ == old(self)@.retried(tid@, now),
            old(self)@.valid() ==> final(self)@.valid(),
    {
        let ghost before = self@;
        let at: usize = self.find(tid);
        if at < self.entries.len() {
            let mut t = self.entries[at].clone();
            t.retries = if t.retries == u8::MAX {
                u8::MAX
            } else {
                t.retries + 1
            };
            t.created_at = now;
            self.entries.set(at, t);
            assert(self@.entries =~= before.retried(tid@, now).entries);
        }
    }
}

} // verus!
