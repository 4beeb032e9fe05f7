//! A map from texts to values that knows when each entry was made.

use vstd::prelude::*;
use vstd::string::*;
use vstd::hash_map::StringHashMap;
use crate::transaction::elapsed;

verus! {

broadcast use vstd::hash_map::group_hash_map_axioms;

/// An entry made at `at` is younger than `age` at `now`.
pub open spec fn fresh(at: u64, age: u64, now: u64) -> bool {
    elapsed(at, now) < age
}

/// What is said to be fresh came in less than its age ago.
pub proof fn law_fresh_means_younger(at: u64, age: u64, now: u64)
    ensures
        at <= now ==> fresh(at, age, now) == (now - at < age),
        at > now ==> fresh(at, age, now) == (age > 0),
{
}

/// Whether an entry is younger than `age`.
pub fn is_fresh(at: u64, age: u64, now: u64) -> (r: bool)
    ensures
        r == fresh(at, age, now),
{
    if now < at {
        0 < age
    } else {
        now - at < age
    }
}

/// The entries that are younger than `age` at `now`.
pub open spec fn fresh_entries<V>(m: Map<Seq<char>, (V, u64)>, age: u64, now: u64) -> Map<
    Seq<char>,
    (V, u64),
> {
    m.restrict(Set::new(|k: Seq<char>| fresh(m[k].1, age, now)))
}

/// A map from texts to values and the times at which they were entered.
#[verifier::reject_recursive_types(V)]
pub struct TimedMap<V> {
    map: StringHashMap<(V, u64)>,
    keys: Vec<String>,
}

impl<V> View for TimedMap<V> {
    type V = Map<Seq<char>, (V, u64)>;

    closed spec fn view(&self) -> Map<Seq<char>, (V, u64)> {
        self.map@
    }
}

spec fn listed(keys: Seq<String>, k: Seq<char>) -> bool {
    exists|i: int| 0 <= i < keys.len() && (#[trigger] keys[i])@ == k
}

impl<V> TimedMap<V> {
    /// Every key of the map is listed, and listed once.
    pub closed spec fn wf(&self) -> bool {
        &&& forall|k: Seq<char>| self.map@.dom().contains(k) <==> #[trigger] listed(self.keys@, k)
        &&& forall|i: int, j: int|
            0 <= i < j < self.keys@.len() ==> (#[trigger] self.keys@[i])@ != (
            #[trigger] self.keys@[j])@
    }

    /// An empty map.
    pub fn new() -> (r: Self)
        ensures
            r@ == Map::<Seq<char>, (V, u64)>::empty(),
            r.wf(),
    {
        TimedMap { map: StringHashMap::new(), keys: Vec::new() }
    }

    /// How many entries there are.
    pub fn len(&self) -> (r: usize)
        ensures
            r == self@.dom().len(),
    {
        self.map.len()
    }

    /// Whether a key has an entry.
    pub fn contains(&self, k: &str) -> (r: bool)
        ensures
            r == self@.dom().contains(k@),
    {
        self.map.contains_key(k)
    }

    /// The entry of a key.
    pub fn get(&self, k: &str) -> (r: Option<&(V, u64)>)
        ensures
            match r {
                Some(e) => self@.dom().contains(k@) && *e == self@[k@],
                None => !self@.dom().contains(k@),
            },
    {
        self.map.get(k)
    }

    /// Enters a value under a key, in place of an earlier one.
    pub fn insert(&mut self, k: String, v: V, now: u64)
        requires
            old(self).wf(),
        ensures
            final(self)@ == old(self)@.insert(k@, (v, now)),
            final(self).wf(),
    {
        if !self.map.contains_key(k.as_str()) {
            let ghost keys0 = self.keys@;
            self.keys.push(k.clone());
            proof {
                assert forall|q: Seq<char>| #[trigger] listed(self.keys@, q) <==> (listed(keys0, q)
                    || q == k@) by {
                    if listed(keys0, q) {
                        let i = choose|i: int| 0 <= i < keys0.len() && (#[trigger] keys0[i])@ == q;
                        assert(self.keys@[i]@ == q);
                    }
                    if q == k@ {
                        assert(self.keys@[keys0.len() as int]@ == q);
                    }
                    if listed(self.keys@, q) && q != k@ {
                        let i = choose|i: int|
                            0 <= i < self.keys@.len() && (#[trigger] self.keys@[i])@ == q;
                        assert(keys0[i]@ == q);
                    }
                }
                assert forall|i: int, j: int| 0 <= i < j < self.keys@.len() implies (
                #[trigger] self.keys@[i])@ != (#[trigger] self.keys@[j])@ by {
                    if j == keys0.len() {
                        assert(listed(keys0, keys0[i]@));
                    }
                }
            }
        }
        self.map.insert(k, (v, now));
    }

    /// Drops the entries that are not younger than `age`.
    pub fn clear_expired(&mut self, age: u64, now: u64)
        requires
            old(self).wf(),
        ensures
            final(self)@ == fresh_entries(old(self)@, age, now),
            final(self).wf(),
    {
        let ghost m0 = self.map@;
        let ghost keys0 = self.keys@;
        let mut kept: Vec<String> = Vec::new();
        let mut i: usize = 0;
        while i < self.keys.len()
            invariant
                i <= self.keys@.len(),
                self.keys@ == keys0,
                m0 == old(self).map@,
                keys0 == old(self).keys@,
                old(self).wf(),
                forall|k: Seq<char>| #[trigger]
                    self.map@.dom().contains(k) <==> m0.dom().contains(k) && (fresh(
                        m0[k].1,
                        age,
                        now,
                    ) || !listed(keys0.take(i as int), k)),
                forall|k: Seq<char>| #[trigger]
                    self.map@.dom().contains(k) ==> self.map@[k] == m0[k],
                forall|k: Seq<char>| #[trigger]
                    listed(kept@, k) <==> listed(keys0.take(i as int), k) && fresh(
                        m0[k].1,
                        age,
                        now,
                    ),
                forall|a: int, b: int|
                    0 <= a < b < kept@.len() ==> (#[trigger] kept@[a])@ != (#[trigger] kept@[b])@,
            decreases self.keys.len() - i,
        {
            let ghost done = keys0.take(i as int);
            let ghost cur = keys0[i as int]@;
            proof {
                assert(listed(keys0, cur));
                assert(!listed(done, cur)) by {
                    if listed(done, cur) {
                        let a = choose|a: int| 0 <= a < done.len() && (#[trigger] done[a])@ == cur;
                        assert(keys0[a]@ == cur);
                    }
                }
                assert forall|k: Seq<char>| #[trigger] listed(keys0.take(i + 1), k) <==> (listed(
                    done,
                    k,
                ) || k == cur) by {
                    let next = keys0.take(i + 1);
                    if listed(done, k) {
                        let a = choose|a: int| 0 <= a < done.len() && (#[trigger] done[a])@ == k;
                        assert(next[a]@ == k);
                    }
                    if k == cur {
                        assert(next[i as int]@ == k);
                    }
                    if listed(next, k) && k != cur {
                        let a = choose|a: int| 0 <= a < next.len() && (#[trigger] next[a])@ == k;
                        assert(done[a]@ == k);
                    }
                }
            }
            let live: bool = match self.map.get(self.keys[i].as_str()) {
                Some(e) => is_fresh(e.1, age, now),
                None => false,
            };
            assert(live == fresh(m0[cur].1, age, now));
            if live {
                let ghost kept0 = kept@;
                kept.push(self.keys[i].clone());
                proof {
                    assert forall|k: Seq<char>| #[trigger] listed(kept@, k) <==> (listed(kept0, k)
                        || k == cur) by {
                        if listed(kept0, k) {
                            let a = choose|a: int|
                                0 <= a < kept0.len() && (#[trigger] kept0[a])@ == k;
                            assert(kept@[a]@ == k);
                        }
                        if k == cur {
                            assert(kept@[kept0.len() as int]@ == k);
                        }
                        if listed(kept@, k) && k != cur {
                            let a = choose|a: int|
                                0 <= a < kept@.len() && (#[trigger] kept@[a])@ == k;
                            assert(kept0[a]@ == k);
                        }
                    }
                    assert forall|a: int, b: int| 0 <= a < b < kept@.len() implies (
                    #[trigger] kept@[a])@ != (#[trigger] kept@[b])@ by {
                        if b == kept0.len() {
                            assert(listed(kept0, kept0[a]@));
                        }
                    }
                }
            } else {
                let ghost map0 = self.map@;
                self.map.remove(self.keys[i].as_str());
                assert forall|k: Seq<char>| #[trigger]
                    self.map@.dom().contains(k) <==> map0.dom().contains(k) && k != cur by {}
            }
            i += 1;
        }
        assert(keys0.take(i as int) =~= keys0);
        self.keys = kept;
        assert(self.map@ =~= fresh_entries(m0, age, now));
    }
}

} // verus!
