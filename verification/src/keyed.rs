//! Entries under byte strings, in the order of their keys.

use vstd::prelude::*;

verus! {

/// The order of keys: byte by byte, a prefix before what it is a prefix of.
pub open spec fn lex_lt(a: Seq<u8>, b: Seq<u8>) -> bool
    decreases a.len(),
{
    if b.len() == 0 {
        false
    } else if a.len() == 0 {
        true
    } else if a[0] != b[0] {
        a[0] < b[0]
    } else {
        lex_lt(a.skip(1), b.skip(1))
    }
}

/// The entries stand in the order of their keys, each key once.
pub open spec fn sorted<T>(p: Seq<(Seq<u8>, T)>) -> bool {
    forall|i: int, j: int| 0 <= i < j < p.len() ==> lex_lt(#[trigger] p[i].0, #[trigger] p[j].0)
}

/// The entries with `k` bound to `v`: in its place in the order, replacing an earlier binding.
pub open spec fn put<T>(p: Seq<(Seq<u8>, T)>, k: Seq<u8>, v: T) -> Seq<(Seq<u8>, T)>
    decreases p.len(),
{
    if p.len() == 0 {
        seq![(k, v)]
    } else if p[0].0 == k {
        seq![(k, v)] + p.skip(1)
    } else if lex_lt(k, p[0].0) {
        seq![(k, v)] + p
    } else {
        seq![p[0]] + put(p.skip(1), k, v)
    }
}

/// What a key is bound to.
pub open spec fn lookup<T>(p: Seq<(Seq<u8>, T)>, k: Seq<u8>) -> Option<T>
    decreases p.len(),
{
    if p.len() == 0 {
        None
    } else if p[0].0 == k {
        Some(p[0].1)
    } else {
        lookup(p.skip(1), k)
    }
}

/// How one key stands to another in the order of keys.
pub enum Rank {
    Before,
    Same,
    After,
}

pub proof fn lemma_lex_irreflexive(a: Seq<u8>)
    ensures
        !lex_lt(a, a),
    decreases a.len(),
{
    if a.len() > 0 {
        lemma_lex_irreflexive(a.skip(1));
    }
}

pub proof fn lemma_lex_asymmetric(a: Seq<u8>, b: Seq<u8>)
    ensures
        lex_lt(a, b) ==> !lex_lt(b, a),
    decreases a.len(),
{
    if a.len() > 0 && b.len() > 0 && a[0] == b[0] {
        lemma_lex_asymmetric(a.skip(1), b.skip(1));
    }
}

pub proof fn lemma_lex_total(a: Seq<u8>, b: Seq<u8>)
    ensures
        lex_lt(a, b) || a == b || lex_lt(b, a),
    decreases a.len(),
{
    if a.len() > 0 && b.len() > 0 && a[0] == b[0] {
        lemma_lex_total(a.skip(1), b.skip(1));
        if a.skip(1) == b.skip(1) {
            assert(a =~= seq![a[0]] + a.skip(1));
            assert(b =~= seq![b[0]] + b.skip(1));
        }
    } else if a.len() == 0 && b.len() == 0 {
        assert(a =~= b);
    }
}

pub proof fn lemma_lex_transitive(a: Seq<u8>, b: Seq<u8>, c: Seq<u8>)
    requires
        lex_lt(a, b),
        lex_lt(b, c),
    ensures
        lex_lt(a, c),
    decreases a.len(),
{
    if a.len() > 0 && a[0] == b[0] && b[0] == c[0] {
        lemma_lex_transitive(a.skip(1), b.skip(1), c.skip(1));
    }
}

/// Places one key against another in the order of keys.
pub fn rank(a: &[u8], b: &[u8]) -> (r: Rank)
    ensures
        r is Before <==> lex_lt(a@, b@),
        r is Same <==> a@ == b@,
        r is After <==> lex_lt(b@, a@),
{
    let mut i: usize = 0;
    assert(a@.skip(0) =~= a@);
    assert(b@.skip(0) =~= b@);
    while i < a.len() && i < b.len()
        invariant
            i <= a@.len(),
            i <= b@.len(),
            a@.take(i as int) == b@.take(i as int),
            lex_lt(a@, b@) == lex_lt(a@.skip(i as int), b@.skip(i as int)),
            lex_lt(b@, a@) == lex_lt(b@.skip(i as int), a@.skip(i as int)),
        decreases a.len() - i,
    {
        assert(a@.skip(i as int)[0] == a@[i as int]);
        assert(b@.skip(i as int)[0] == b@[i as int]);
        if a[i] != b[i] {
            proof {
                lemma_lex_irreflexive(a@);
            }
            if a[i] < b[i] {
                return Rank::Before;
            } else {
                return Rank::After;
            }
        }
        assert(a@.skip(i as int).skip(1) =~= a@.skip(i + 1));
        assert(b@.skip(i as int).skip(1) =~= b@.skip(i + 1));
        assert(a@.take(i + 1) =~= a@.take(i as int).push(a@[i as int]));
        assert(b@.take(i + 1) =~= b@.take(i as int).push(b@[i as int]));
        i += 1;
    }
    if a.len() == b.len() {
        assert(a@ =~= a@.take(i as int));
        assert(b@ =~= b@.take(i as int));
        proof {
            lemma_lex_irreflexive(a@);
        }
        Rank::Same
    } else if i < b.len() {
        Rank::Before
    } else {
        Rank::After
    }
}

/// Two byte strings are equal.
pub fn same_bytes(a: &[u8], b: &[u8]) -> (r: bool)
    ensures
        r == (a@ == b@),
{
    match rank(a, b) {
        Rank::Same => true,
        _ => false,
    }
}

pub proof fn lemma_put_skips<T>(p: Seq<(Seq<u8>, T)>, i: int, k: Seq<u8>, v: T)
    requires
        0 <= i <= p.len(),
        forall|j: int| 0 <= j < i ==> (#[trigger] p[j]).0 != k && !lex_lt(k, p[j].0),
    ensures
        put(p, k, v) == p.take(i) + put(p.skip(i), k, v),
    decreases i,
{
    if i == 0 {
        assert(p.skip(0) =~= p);
        assert(p.take(0) + put(p, k, v) =~= put(p, k, v));
    } else {
        assert(p[0].0 != k && !lex_lt(k, p[0].0));
        assert forall|j: int| 0 <= j < i - 1 implies (#[trigger] p.skip(1)[j]).0 != k && !lex_lt(
            k,
            p.skip(1)[j].0,
        ) by {
            assert(p.skip(1)[j] == p[j + 1]);
        }
        lemma_put_skips(p.skip(1), i - 1, k, v);
        assert(p.skip(1).skip(i - 1) =~= p.skip(i));
        assert(seq![p[0]] + (p.skip(1).take(i - 1) + put(p.skip(i), k, v)) =~= p.take(i) + put(
            p.skip(i),
            k,
            v,
        ));
    }
}

pub proof fn lemma_lookup_skips<T>(p: Seq<(Seq<u8>, T)>, i: int, k: Seq<u8>)
    requires
        0 <= i <= p.len(),
        forall|j: int| 0 <= j < i ==> (#[trigger] p[j]).0 != k,
    ensures
        lookup(p, k) == lookup(p.skip(i), k),
    decreases i,
{
    if i == 0 {
        assert(p.skip(0) =~= p);
    } else {
        assert(p[0].0 != k);
        assert forall|j: int| 0 <= j < i - 1 implies (#[trigger] p.skip(1)[j]).0 != k by {
            assert(p.skip(1)[j] == p[j + 1]);
        }
        lemma_lookup_skips(p.skip(1), i - 1, k);
        assert(p.skip(1).skip(i - 1) =~= p.skip(i));
    }
}

/// What was bound last to a key is what the key is bound to; no other key is touched.
pub proof fn law_put_lookup<T>(p: Seq<(Seq<u8>, T)>, k: Seq<u8>, v: T, other: Seq<u8>)
    ensures
        lookup(put(p, k, v), k) == Some(v),
        other != k ==> lookup(put(p, k, v), other) == lookup(p, other),
    decreases p.len(),
{
    if p.len() == 0 {
        assert(put(p, k, v).skip(1) =~= p);
    } else if p[0].0 == k {
        assert(put(p, k, v).skip(1) =~= p.skip(1));
    } else if lex_lt(k, p[0].0) {
        assert(put(p, k, v).skip(1) =~= p);
    } else {
        law_put_lookup(p.skip(1), k, v, other);
        assert(put(p, k, v).skip(1) =~= put(p.skip(1), k, v));
    }
}

proof fn lemma_put_keys<T>(p: Seq<(Seq<u8>, T)>, k: Seq<u8>, v: T, b: Seq<u8>)
    requires
        lex_lt(b, k),
        forall|i: int| 0 <= i < p.len() ==> lex_lt(b, (#[trigger] p[i]).0),
    ensures
        forall|i: int| 0 <= i < put(p, k, v).len() ==> lex_lt(b, (#[trigger] put(p, k, v)[i]).0),
    decreases p.len(),
{
    if p.len() > 0 && p[0].0 != k && !lex_lt(k, p[0].0) {
        assert forall|i: int| 0 <= i < p.skip(1).len() implies lex_lt(
            b,
            (#[trigger] p.skip(1)[i]).0,
        ) by {
            assert(p.skip(1)[i] == p[i + 1]);
        }
        lemma_put_keys(p.skip(1), k, v, b);
        assert forall|i: int| 0 <= i < put(p, k, v).len() implies lex_lt(
            b,
            (#[trigger] put(p, k, v)[i]).0,
        ) by {
            if i > 0 {
                assert(put(p, k, v)[i] == put(p.skip(1), k, v)[i - 1]);
            }
        }
    }
}

/// Binding a key keeps the entries in order.
pub proof fn law_put_sorted<T>(p: Seq<(Seq<u8>, T)>, k: Seq<u8>, v: T)
    requires
        sorted(p),
    ensures
        sorted(put(p, k, v)),
    decreases p.len(),
{
    let q = put(p, k, v);
    if p.len() == 0 {
    } else if p[0].0 == k {
        assert forall|i: int, j: int| 0 <= i < j < q.len() implies lex_lt(
            #[trigger] q[i].0,
            #[trigger] q[j].0,
        ) by {
            assert(p[i].0 == q[i].0 && p[j].0 == q[j].0);
        }
    } else if lex_lt(k, p[0].0) {
        assert forall|i: int, j: int| 0 <= i < j < q.len() implies lex_lt(
            #[trigger] q[i].0,
            #[trigger] q[j].0,
        ) by {
            assert(q[j] == p[j - 1]);
            if i > 0 {
                assert(q[i] == p[i - 1]);
            } else if j > 1 {
                lemma_lex_transitive(k, p[0].0, p[j - 1].0);
            }
        }
    } else {
        lemma_lex_total(k, p[0].0);
        assert forall|i: int, j: int| 0 <= i < j < p.skip(1).len() implies lex_lt(
            #[trigger] p.skip(1)[i].0,
            #[trigger] p.skip(1)[j].0,
        ) by {
            assert(p.skip(1)[i] == p[i + 1] && p.skip(1)[j] == p[j + 1]);
        }
        law_put_sorted(p.skip(1), k, v);
        assert forall|i: int| 0 <= i < p.skip(1).len() implies lex_lt(
            p[0].0,
            (#[trigger] p.skip(1)[i]).0,
        ) by {
            assert(p.skip(1)[i] == p[i + 1]);
        }
        lemma_put_keys(p.skip(1), k, v, p[0].0);
        let r = put(p.skip(1), k, v);
        assert forall|i: int, j: int| 0 <= i < j < q.len() implies lex_lt(
            #[trigger] q[i].0,
            #[trigger] q[j].0,
        ) by {
            assert(q[j] == r[j - 1]);
            if i > 0 {
                assert(q[i] == r[i - 1]);
            }
        }
    }
}

} // verus!
