//! Bencode: the values that DHT and peer messages are made of, and their wire form.

use vstd::prelude::*;
use vstd::string::*;
use crate::keyed::{
    lemma_lex_asymmetric, lemma_lex_irreflexive, lemma_lookup_skips, lemma_put_skips, lex_lt,
    lookup, put, rank, same_bytes, Rank,
};
use vstd::slice::slice_to_vec;

verus! {

/// A bencoded value.
pub enum BVal {
    Int(i64),
    Bytes(Vec<u8>),
    List(Vec<BVal>),
    Dict(Dict),
}

/// A bencoded dictionary: its entries in the order of their keys, each key once.
pub struct Dict {
    pub pairs: Vec<(Vec<u8>, BVal)>,
}

/// What a bencoded value stands for.
pub enum BModel {
    Int(i64),
    Bytes(Seq<u8>),
    List(Seq<BModel>),
    Dict(Seq<(Seq<u8>, BModel)>),
}

impl BVal {
    pub open spec fn model(self) -> BModel
        decreases self,
    {
        match self {
            BVal::Int(n) => BModel::Int(n),
            BVal::Bytes(b) => BModel::Bytes(b@),
            BVal::List(l) => BModel::List(list_model(l@)),
            BVal::Dict(d) => BModel::Dict(d.model()),
        }
    }
}

impl View for BVal {
    type V = BModel;

    open spec fn view(&self) -> BModel {
        self.model()
    }
}

impl Dict {
    pub open spec fn model(self) -> Seq<(Seq<u8>, BModel)>
        decreases self,
    {
        pairs_model(self.pairs@)
    }
}

impl View for Dict {
    type V = Seq<(Seq<u8>, BModel)>;

    open spec fn view(&self) -> Seq<(Seq<u8>, BModel)> {
        self.model()
    }
}

pub open spec fn list_model(s: Seq<BVal>) -> Seq<BModel>
    decreases s,
{
    Seq::new(
        s.len(),
        |i: int|
            if 0 <= i < s.len() {
                s[i].model()
            } else {
                arbitrary()
            },
    )
}

pub open spec fn pairs_model(s: Seq<(Vec<u8>, BVal)>) -> Seq<(Seq<u8>, BModel)>
    decreases s,
{
    Seq::new(
        s.len(),
        |i: int|
            if 0 <= i < s.len() {
                (s[i].0@, s[i].1.model())
            } else {
                arbitrary()
            },
    )
}

// ---------------------------------------------------------------------------
// Dictionaries
// ---------------------------------------------------------------------------

/// The bytes of a key that is written as text.
pub open spec fn key(s: Seq<char>) -> Seq<u8> {
    vstd::utf8::encode_utf8(s)
}

/// The bytes under a key, where the key is bound to a byte string.
pub open spec fn bytes_at(p: Seq<(Seq<u8>, BModel)>, s: Seq<char>) -> Option<Seq<u8>> {
    match lookup(p, key(s)) {
        Some(BModel::Bytes(b)) => Some(b),
        _ => None,
    }
}

/// The integer under a key, where the key is bound to an integer.
pub open spec fn int_at(p: Seq<(Seq<u8>, BModel)>, s: Seq<char>) -> Option<i64> {
    match lookup(p, key(s)) {
        Some(BModel::Int(n)) => Some(n),
        _ => None,
    }
}

/// The list under a key, where the key is bound to a list.
pub open spec fn list_at(p: Seq<(Seq<u8>, BModel)>, s: Seq<char>) -> Option<Seq<BModel>> {
    match lookup(p, key(s)) {
        Some(BModel::List(l)) => Some(l),
        _ => None,
    }
}

/// The dictionary under a key, where the key is bound to a dictionary.
pub open spec fn dict_at(p: Seq<(Seq<u8>, BModel)>, s: Seq<char>) -> Option<
    Seq<(Seq<u8>, BModel)>,
> {
    match lookup(p, key(s)) {
        Some(BModel::Dict(d)) => Some(d),
        _ => None,
    }
}

impl Dict {
    /// A dictionary without entries.
    pub fn new() -> (d: Self)
        ensures
            d@ == Seq::<(Seq<u8>, BModel)>::empty(),
    {
        let d = Dict { pairs: Vec::new() };
        assert(d@ =~= Seq::<(Seq<u8>, BModel)>::empty());
        d
    }

    /// Binds a key given as bytes.
    pub fn set(&mut self, k: Vec<u8>, v: BVal)
        ensures
            final(self)@ == put(old(self)@, k@, v@),
    {
        let ghost p = self@;
        let mut i: usize = 0;
        while i < self.pairs.len()
            invariant
                i <= self.pairs@.len(),
                p == self@,
                *self == *old(self),
                forall|j: int| 0 <= j < i ==> (#[trigger] p[j]).0 != k@ && !lex_lt(k@, p[j].0),
            decreases self.pairs.len() - i,
        {
            assert(p[i as int].0 == self.pairs@[i as int].0@);
            match rank(k.as_slice(), self.pairs[i].0.as_slice()) {
                Rank::Same => {
                    proof {
                        lemma_put_skips(p, i as int, k@, v@);
                        assert(p.skip(i as int)[0] == p[i as int]);
                    }
                    let ghost kk = k@;
                    let ghost vv = v@;
                    self.pairs.set(i, (k, v));
                    assert(self@ =~= p.take(i as int) + (seq![(kk, vv)] + p.skip(
                        i as int,
                    ).skip(1)));
                    return;
                },
                Rank::Before => {
                    proof {
                        lemma_lex_irreflexive(k@);
                        lemma_put_skips(p, i as int, k@, v@);
                        assert(p.skip(i as int)[0] == p[i as int]);
                    }
                    let ghost kk = k@;
                    let ghost vv = v@;
                    self.pairs.insert(i, (k, v));
                    assert(self@ =~= p.take(i as int) + (seq![(kk, vv)] + p.skip(i as int)));
                    return;
                },
                Rank::After => {
                    proof {
                        lemma_lex_asymmetric(k@, p[i as int].0);
                        lemma_lex_irreflexive(k@);
                    }
                },
            }
            i += 1;
        }
        proof {
            lemma_put_skips(p, i as int, k@, v@);
        }
        let ghost kk = k@;
        let ghost vv = v@;
        self.pairs.push((k, v));
        assert(self@ =~= p.take(i as int) + seq![(kk, vv)]);
    }

    /// The dictionary with one more binding, its key given as text.
    pub fn with(self, k: &str, v: BVal) -> (d: Self)
        ensures
            d@ == put(self@, key(k@), v@),
    {
        let mut d = self;
        d.set(slice_to_vec(k.as_bytes()), v);
        d
    }

    /// The value bound to a key.
    pub fn get(&self, k: &str) -> (r: Option<&BVal>)
        ensures
            match r {
                Some(v) => lookup(self@, key(k@)) == Some(v@),
                None => lookup(self@, key(k@)) is None,
            },
    {
        let kb = k.as_bytes();
        let ghost p = self@;
        let mut i: usize = 0;
        while i < self.pairs.len()
            invariant
                i <= self.pairs@.len(),
                p == self@,
                kb@ == key(k@),
                forall|j: int| 0 <= j < i ==> (#[trigger] p[j]).0 != kb@,
            decreases self.pairs.len() - i,
        {
            assert(p[i as int].0 == self.pairs@[i as int].0@);
            if same_bytes(self.pairs[i].0.as_slice(), kb) {
                proof {
                    lemma_lookup_skips(p, i as int, kb@);
                    assert(p.skip(i as int)[0] == p[i as int]);
                }
                return Some(&self.pairs[i].1);
            }
            i += 1;
        }
        proof {
            lemma_lookup_skips(p, i as int, kb@);
        }
        None
    }

    /// The byte string bound to a key.
    pub fn get_bytes(&self, k: &str) -> (r: Option<&Vec<u8>>)
        ensures
            match r {
                Some(b) => bytes_at(self@, k@) == Some(b@),
                None => bytes_at(self@, k@) is None,
            },
    {
        match self.get(k) {
            Some(BVal::Bytes(b)) => Some(b),
            _ => None,
        }
    }

    /// The integer bound to a key.
    pub fn get_int(&self, k: &str) -> (r: Option<i64>)
        ensures
            r == int_at(self@, k@),
    {
        match self.get(k) {
            Some(BVal::Int(n)) => Some(*n),
            _ => None,
        }
    }

    /// The list bound to a key.
    pub fn get_list(&self, k: &str) -> (r: Option<&Vec<BVal>>)
        ensures
            match r {
                Some(l) => list_at(self@, k@) == Some(list_model(l@)),
                None => list_at(self@, k@) is None,
            },
    {
        match self.get(k) {
            Some(BVal::List(l)) => Some(l),
            _ => None,
        }
    }

    /// The dictionary bound to a key.
    pub fn get_dict(&self, k: &str) -> (r: Option<&Dict>)
        ensures
            match r {
                Some(d) => dict_at(self@, k@) == Some(d@),
                None => dict_at(self@, k@) is None,
            },
    {
        match self.get(k) {
            Some(BVal::Dict(d)) => Some(d),
            _ => None,
        }
    }
}

} // verus!
