//! The secret collection: unique string keys mapped to string values,
//! kept in ascending byte-lexicographic key order so that encoding is
//! deterministic and diffable.

use vstd::prelude::*;
use vstd::utf8::*;
use std::collections::BTreeMap;
use crate::byteseq::{lex_lt, lemma_lex_lt_irreflexive, lemma_lex_lt_total, lemma_lex_lt_transitive,
    slice_lex_lt, string_from_utf8};
use crate::errors::ValueUtf8Error;

verus! {

/// A container for secrets. Entries are held sorted by key, in the strict
/// lexicographic order of the keys' UTF-8 bytes, with no duplicate keys;
/// this is the order in which they are serialised.
pub struct Secrets {
    pub content: Vec<(String, String)>,
}

/// The mathematical content of a list of (key, value) byte entries read
/// front to back: a later entry with the same key wins.
pub open spec fn map_of(entries: Seq<(Seq<u8>, Seq<u8>)>) -> Map<Seq<u8>, Seq<u8>>
    decreases entries.len(),
{
    if entries.len() == 0 {
        Map::empty()
    } else {
        map_of(entries.drop_last()).insert(entries.last().0, entries.last().1)
    }
}

/// Entries inserted into an accumulator front to back: a later entry
/// with the same key wins. This is how decoding and bulk construction
/// read a pair list.
pub open spec fn insert_all(
    entries: Seq<(Seq<u8>, Seq<u8>)>,
    acc: Map<Seq<u8>, Seq<u8>>,
) -> Map<Seq<u8>, Seq<u8>>
    decreases entries.len(),
{
    if entries.len() == 0 {
        acc
    } else {
        insert_all(entries.skip(1), acc.insert(entries[0].0, entries[0].1))
    }
}

/// Inserting a pair at position `p` acts on the entry map as a plain map
/// insertion, as long as no entry from `p` onwards carries the same key
/// (a later entry would win over the inserted one).
pub proof fn lemma_map_of_insert_at(es: Seq<(Seq<u8>, Seq<u8>)>, p: int, kb: Seq<u8>, vb: Seq<u8>)
    requires
        0 <= p <= es.len(),
        forall|j: int| p <= j < es.len() ==> (#[trigger] es[j]).0 != kb,
    ensures
        map_of(es.insert(p, (kb, vb))) == map_of(es).insert(kb, vb),
    decreases es.len(),
{
    let ns = es.insert(p, (kb, vb));
    if p == es.len() {
        assert(ns.drop_last() =~= es);
        assert(ns.last() == (kb, vb));
    } else {
        let last = es.last();
        assert(last == es[es.len() - 1]);
        assert(ns.last() == last);
        assert(ns.drop_last() =~= es.drop_last().insert(p, (kb, vb)));
        lemma_map_of_insert_at(es.drop_last(), p, kb, vb);
        assert(last.0 != kb);
        assert(map_of(es.drop_last()).insert(kb, vb).insert(last.0, last.1) =~= map_of(
            es.drop_last(),
        ).insert(last.0, last.1).insert(kb, vb));
    }
}

/// Overwriting the value at position `p` acts on the entry map as a plain
/// map insertion for that entry's key, as long as no later entry carries
/// the same key.
pub proof fn lemma_map_of_update_at(es: Seq<(Seq<u8>, Seq<u8>)>, p: int, vb: Seq<u8>)
    requires
        0 <= p < es.len(),
        forall|j: int| p < j < es.len() ==> (#[trigger] es[j]).0 != es[p].0,
    ensures
        map_of(es.update(p, (es[p].0, vb))) == map_of(es).insert(es[p].0, vb),
    decreases es.len(),
{
    let kb = es[p].0;
    let ns = es.update(p, (kb, vb));
    if p == es.len() - 1 {
        assert(ns.drop_last() =~= es.drop_last());
        assert(ns.last() == (kb, vb));
    } else {
        let last = es.last();
        assert(ns.last() == last);
        assert(ns.drop_last() =~= es.drop_last().update(p, (kb, vb)));
        lemma_map_of_update_at(es.drop_last(), p, vb);
        assert(last.0 != kb);
        assert(map_of(es.drop_last()).insert(kb, vb).insert(last.0, last.1) =~= map_of(
            es.drop_last(),
        ).insert(last.0, last.1).insert(kb, vb));
    }
}

impl Secrets {
    /// The UTF-8 bytes of the key at entry `i`.
    pub open spec fn key_at(&self, i: int) -> Seq<u8> {
        encode_utf8(self.content@[i].0@)
    }

    /// The UTF-8 bytes of the value at entry `i`.
    pub open spec fn value_at(&self, i: int) -> Seq<u8> {
        encode_utf8(self.content@[i].1@)
    }

    /// The entries as (key bytes, value bytes) pairs, in storage order.
    pub open spec fn entries(&self) -> Seq<(Seq<u8>, Seq<u8>)> {
        Seq::new(self.content@.len() as nat, |i: int| (self.key_at(i), self.value_at(i)))
    }

    /// Well-formed: keys strictly ascending, hence unique.
    pub open spec fn wf(&self) -> bool {
        forall|i: int, j: int|
            0 <= i < j < self.content@.len() ==> lex_lt(
                #[trigger] self.key_at(i),
                #[trigger] self.key_at(j),
            )
    }

    pub fn new() -> (r: Secrets)
        ensures
            r.wf(),
            r@ == Map::<Seq<u8>, Seq<u8>>::empty(),
            r.content@.len() == 0,
    {
        let r = Secrets { content: Vec::new() };
        proof {
            assert(r.entries() =~= Seq::<(Seq<u8>, Seq<u8>)>::empty());
        }
        r
    }

    /// Insert a secret, keeping the key order; an existing entry with the
    /// same key is overwritten.
    pub fn insert(&mut self, key: String, value: String)
        requires
            old(self).wf(),
        ensures
            final(self).wf(),
            final(self)@ == old(self)@.insert(encode_utf8(key@), encode_utf8(value@)),
    {
        let ghost kb = encode_utf8(key@);
        let ghost vb = encode_utf8(value@);
        let mut i: usize = 0;
        loop
            invariant
                self == old(self),
                kb == encode_utf8(key@),
                i <= self.content@.len(),
                forall|k: int| 0 <= k < i ==> lex_lt(#[trigger] self.key_at(k), kb),
            ensures
                self == old(self),
                i <= self.content@.len(),
                forall|k: int| 0 <= k < i ==> lex_lt(#[trigger] self.key_at(k), kb),
                i < self.content@.len() ==> !lex_lt(self.key_at(i as int), kb),
            decreases self.content@.len() - i,
        {
            if i == self.content.len() {
                break ;
            }
            let cur_lt = slice_lex_lt(self.content[i].0.as_str().as_bytes(), key.as_str().as_bytes());
            if !cur_lt {
                break ;
            }
            i = i + 1;
        }
        let ghost es = self.entries();
        let ghost n = i as int;
        if i < self.content.len() {
            let key_lt = slice_lex_lt(key.as_str().as_bytes(), self.content[i].0.as_str().as_bytes());
            if !key_lt {
                // Neither order holds, so the keys are equal: overwrite.
                proof {
                    lemma_lex_lt_total(kb, old(self).key_at(n));
                    assert(kb == es[n].0);
                    assert forall|j: int| n < j < es.len() implies (#[trigger] es[j]).0 != es[n].0 by {
                        lemma_lex_lt_irreflexive(old(self).key_at(j));
                    }
                    lemma_map_of_update_at(es, n, vb);
                }
                self.content.remove(i);
                self.content.insert(i, (key, value));
                proof {
                    assert(self.content@ =~= old(self).content@.update(n, (key, value)));
                    assert(self.entries() =~= es.update(n, (kb, vb)));
                    assert forall|a: int, b: int|
                        0 <= a < b < self.content@.len() implies lex_lt(
                        #[trigger] self.key_at(a),
                        #[trigger] self.key_at(b),
                    ) by {
                        assert(lex_lt(old(self).key_at(a), old(self).key_at(b)));
                        assert(self.key_at(a) == old(self).key_at(a));
                        assert(self.key_at(b) == old(self).key_at(b));
                    }
                }
                return ;
            }
        }
        // Insert a fresh entry at position i: everything before is smaller,
        // everything from i on is strictly greater.
        proof {
            assert forall|j: int| n <= j < es.len() implies (#[trigger] es[j]).0 != kb by {
                if j > n {
                    lemma_lex_lt_transitive(kb, old(self).key_at(n), old(self).key_at(j));
                }
                lemma_lex_lt_irreflexive(old(self).key_at(j));
            }
            lemma_map_of_insert_at(es, n, kb, vb);
        }
        self.content.insert(i, (key, value));
        proof {
            old(self).content@.insert_ensures(n, (key, value));
            es.insert_ensures(n, (kb, vb));
            assert(self.entries() =~= es.insert(n, (kb, vb)));
            assert forall|a: int, b: int|
                0 <= a < b < self.content@.len() implies lex_lt(
                #[trigger] self.key_at(a),
                #[trigger] self.key_at(b),
            ) by {
                if b < n {
                    assert(self.key_at(a) == old(self).key_at(a));
                    assert(self.key_at(b) == old(self).key_at(b));
                    assert(lex_lt(old(self).key_at(a), old(self).key_at(b)));
                } else if b == n {
                    assert(self.key_at(a) == old(self).key_at(a));
                    assert(self.key_at(b) == kb);
                } else if a == n {
                    assert(self.key_at(a) == kb);
                    assert(self.key_at(b) == old(self).key_at(b - 1));
                    if b - 1 > n {
                        assert(lex_lt(old(self).key_at(n), old(self).key_at(b - 1)));
                        lemma_lex_lt_transitive(kb, old(self).key_at(n), old(self).key_at(b - 1));
                    }
                } else if a < n {
                    assert(self.key_at(a) == old(self).key_at(a));
                    assert(self.key_at(b) == old(self).key_at(b - 1));
                    assert(lex_lt(old(self).key_at(a), old(self).key_at(b - 1)));
                } else {
                    assert(self.key_at(a) == old(self).key_at(a - 1));
                    assert(self.key_at(b) == old(self).key_at(b - 1));
                    assert(lex_lt(old(self).key_at(a - 1), old(self).key_at(b - 1)));
                }
            }
        }
    }
}

/// The byte entries described by a list of (key, value) text pairs.
pub open spec fn pair_entries(pairs: Seq<(String, String)>) -> Seq<(Seq<u8>, Seq<u8>)> {
    pairs.map_values(|p: (String, String)| (encode_utf8(p.0@), encode_utf8(p.1@)))
}

/// The byte entries described by a list of (text key, byte value) pairs.
pub open spec fn byte_pair_entries(pairs: Seq<(String, Vec<u8>)>) -> Seq<(Seq<u8>, Seq<u8>)> {
    pairs.map_values(|p: (String, Vec<u8>)| (encode_utf8(p.0@), p.1@))
}

impl Secrets {
    /// Build a collection from key-value pairs, read front to back; a
    /// later duplicate key overwrites an earlier one.
    pub fn from_pairs(pairs: &Vec<(String, String)>) -> (r: Secrets)
        ensures
            r.wf(),
            r@ == insert_all(pair_entries(pairs@), Map::<Seq<u8>, Seq<u8>>::empty()),
    {
        let mut r = Secrets::new();
        let ghost pe = pair_entries(pairs@);
        let mut i: usize = 0;
        proof {
            assert(pe.skip(0) =~= pe);
        }
        while i < pairs.len()
            invariant
                i <= pairs@.len(),
                pe == pair_entries(pairs@),
                r.wf(),
                insert_all(pe, Map::<Seq<u8>, Seq<u8>>::empty()) == insert_all(
                    pe.skip(i as int),
                    r@,
                ),
            decreases pairs@.len() - i,
        {
            let k = pairs[i].0.clone();
            let v = pairs[i].1.clone();
            proof {
                assert(pe.skip(i as int)[0] == pe[i as int]);
                assert(pe.skip(i as int).skip(1) =~= pe.skip(i + 1));
            }
            r.insert(k, v);
            i = i + 1;
        }
        proof {
            assert(pe.skip(pe.len() as int) =~= Seq::<(Seq<u8>, Seq<u8>)>::empty());
        }
        r
    }

    /// Build a collection from (key, byte value) pairs, as a Kubernetes
    /// secret carries them; fails on the first value that is not valid
    /// UTF-8 text, naming its key.
    pub fn try_from_bytes(pairs: Vec<(String, Vec<u8>)>) -> (r: Result<Secrets, ValueUtf8Error>)
        ensures
            match r {
                Ok(s) => {
                    &&& s.wf()
                    &&& forall|i: int|
                        0 <= i < pairs@.len() ==> valid_utf8((#[trigger] pairs@[i]).1@)
                    &&& s@ == insert_all(
                        byte_pair_entries(pairs@),
                        Map::<Seq<u8>, Seq<u8>>::empty(),
                    )
                },
                Err(e) => exists|i: int|
                    0 <= i < pairs@.len() && !valid_utf8((#[trigger] pairs@[i]).1@) && e.key@
                        == pairs@[i].0@ && (forall|j: int|
                        0 <= j < i ==> valid_utf8((#[trigger] pairs@[j]).1@)),
            },
    {
        let ghost be = byte_pair_entries(pairs@);
        let mut r = Secrets::new();
        let mut i: usize = 0;
        proof {
            assert(be.skip(0) =~= be);
        }
        while i < pairs.len()
            invariant
                i <= pairs@.len(),
                be == byte_pair_entries(pairs@),
                r.wf(),
                forall|j: int| 0 <= j < i ==> valid_utf8((#[trigger] pairs@[j]).1@),
                insert_all(be, Map::<Seq<u8>, Seq<u8>>::empty()) == insert_all(
                    be.skip(i as int),
                    r@,
                ),
            decreases pairs@.len() - i,
        {
            let k = pairs[i].0.clone();
            let v = pairs[i].1.clone();
            proof {
                assert forall|q: int| 0 <= q < v@.len() implies v@[q] == pairs@[i as int].1@[q] by {
                    assert(cloned::<u8>(pairs@[i as int].1@[q], v@[q]));
                }
                assert(v@ =~= pairs@[i as int].1@);
                assert(be.skip(i as int)[0] == be[i as int]);
                assert(be.skip(i as int).skip(1) =~= be.skip(i + 1));
            }
            match string_from_utf8(v) {
                Err(_) => {
                    proof {
                        assert(!valid_utf8(pairs@[i as int].1@));
                        assert(k@ == pairs@[i as int].0@);
                    }
                    return Err(ValueUtf8Error { key: k });
                },
                Ok(vs) => {
                    r.insert(k, vs);
                    i = i + 1;
                },
            }
        }
        proof {
            assert(be.skip(be.len() as int) =~= Seq::<(Seq<u8>, Seq<u8>)>::empty());
        }
        Ok(r)
    }
}

impl View for Secrets {
    type V = Map<Seq<u8>, Seq<u8>>;

    open spec fn view(&self) -> Map<Seq<u8>, Seq<u8>> {
        map_of(self.entries())
    }
}

/// Relies on `BTreeMap::pop_first`: it removes and returns the least
/// entry of the map, or returns `None` exactly when the map is empty.
#[verifier::external_body]
fn pop_first_entry(m: &mut BTreeMap<String, String>) -> (r: Option<(String, String)>)
    ensures
        match r {
            None => final(m)@ == old(m)@ && old(m)@.dom().len() == 0,
            Some(kv) => old(m)@.contains_key(kv.0) && old(m)@[kv.0] == kv.1 && final(m)@ == old(
                m,
            )@.remove(kv.0),
        },
{
    m.pop_first()
}

impl From<&BTreeMap<String, String>> for Secrets {
    /// How a `String`-keyed standard map hands its entries out is not
    /// modelled here, so this conversion carries no contract of its
    /// own; `from_pairs` holds the exact one.
    fn from(map: &BTreeMap<String, String>) -> Secrets {
        let mut m = map.clone();
        let mut pairs: Vec<(String, String)> = Vec::new();
        loop
            decreases m@.dom().len(),
        {
            let ghost prev = m@;
            match pop_first_entry(&mut m) {
                None => {
                    break ;
                },
                Some(kv) => {
                    proof {
                        assert(m@.dom() =~= prev.dom().remove(kv.0));
                    }
                    pairs.push(kv);
                },
            }
        }
        Secrets::from_pairs(&pairs)
    }
}

impl vstd::std_specs::convert::FromSpecImpl<&BTreeMap<String, String>> for Secrets {
    open spec fn obeys_from_spec() -> bool {
        false
    }

    open spec fn from_spec(v: &BTreeMap<String, String>) -> Secrets {
        vstd::pervasive::arbitrary()
    }
}

impl From<BTreeMap<String, String>> for Secrets {
    fn from(map: BTreeMap<String, String>) -> Secrets {
        Secrets::from(&map)
    }
}

impl vstd::std_specs::convert::FromSpecImpl<BTreeMap<String, String>> for Secrets {
    open spec fn obeys_from_spec() -> bool {
        false
    }

    open spec fn from_spec(v: BTreeMap<String, String>) -> Secrets {
        vstd::pervasive::arbitrary()
    }
}

} // verus!
