//! Maps from texts that know their keys in order.

use vstd::hash_map::StringHashMap;
use vstd::prelude::*;
use vstd::string::*;

use crate::text::{insert_ascending, str_eq};

verus! {

broadcast use vstd::hash_map::group_hash_map_axioms;

use crate::text::{ascending, text_less, texts};

/// A map from texts, with its keys in ascending order.
#[verifier::reject_recursive_types(V)]
pub struct TextMap<V> {
    map: StringHashMap<V>,
    names: Vec<String>,
}

impl<V> View for TextMap<V> {
    type V = Map<Seq<char>, V>;

    closed spec fn view(&self) -> Map<Seq<char>, V> {
        self.map@
    }
}

impl<V> TextMap<V> {
    #[verifier::type_invariant]
    closed spec fn names_ok(&self) -> bool {
        &&& ascending(texts(self.names@))
        &&& forall|n: Seq<char>| #[trigger]
            texts(self.names@).contains(n) <==> self.map@.contains_key(n)
    }

    /// An empty map.
    pub fn new() -> (r: TextMap<V>)
        ensures
            r@ == Map::<Seq<char>, V>::empty(),
    {
        let names: Vec<String> = Vec::new();
        assert(texts(names@) =~= Seq::empty());
        TextMap { map: StringHashMap::new(), names }
    }

    /// The value of `key`, if it has one.
    pub fn get(&self, key: &str) -> (r: Option<&V>)
        ensures
            match r {
                Some(v) => self@.contains_key(key@) && *v == self@[key@],
                None => !self@.contains_key(key@),
            },
    {
        self.map.get(key)
    }

    /// Whether `key` has a value.
    pub fn contains_key(&self, key: &str) -> (r: bool)
        ensures
            r == self@.contains_key(key@),
    {
        self.map.contains_key(key)
    }

    /// The number of keys.
    pub fn len(&self) -> (r: usize)
        ensures
            r == self@.len(),
    {
        self.map.len()
    }

    /// The keys, in ascending order.
    pub fn keys(&self) -> (r: &Vec<String>)
        ensures
            ascending(texts(r@)),
            forall|n: Seq<char>| #[trigger] texts(r@).contains(n) <==> self@.contains_key(n),
    {
        proof {
            use_type_invariant(self);
        }
        &self.names
    }

    /// Give `key` the value `value`.
    pub fn insert(&mut self, key: &str, value: V)
        ensures
            final(self)@ == old(self)@.insert(key@, value),
    {
        let mut taken: TextMap<V> = TextMap::new();
        std::mem::swap(&mut taken, self);
        *self = taken.with(key, value);
    }

    /// Take the value of `key` away.
    pub fn remove(&mut self, key: &str)
        ensures
            final(self)@ == old(self)@.remove(key@),
    {
        let mut taken: TextMap<V> = TextMap::new();
        std::mem::swap(&mut taken, self);
        *self = taken.without(key);
    }

    fn with(self, key: &str, value: V) -> (r: TextMap<V>)
        ensures
            r@ == self@.insert(key@, value),
    {
        proof {
            use_type_invariant(&self);
        }
        let TextMap { mut map, mut names } = self;
        let ghost m0 = map@;
        let ghost n0 = texts(names@);
        map.insert(key.to_owned(), value);
        insert_ascending(&mut names, key.to_owned());
        proof {
            assert forall|n: Seq<char>| #[trigger] texts(names@).contains(n) <==> map@.contains_key(
                n,
            ) by {
                assert(n0.contains(n) <==> m0.contains_key(n));
            }
        }
        TextMap { map, names }
    }

    fn without(self, key: &str) -> (r: TextMap<V>)
        ensures
            r@ == self@.remove(key@),
    {
        proof {
            use_type_invariant(&self);
        }
        let TextMap { mut map, names } = self;
        let ghost m0 = map@;
        let ghost n0 = texts(names@);
        map.remove(key);
        let mut kept: Vec<String> = Vec::new();
        let mut i: usize = 0;
        while i < names.len()
            invariant
                i <= names.len(),
                n0 == texts(names@),
                ascending(n0),
                ascending(texts(kept@)),
                forall|n: Seq<char>| #[trigger]
                    texts(kept@).contains(n) <==> (n != key@ && n0.take(i as int).contains(n)),
            decreases names.len() - i,
        {
            let ghost k0 = texts(kept@);
            let ghost x = n0[i as int];
            assert(x == names@[i as int]@);
            let same: bool = str_eq(names[i].as_str(), key);
            if !same {
                kept.push(names[i].clone());
                proof {
                    let k1 = texts(kept@);
                    assert(k1 =~= k0.push(x));
                    assert forall|a: int, b: int| 0 <= a < b < k1.len() implies text_less(
                        #[trigger] k1[a],
                        #[trigger] k1[b],
                    ) by {
                        if b == k0.len() {
                            assert(k0[a] == k1[a]);
                            assert(k0.contains(k0[a]));
                            assert(n0.take(i as int).contains(k0[a]));
                            let c = choose|c: int| 0 <= c < i && n0.take(i as int)[c] == k0[a];
                            assert(n0[c] == k0[a]);
                        } else {
                            assert(k0[a] == k1[a] && k0[b] == k1[b]);
                        }
                    }
                }
            }
            proof {
                let k1 = texts(kept@);
                let t0 = n0.take(i as int);
                let t1 = n0.take(i + 1);
                assert(t1 =~= t0.push(x));
                assert forall|n: Seq<char>| #[trigger]
                    k1.contains(n) <==> (n != key@ && t1.contains(n)) by {
                    assert(k0.contains(n) <==> (n != key@ && t0.contains(n)));
                    lemma_push_contains(t0, x, n);
                    if !same {
                        assert(k1 =~= k0.push(x));
                        lemma_push_contains(k0, x, n);
                    }
                }
            }
            i += 1;
        }
        proof {
            assert(n0.take(names.len() as int) =~= n0);
            assert forall|n: Seq<char>| #[trigger] texts(kept@).contains(n) <==> map@.contains_key(
                n,
            ) by {
                assert(n0.contains(n) <==> m0.contains_key(n));
            }
        }
        TextMap { map, names: kept }
    }
}

/// A list with one more element holds that and what it held before.
pub proof fn lemma_push_contains<T>(s: Seq<T>, x: T, n: T)
    ensures
        s.push(x).contains(n) <==> (s.contains(n) || n == x),
{
    let t = s.push(x);
    if s.contains(n) {
        let c = choose|c: int| 0 <= c < s.len() && s[c] == n;
        assert(t[c] == n);
    }
    assert(t[s.len() as int] == x);
    if t.contains(n) {
        let c = choose|c: int| 0 <= c < t.len() && t[c] == n;
        if c < s.len() {
            assert(s[c] == n);
        }
    }
}

} // verus!
