//! A hash map keyed by strings that also remembers its keys in the order
//! they were first inserted, so that it can be walked in a fixed order.
use vstd::prelude::*;
use vstd::hash_map::StringHashMap;

verus! {

/// A map from strings to values, with its keys in first-insertion order.
#[verifier::reject_recursive_types(V)]
pub struct StrMap<V> {
    map: StringHashMap<V>,
    keys: Vec<String>,
}

impl<V> View for StrMap<V> {
    type V = Map<Seq<char>, V>;

    /// The map from each key's characters to its value.
    closed spec fn view(&self) -> Map<Seq<char>, V> {
        self.map@
    }
}

/// The strings `keys` are the keys of `m`, each once.
pub open spec fn keys_of<V>(keys: Seq<String>, m: Map<Seq<char>, V>) -> bool {
    &&& forall|i: int, j: int| 0 <= i < j < keys.len() ==> keys[i]@ != keys[j]@
    &&& forall|i: int| 0 <= i < keys.len() ==> m.contains_key(#[trigger] keys[i]@)
    &&& forall|k: Seq<char>|
        m.contains_key(k) ==> exists|i: int| 0 <= i < keys.len() && #[trigger] keys[i]@ == k
}

impl<V> StrMap<V> {
    /// The key list holds the map's keys, each once.
    pub closed spec fn wf(&self) -> bool {
        keys_of(self.keys@, self.map@)
    }

    /// The keys in first-insertion order.
    pub closed spec fn key_list(&self) -> Seq<String> {
        self.keys@
    }

    /// The empty map.
    pub fn new() -> (r: Self)
        ensures
            r.wf(),
            r@ == Map::<Seq<char>, V>::empty(),
            r.key_list() == Seq::<String>::empty(),
    {
        StrMap { map: StringHashMap::new(), keys: Vec::new() }
    }

    /// The number of keys.
    pub fn len(&self) -> (r: usize)
        ensures
            r == self@.len(),
    {
        self.map.len()
    }

    /// The value of the key `k`, if it has one.
    pub fn get(&self, k: &str) -> (r: Option<&V>)
        ensures
            match r {
                Some(v) => self@.contains_key(k@) && *v == self@[k@],
                None => !self@.contains_key(k@),
            },
    {
        self.map.get(k)
    }

    /// Gives the key `k` the value `v`, replacing the value it had.
    pub fn insert(&mut self, k: String, v: V)
        requires
            old(self).wf(),
        ensures
            final(self).wf(),
            final(self)@ == old(self)@.insert(k@, v),
            final(self).key_list() == if old(self)@.contains_key(k@) {
                old(self).key_list()
            } else {
                old(self).key_list().push(k)
            },
    {
        let ghost km = k@;
        let ghost old_keys = self.keys@;
        if !self.map.contains_key(k.as_str()) {
            let k2 = k.clone();
            self.keys.push(k2);
        }
        self.map.insert(k, v);
        assert forall|k2: Seq<char>| self.map@.contains_key(k2) implies exists|j: int|
            0 <= j < self.keys@.len() && #[trigger] self.keys@[j]@ == k2 by {
            if k2 != km {
                let j = choose|j: int| 0 <= j < old_keys.len() && #[trigger] old_keys[j]@ == k2;
                assert(self.keys@[j]@ == k2);
            } else if old(self)@.contains_key(km) {
                let j = choose|j: int| 0 <= j < old_keys.len() && #[trigger] old_keys[j]@ == km;
                assert(self.keys@[j]@ == k2);
            } else {
                assert(self.keys@[old_keys.len() as int]@ == k2);
            }
        }
    }

    /// The keys, in first-insertion order.
    pub fn keys(&self) -> (r: &Vec<String>)
        requires
            self.wf(),
        ensures
            r@ == self.key_list(),
            keys_of(r@, self@),
    {
        &self.keys
    }
}

impl StrMap<usize> {
    /// Counts one more occurrence of `k`: its value goes up by one, or it
    /// gets the value 1 if it had none.
    pub fn increment(&mut self, k: &String)
        requires
            old(self).wf(),
            old(self)@.contains_key(k@) ==> old(self)@[k@] < usize::MAX,
        ensures
            final(self).wf(),
            final(self)@ == old(self)@.insert(
                k@,
                if old(self)@.contains_key(k@) {
                    (old(self)@[k@] + 1) as usize
                } else {
                    1usize
                },
            ),
            final(self).key_list() == if old(self)@.contains_key(k@) {
                old(self).key_list()
            } else {
                old(self).key_list().push(*k)
            },
    {
        let next = match self.map.get(k.as_str()) {
            Some(c) => *c + 1,
            None => 1,
        };
        self.insert(k.clone(), next);
    }
}

} // verus!
