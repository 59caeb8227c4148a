//! Maps and sets keyed by names.
//!
//! A [`NameMap`] keeps its keys in the order in which they first came, so a walk
//! over it is deterministic; looking a name up takes one hash probe.

use vstd::hash_map::StringHashMap;
use vstd::prelude::*;

verus! {

broadcast use vstd::string::group_string_axioms;

/// A name: something that is, in the end, a string.
pub trait NameKey: View<V = Seq<char>> + Sized {
    /// The name as a string slice.
    fn as_key(&self) -> (r: &str)
        ensures
            r@ == self@,
    ;

    /// Another name with the same text.
    fn dup(&self) -> (r: Self)
        ensures
            r@ == self@,
    ;
}

impl NameKey for String {
    fn as_key(&self) -> (r: &str) {
        self.as_str()
    }

    fn dup(&self) -> (r: Self) {
        self.clone()
    }
}

/// A map from names to values.
pub struct NameMap<K: NameKey, V> {
    slots: StringHashMap<usize>,
    keys: Vec<K>,
    values: Vec<V>,
}

impl<K: NameKey, V> View for NameMap<K, V> {
    type V = Map<Seq<char>, V>;

    closed spec fn view(&self) -> Map<Seq<char>, V> {
        Map::new(
            |k: Seq<char>| self.slots@.dom().contains(k),
            |k: Seq<char>| self.values@[self.slots@[k] as int],
        )
    }
}

impl<K: NameKey, V> NameMap<K, V> {
    #[verifier::type_invariant]
    spec fn well_formed(self) -> bool {
        &&& self.keys@.len() == self.values@.len()
        &&& forall|i: int|
            0 <= i < self.keys@.len() ==> self.slots@.dom().contains(#[trigger] self.keys@[i]@)
                && self.slots@[self.keys@[i]@] == i
        &&& forall|k: Seq<char>| #[trigger]
            self.slots@.dom().contains(k) ==> self.slots@[k] < self.keys@.len()
                && self.keys@[self.slots@[k] as int]@ == k
    }

    /// The keys in the order in which they first came.
    pub closed spec fn order(self) -> Seq<Seq<char>> {
        self.keys@.map_values(|k: K| k@)
    }

    /// An empty map.
    pub fn new() -> (r: Self)
        ensures
            r@ == Map::<Seq<char>, V>::empty(),
            r.order() == Seq::<Seq<char>>::empty(),
    {
        let r = NameMap { slots: StringHashMap::new(), keys: Vec::new(), values: Vec::new() };
        assert(r@ =~= Map::<Seq<char>, V>::empty());
        assert(r.order() =~= Seq::<Seq<char>>::empty());
        r
    }

    /// The number of keys. They are those of the map, each listed once.
    pub fn len(&self) -> (n: usize)
        ensures
            n == self.order().len(),
            self.order().no_duplicates(),
            forall|k: Seq<char>| self.order().contains(k) <==> #[trigger] self@.dom().contains(k),
            self@.dom() == self.order().to_set(),
    {
        proof {
            use_type_invariant(self);
            let order = self.order();
            assert forall|i: int, j: int|
                0 <= i < order.len() && 0 <= j < order.len() && i != j implies order[i]
                != order[j] by {
                assert(order[i] == self.keys@[i]@);
                assert(order[j] == self.keys@[j]@);
            }
            assert forall|k: Seq<char>| order.contains(k) <==> #[trigger] self@.dom().contains(k) by {
                if self@.dom().contains(k) {
                    assert(order[self.slots@[k] as int] == k);
                }
                if order.contains(k) {
                    let i = choose|i: int| 0 <= i < order.len() && order[i] == k;
                    assert(self.keys@[i]@ == k);
                }
            }
            assert(self@.dom() =~= order.to_set());
        }
        self.keys.len()
    }

    /// Tests whether there is no key.
    pub fn is_empty(&self) -> (r: bool)
        ensures
            r == (self.order().len() == 0),
            r == (self@ == Map::<Seq<char>, V>::empty()),
    {
        let n: usize = self.len();
        proof {
            if n == 0 {
                assert(self@ =~= Map::<Seq<char>, V>::empty());
            } else {
                assert(self@.dom().contains(self.order()[0]));
            }
        }
        n == 0
    }

    /// The value of `k`.
    pub fn get(&self, k: &str) -> (r: Option<&V>)
        ensures
            match r {
                Some(v) => self@.dom().contains(k@) && *v == self@[k@],
                None => !self@.dom().contains(k@),
            },
    {
        proof {
            use_type_invariant(self);
        }
        match self.slots.get(k) {
            Some(i) => Some(&self.values[*i]),
            None => None,
        }
    }

    /// Tests whether `k` has a value.
    pub fn contains_key(&self, k: &str) -> (r: bool)
        ensures
            r == self@.dom().contains(k@),
    {
        self.slots.contains_key(k)
    }

    /// The stored key that reads `k`, and its value.
    pub fn get_key_value(&self, k: &str) -> (r: Option<(&K, &V)>)
        ensures
            match r {
                Some((n, v)) => self@.dom().contains(k@) && n@ == k@ && *v == self@[k@],
                None => !self@.dom().contains(k@),
            },
    {
        proof {
            use_type_invariant(self);
        }
        match self.slots.get(k) {
            Some(i) => Some((&self.keys[*i], &self.values[*i])),
            None => None,
        }
    }

    /// The `i`th key.
    pub fn key_at(&self, i: usize) -> (r: &K)
        requires
            i < self.order().len(),
        ensures
            r@ == self.order()[i as int],
    {
        &self.keys[i]
    }

    /// The value of the `i`th key.
    pub fn value_at(&self, i: usize) -> (r: &V)
        requires
            i < self.order().len(),
        ensures
            *r == self@[self.order()[i as int]],
    {
        proof {
            use_type_invariant(self);
            assert(self.order()[i as int] == self.keys@[i as int]@);
        }
        &self.values[i]
    }

    /// Sets the value of `k`. A key that is already there keeps its place.
    pub fn insert(&mut self, k: K, v: V)
        ensures
            final(self)@ == old(self)@.insert(k@, v),
            final(self).order() == (if old(self)@.dom().contains(k@) {
                old(self).order()
            } else {
                old(self).order().push(k@)
            }),
    {
        proof {
            use_type_invariant(&*self);
        }
        let ghost before = *self;
        let mut taken: NameMap<K, V> = NameMap::new();
        std::mem::swap(self, &mut taken);
        let NameMap { mut slots, mut keys, mut values } = taken;
        let known = match slots.get(k.as_key()) {
            Some(i) => Some(*i),
            None => None,
        };
        match known {
            Some(i) => {
                values.set(i, v);
            },
            None => {
                let n: usize = keys.len();
                slots.insert(k.as_key().to_owned(), n);
                keys.push(k);
                values.push(v);
            },
        }
        *self = NameMap { slots, keys, values };
        assert(self@ =~= before@.insert(k@, v));
        assert(self.order() =~= (if before@.dom().contains(k@) {
            before.order()
        } else {
            before.order().push(k@)
        }));
    }

    /// Puts `v` in the place of the value of `k`, and hands that value out.
    pub fn replace(&mut self, k: &str, v: V) -> (r: V)
        requires
            old(self)@.dom().contains(k@),
        ensures
            r == old(self)@[k@],
            final(self)@ == old(self)@.insert(k@, v),
            final(self).order() == old(self).order(),
    {
        proof {
            use_type_invariant(&*self);
        }
        let ghost before = *self;
        let mut taken: NameMap<K, V> = NameMap::new();
        std::mem::swap(self, &mut taken);
        let NameMap { slots, keys, mut values } = taken;
        let i: usize = *slots.get(k).unwrap();
        let mut other = v;
        std::mem::swap(&mut values[i], &mut other);
        *self = NameMap { slots, keys, values };
        assert(self@ =~= before@.insert(k@, v));
        assert(self.order() =~= before.order());
        other
    }
}

/// A set of names.
pub struct NameSet<K: NameKey> {
    members: NameMap<K, ()>,
}

impl<K: NameKey> View for NameSet<K> {
    type V = Set<Seq<char>>;

    closed spec fn view(&self) -> Set<Seq<char>> {
        self.members@.dom()
    }
}

impl<K: NameKey> NameSet<K> {
    /// The members in the order in which they first came.
    pub closed spec fn order(self) -> Seq<Seq<char>> {
        self.members.order()
    }

    /// An empty set.
    pub fn new() -> (r: Self)
        ensures
            r@ == Set::<Seq<char>>::empty(),
            r.order() == Seq::<Seq<char>>::empty(),
    {
        let r = NameSet { members: NameMap::new() };
        assert(r@ =~= Set::<Seq<char>>::empty());
        r
    }

    /// The number of members, each of which is listed once.
    pub fn len(&self) -> (n: usize)
        ensures
            n == self.order().len(),
            self.order().no_duplicates(),
            forall|k: Seq<char>| self.order().contains(k) <==> #[trigger] self@.contains(k),
            self@ == self.order().to_set(),
    {
        let n: usize = self.members.len();
        assert forall|k: Seq<char>| self.order().contains(k) <==> #[trigger] self@.contains(k) by {
            assert(self.members@.dom().contains(k) <==> self.members.order().contains(k));
        }
        n
    }

    /// Tests whether there is no member.
    pub fn is_empty(&self) -> (r: bool)
        ensures
            r == (self.order().len() == 0),
            r == (self@ == Set::<Seq<char>>::empty()),
    {
        let n: usize = self.len();
        proof {
            if n == 0 {
                assert(self@ =~= Set::<Seq<char>>::empty());
            } else {
                assert(self@.contains(self.order()[0]));
            }
        }
        n == 0
    }

    /// Tests whether `k` is a member.
    pub fn contains(&self, k: &str) -> (r: bool)
        ensures
            r == self@.contains(k@),
    {
        self.members.contains_key(k)
    }

    /// The `i`th member.
    pub fn name_at(&self, i: usize) -> (r: &K)
        requires
            i < self.order().len(),
        ensures
            r@ == self.order()[i as int],
    {
        self.members.key_at(i)
    }

    /// Adds `k`; the answer tells whether it was missing.
    pub fn insert(&mut self, k: K) -> (fresh: bool)
        ensures
            fresh == !old(self)@.contains(k@),
            final(self)@ == old(self)@.insert(k@),
            final(self).order() == (if fresh {
                old(self).order().push(k@)
            } else {
                old(self).order()
            }),
    {
        let ghost before = *self;
        let ghost name = k@;
        let fresh = !self.members.contains_key(k.as_key());
        self.members.insert(k, ());
        assert(self@ =~= before@.insert(name));
        fresh
    }
}

} // verus!
