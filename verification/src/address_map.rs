//! An ordered map keyed by `Address`, kept as a sorted vector of entries.
use vstd::prelude::*;
use crate::address::{Address, key};

verus! {

/// The position of an address in page, line, column order.
pub fn address_key(a: &Address) -> (r: u32)
    ensures
        r == key(*a),
{
    a.page as u32 * 65536 + a.line as u32 * 256 + a.column as u32
}

/// A map from addresses to values whose entries are kept in address order.
pub struct AddressMap<V> {
    /// The entries, in strictly increasing address order.
    entries: Vec<(Address, V)>,
}

impl<V> AddressMap<V> {
    /// The entries are in strictly increasing address order.
    #[verifier::type_invariant]
    spec fn sorted(self) -> bool {
        forall|i: int, j: int|
            0 <= i < j < self.entries@.len() ==> key(#[trigger] self.entries@[i].0) < key(
                #[trigger] self.entries@[j].0,
            )
    }

    /// The entries in address order.
    pub closed spec fn pairs(self) -> Seq<(Address, V)> {
        self.entries@
    }

    /// The addresses of the map in increasing order.
    pub open spec fn keys(self) -> Seq<Address> {
        self.pairs().map_values(|e: (Address, V)| e.0)
    }

    /// The map from addresses to values.
    pub open spec fn view(self) -> Map<Address, V> {
        Map::new(
            |a: Address| self.keys().contains(a),
            |a: Address| self.pairs()[self.keys().index_of(a)].1,
        )
    }

    /// The entries are ordered and hold their addresses once.
    proof fn lemma_pairs(&self)
        requires
            self.sorted(),
        ensures
            forall|i: int, j: int|
                0 <= i < j < self.pairs().len() ==> key(#[trigger] self.pairs()[i].0) < key(
                    #[trigger] self.pairs()[j].0,
                ),
            self.keys().no_duplicates(),
            forall|i: int|
                0 <= i < self.pairs().len() ==> #[trigger] self@.contains_key(self.pairs()[i].0)
                    && self@[self.pairs()[i].0] == self.pairs()[i].1,
            self@.dom() == self.keys().to_set(),
            self@.dom().len() == self.pairs().len(),
    {
        let ks = self.keys();
        assert forall|i: int, j: int| 0 <= i < ks.len() && 0 <= j < ks.len() && i != j implies ks[i]
            != ks[j] by {
            if i < j {
                assert(key(self.entries@[i].0) < key(self.entries@[j].0));
            } else {
                assert(key(self.entries@[j].0) < key(self.entries@[i].0));
            }
        }
        assert forall|i: int| 0 <= i < self.pairs().len() implies #[trigger] self@.contains_key(
            self.pairs()[i].0,
        ) && self@[self.pairs()[i].0] == self.pairs()[i].1 by {
            assert(ks[i] == self.pairs()[i].0);
            assert(ks.contains(ks[i]));
            ks.index_of_first_ensures(ks[i]);
            let k = ks.index_of(ks[i]);
            assert(ks[k] == ks[i]);
        }
        assert(self@.dom() =~= ks.to_set());
        ks.unique_seq_to_set();
    }

    /// The map has finitely many entries.
    pub proof fn lemma_dom_finite(&self)
        ensures
            self@.dom().finite(),
    {
        assert(self@.dom() =~= self.keys().to_set());
        vstd::seq_lib::seq_to_set_is_finite(self.keys());
    }

    /// Creates an empty map.
    pub fn new() -> (r: Self)
        ensures
            r@ == Map::<Address, V>::empty(),
            r.pairs().len() == 0,
    {
        let r = AddressMap { entries: Vec::new() };
        assert(r@ =~= Map::<Address, V>::empty());
        r
    }

    /// Returns the number of entries.
    pub fn len(&self) -> (r: usize)
        ensures
            r == self@.dom().len(),
            r == self.pairs().len(),
            forall|i: int, j: int|
                0 <= i < j < self.pairs().len() ==> key(#[trigger] self.pairs()[i].0) < key(
                    #[trigger] self.pairs()[j].0,
                ),
            forall|i: int|
                0 <= i < self.pairs().len() ==> #[trigger] self@.contains_key(self.pairs()[i].0)
                    && self@[self.pairs()[i].0] == self.pairs()[i].1,
            forall|a: Address|
                #[trigger] self@.contains_key(a) ==> exists|i: int|
                    0 <= i < self.pairs().len() && self.pairs()[i].0 == a,
    {
        proof {
            use_type_invariant(self);
            self.lemma_pairs();
        }
        self.entries.len()
    }

    /// Returns whether the map is empty.
    pub fn is_empty(&self) -> (r: bool)
        ensures
            r == (self@.dom().len() == 0),
    {
        self.len() == 0
    }

    /// Returns the entry at the given position in address order.
    pub fn entry(&self, i: usize) -> (r: &(Address, V))
        requires
            i < self.pairs().len(),
        ensures
            *r == self.pairs()[i as int],
    {
        &self.entries[i]
    }

    /// Returns the position of the address, or the position where it would be
    /// inserted.
    fn find(&self, a: &Address) -> (r: Result<usize, usize>)
        ensures
            match r {
                Ok(i) => i < self.pairs().len() && self.pairs()[i as int].0 == *a,
                Err(i) => i <= self.pairs().len() && (forall|j: int|
                    0 <= j < i ==> key(#[trigger] self.pairs()[j].0) < key(*a)) && (forall|j: int|
                    i <= j < self.pairs().len() ==> key(*a) < key(#[trigger] self.pairs()[j].0)),
            },
    {
        proof {
            use_type_invariant(self);
        }
        let k = address_key(a);
        let mut i: usize = 0;
        while i < self.entries.len()
            invariant
                self.sorted(),
                k == key(*a),
                i <= self.entries.len(),
                forall|j: int| 0 <= j < i ==> key(#[trigger] self.entries@[j].0) < k,
            decreases self.entries.len() - i,
        {
            let ki = address_key(&self.entries[i].0);
            if ki == k {
                proof {
                    crate::address::lemma_key_injective(self.entries@[i as int].0, *a);
                }
                return Ok(i);
            } else if ki > k {
                proof {
                    assert forall|j: int| i <= j < self.entries@.len() implies k < key(
                        #[trigger] self.entries@[j].0,
                    ) by {
                        if j > i {
                            assert(key(self.entries@[i as int].0) < key(self.entries@[j].0));
                        }
                    }
                }
                return Err(i);
            }
            i = i + 1;
        }
        Err(i)
    }

    /// Returns whether the map holds the address.
    pub fn contains_key(&self, a: &Address) -> (r: bool)
        ensures
            r == self@.contains_key(*a),
    {
        proof {
            use_type_invariant(self);
            self.lemma_pairs();
        }
        match self.find(a) {
            Ok(i) => {
                proof {
                    assert(self.keys()[i as int] == *a);
                }
                true
            },
            Err(i) => {
                proof {
                    if self.keys().contains(*a) {
                        let j = choose|j: int| 0 <= j < self.keys().len() && self.keys()[j] == *a;
                        assert(self.pairs()[j].0 == *a);
                    }
                }
                false
            },
        }
    }

    /// Returns the value at the address.
    pub fn get(&self, a: &Address) -> (r: Option<&V>)
        ensures
            match r {
                Some(v) => self@.contains_key(*a) && *v == self@[*a],
                None => !self@.contains_key(*a),
            },
    {
        proof {
            use_type_invariant(self);
            self.lemma_pairs();
        }
        match self.find(a) {
            Ok(i) => {
                proof {
                    assert(self@.contains_key(self.pairs()[i as int].0));
                }
                Some(&self.entries[i].1)
            },
            Err(i) => {
                proof {
                    if self.keys().contains(*a) {
                        let j = choose|j: int| 0 <= j < self.keys().len() && self.keys()[j] == *a;
                        assert(self.pairs()[j].0 == *a);
                    }
                }
                None
            },
        }
    }

    /// Inserts a value at the address, returning the value it replaces.
    pub fn insert(&mut self, a: Address, v: V) -> (r: Option<V>)
        ensures
            final(self)@ == old(self)@.insert(a, v),
            match r {
                Some(x) => old(self)@.contains_key(a) && x == old(self)@[a],
                None => !old(self)@.contains_key(a),
            },
    {
        proof {
            use_type_invariant(&*self);
            self.lemma_pairs();
        }
        let ghost old_pairs = self.entries@;
        match self.find(&a) {
            Ok(i) => {
                let mut e = (a, v);
                proof {
                    assert(old(self)@.contains_key(old_pairs[i as int].0));
                }
                let mut entries = Vec::new();
                std::mem::swap(&mut entries, &mut self.entries);
                std::mem::swap(&mut entries[i], &mut e);
                self.entries = entries;
                proof {
                    assert(self.entries@ == old_pairs.update(i as int, (a, v)));
                    assert(self.sorted());
                    self.lemma_pairs();
                    assert forall|b: Address| #[trigger] self@.contains_key(b) == old(
                        self,
                    )@.insert(a, v).contains_key(b) by {
                        if self@.contains_key(b) {
                            let j = choose|j: int| 0 <= j < self.keys().len() && self.keys()[j] == b;
                            assert(self.pairs()[j].0 == b);
                            if j != i {
                                assert(old_pairs[j].0 == b);
                                assert(old(self)@.contains_key(old_pairs[j].0));
                            }
                        }
                        if old(self)@.contains_key(b) {
                            let j = choose|j: int| 0 <= j < old(self).keys().len() && old(self).keys()[j] == b;
                            assert(old_pairs[j].0 == b);
                            assert(self@.contains_key(self.pairs()[j].0));
                        }
                    }
                    assert forall|b: Address| #[trigger] self@.contains_key(b) implies self@[b] == old(
                        self,
                    )@.insert(a, v)[b] by {
                        let j = choose|j: int| 0 <= j < self.keys().len() && self.keys()[j] == b;
                        assert(self.pairs()[j].0 == b);
                        assert(self@[self.pairs()[j].0] == self.pairs()[j].1);
                        if j != i {
                            assert(old_pairs[j].0 == b);
                            assert(old(self)@.contains_key(old_pairs[j].0));
                        }
                    }
                    assert(self@ =~= old(self)@.insert(a, v));
                }
                Some(e.1)
            },
            Err(i) => {
                let mut entries = Vec::new();
                std::mem::swap(&mut entries, &mut self.entries);
                entries.insert(i, (a, v));
                self.entries = entries;
                proof {
                    assert(self.entries@ == old_pairs.insert(i as int, (a, v)));
                    assert(forall|j: int|
                        0 <= j < self.entries@.len() ==> #[trigger] self.entries@[j] == (if j < i {
                            old_pairs[j]
                        } else if j == i {
                            (a, v)
                        } else {
                            old_pairs[j - 1]
                        }));
                    self.lemma_pairs();
                    assert(!old(self)@.contains_key(a)) by {
                        if old(self)@.contains_key(a) {
                            let j = choose|j: int| 0 <= j < old(self).keys().len() && old(self).keys()[j] == a;
                            assert(old_pairs[j].0 == a);
                        }
                    }
                    assert forall|b: Address| #[trigger] self@.contains_key(b) == old(
                        self,
                    )@.insert(a, v).contains_key(b) by {
                        if self@.contains_key(b) {
                            let j = choose|j: int| 0 <= j < self.keys().len() && self.keys()[j] == b;
                            assert(self.pairs()[j].0 == b);
                            if j < i {
                                assert(old(self)@.contains_key(old_pairs[j].0));
                            } else if j > i {
                                assert(old(self)@.contains_key(old_pairs[j - 1].0));
                            }
                        }
                        if old(self)@.contains_key(b) {
                            let j = choose|j: int| 0 <= j < old(self).keys().len() && old(self).keys()[j] == b;
                            assert(old_pairs[j].0 == b);
                            if j < i {
                                assert(self@.contains_key(self.pairs()[j].0));
                            } else {
                                assert(self@.contains_key(self.pairs()[j + 1].0));
                            }
                        }
                        if b == a {
                            assert(self@.contains_key(self.pairs()[i as int].0));
                        }
                    }
                    assert forall|b: Address| #[trigger] self@.contains_key(b) implies self@[b] == old(
                        self,
                    )@.insert(a, v)[b] by {
                        let j = choose|j: int| 0 <= j < self.keys().len() && self.keys()[j] == b;
                        assert(self.pairs()[j].0 == b);
                        assert(self@[self.pairs()[j].0] == self.pairs()[j].1);
                        if j < i {
                            assert(old(self)@.contains_key(old_pairs[j].0));
                        } else if j > i {
                            assert(old(self)@.contains_key(old_pairs[j - 1].0));
                        }
                    }
                    assert(self@ =~= old(self)@.insert(a, v));
                }
                None
            },
        }
    }

    /// Removes the value at the address and returns it.
    pub fn remove(&mut self, a: &Address) -> (r: Option<V>)
        ensures
            final(self)@ == old(self)@.remove(*a),
            match r {
                Some(x) => old(self)@.contains_key(*a) && x == old(self)@[*a],
                None => !old(self)@.contains_key(*a),
            },
    {
        proof {
            use_type_invariant(&*self);
            self.lemma_pairs();
        }
        let ghost old_pairs = self.entries@;
        match self.find(a) {
            Ok(i) => {
                proof {
                    assert(old(self)@.contains_key(old_pairs[i as int].0));
                }
                let mut entries = Vec::new();
                std::mem::swap(&mut entries, &mut self.entries);
                let e = entries.remove(i);
                self.entries = entries;
                proof {
                    assert(self.entries@ == old_pairs.remove(i as int));
                    assert(forall|j: int|
                        0 <= j < self.entries@.len() ==> #[trigger] self.entries@[j] == (if j < i {
                            old_pairs[j]
                        } else {
                            old_pairs[j + 1]
                        }));
                    assert(self.sorted());
                    self.lemma_pairs();
                    assert forall|b: Address| #[trigger] self@.contains_key(b) == old(
                        self,
                    )@.remove(*a).contains_key(b) by {
                        if self@.contains_key(b) {
                            let j = choose|j: int| 0 <= j < self.keys().len() && self.keys()[j] == b;
                            assert(self.pairs()[j].0 == b);
                            if j < i {
                                assert(old(self)@.contains_key(old_pairs[j].0));
                                assert(key(old_pairs[j].0) < key(old_pairs[i as int].0));
                            } else {
                                assert(old(self)@.contains_key(old_pairs[j + 1].0));
                                assert(key(old_pairs[i as int].0) < key(old_pairs[j + 1].0));
                            }
                        }
                        if old(self)@.contains_key(b) && b != *a {
                            let j = choose|j: int| 0 <= j < old(self).keys().len() && old(self).keys()[j] == b;
                            assert(old_pairs[j].0 == b);
                            if j < i {
                                assert(self@.contains_key(self.pairs()[j].0));
                            } else {
                                assert(j != i);
                                assert(self@.contains_key(self.pairs()[j - 1].0));
                            }
                        }
                    }
                    assert forall|b: Address| #[trigger] self@.contains_key(b) implies self@[b] == old(
                        self,
                    )@.remove(*a)[b] by {
                        let j = choose|j: int| 0 <= j < self.keys().len() && self.keys()[j] == b;
                        assert(self.pairs()[j].0 == b);
                        assert(self@[self.pairs()[j].0] == self.pairs()[j].1);
                        if j < i {
                            assert(old(self)@.contains_key(old_pairs[j].0));
                        } else {
                            assert(old(self)@.contains_key(old_pairs[j + 1].0));
                        }
                    }
                    assert(self@ =~= old(self)@.remove(*a));
                }
                Some(e.1)
            },
            Err(i) => {
                proof {
                    if old(self)@.contains_key(*a) {
                        let j = choose|j: int| 0 <= j < old(self).keys().len() && old(self).keys()[j] == *a;
                        assert(old_pairs[j].0 == *a);
                    }
                    assert(self@ =~= old(self)@.remove(*a));
                }
                None
            },
        }
    }

    /// Returns the addresses of the map in increasing order.
    pub fn addresses(&self) -> (r: Vec<Address>)
        ensures
            r@ == self.keys(),
            r@.to_set() == self@.dom(),
            forall|i: int, j: int| 0 <= i < j < r@.len() ==> key(#[trigger] r@[i]) < key(#[trigger] r@[j]),
    {
        proof {
            use_type_invariant(self);
            self.lemma_pairs();
        }
        let mut r: Vec<Address> = Vec::new();
        let mut i: usize = 0;
        while i < self.entries.len()
            invariant
                i <= self.entries.len(),
                r@ == self.keys().take(i as int),
            decreases self.entries.len() - i,
        {
            r.push(self.entries[i].0);
            i = i + 1;
            proof {
                assert(r@ =~= self.keys().take(i as int));
            }
        }
        proof {
            assert(self.keys().take(i as int) =~= self.keys());
        }
        r
    }
}

} // verus!
