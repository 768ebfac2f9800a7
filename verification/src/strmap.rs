use vstd::prelude::*;

verus! {

/// A copy with the same abstract value.
pub trait Duplicate: View + Sized {
    fn duplicate(&self) -> (r: Self)
        ensures
            r@ == self@,
    ;
}

impl Duplicate for String {
    fn duplicate(&self) -> (r: String) {
        self.clone()
    }
}

impl Duplicate for i64 {
    fn duplicate(&self) -> (r: i64) {
        *self
    }
}

impl Duplicate for Vec<(u32, u32)> {
    fn duplicate(&self) -> (r: Vec<(u32, u32)>) {
        let mut out: Vec<(u32, u32)> = Vec::new();
        let mut i: usize = 0;
        while i < self.len()
            invariant
                i <= self@.len(),
                out@ == self@.subrange(0, i as int),
            decreases self@.len() - i,
        {
            out.push(self[i]);
            assert(self@.subrange(0, i + 1) =~= self@.subrange(0, i as int).push(self@[i as int]));
            i = i + 1;
        }
        assert(self@.subrange(0, self@.len() as int) =~= self@);
        out
    }
}

impl Duplicate for Vec<String> {
    fn duplicate(&self) -> (r: Vec<String>) {
        let mut out: Vec<String> = Vec::new();
        let mut i: usize = 0;
        while i < self.len()
            invariant
                i <= self@.len(),
                out@ == self@.subrange(0, i as int),
            decreases self@.len() - i,
        {
            out.push(self[i].clone());
            assert(self@.subrange(0, i + 1) =~= self@.subrange(0, i as int).push(self@[i as int]));
            i = i + 1;
        }
        assert(self@.subrange(0, self@.len() as int) =~= self@);
        out
    }
}

/// A finite map from strings to values.
///
/// The entries are kept in a vector with pairwise distinct keys; a ghost table
/// records the slot of each key.  The abstract value is a `Map` from the
/// character sequence of each key to the view of its value.
pub struct StrMap<V> {
    entries: Vec<(String, V)>,
    slots: Ghost<Map<Seq<char>, int>>,
}

impl<V> StrMap<V> {
    #[verifier::type_invariant]
    spec fn slots_match(self) -> bool {
        &&& forall|k: Seq<char>|
            #[trigger] self.slots@.contains_key(k) ==> 0 <= self.slots@[k] < self.entries@.len()
                && self.entries@[self.slots@[k]].0@ == k
        &&& forall|i: int|
            0 <= i < self.entries@.len() ==> self.slots@.contains_key(#[trigger] self.entries@[i].0@)
                && self.slots@[self.entries@[i].0@] == i
    }

}

impl<V: View> StrMap<V> {
    /// The keys of the entries, in storage order.
    pub closed spec fn key_seq(&self) -> Seq<Seq<char>> {
        self.entries@.map_values(|e: (String, V)| e.0@)
    }

    /// The entries in storage order, as abstract pairs.
    pub closed spec fn spec_entries(&self) -> Seq<(Seq<char>, V::V)> {
        self.entries@.map_values(|e: (String, V)| (e.0@, e.1@))
    }

    pub fn new() -> (m: Self)
        ensures
            m@ == Map::<Seq<char>, V::V>::empty(),
    {
        let m = StrMap { entries: Vec::new(), slots: Ghost(Map::empty()) };
        assert(m@ =~= Map::<Seq<char>, V::V>::empty());
        m
    }

    fn find(&self, k: &str) -> (r: Option<usize>)
        ensures
            match r {
                Some(i) => i < self.entries@.len() && self.entries@[i as int].0@ == k@
                    && self.slots@.contains_key(k@) && self.slots@[k@] == i,
                None => !self.slots@.contains_key(k@),
            },
    {
        proof { use_type_invariant(self); }
        let key = k.to_owned();
        let mut i: usize = 0;
        while i < self.entries.len()
            invariant
                i <= self.entries@.len(),
                key@ == k@,
                forall|j: int| 0 <= j < i ==> self.entries@[j].0@ != k@,
            decreases self.entries@.len() - i,
        {
            if self.entries[i].0 == key {
                proof { use_type_invariant(self); }
                return Some(i);
            }
            i = i + 1;
        }
        proof {
            if self.slots@.contains_key(k@) {
                let j = self.slots@[k@];
                assert(self.entries@[j].0@ == k@);
            }
        }
        None
    }

    pub fn contains_key(&self, k: &str) -> (r: bool)
        ensures
            r == self@.contains_key(k@),
    {
        self.find(k).is_some()
    }

    pub fn get(&self, k: &str) -> (r: Option<&V>)
        ensures
            match r {
                Some(v) => self@.contains_key(k@) && v@ == self@[k@],
                None => !self@.contains_key(k@),
            },
    {
        match self.find(k) {
            Some(i) => Some(&self.entries[i].1),
            None => None,
        }
    }

    pub fn insert(&mut self, k: String, v: V)
        ensures
            final(self)@ == old(self)@.insert(k@, v@),
    {
        proof { use_type_invariant(&*self); }
        let pos = self.find(k.as_str());
        let mut taken = StrMap::new();
        std::mem::swap(self, &mut taken);
        let StrMap { mut entries, slots } = taken;
        let ghost old_entries = entries@;
        let ghost key = k@;
        match pos {
            Some(i) => {
                entries.set(i, (k, v));
                let m = StrMap { entries, slots };
                assert(m@ =~= old(self)@.insert(key, v@));
                *self = m;
            },
            None => {
                let ghost n = entries@.len() as int;
                entries.push((k, v));
                let m = StrMap { entries, slots: Ghost(slots@.insert(key, n)) };
                assert(m@ =~= old(self)@.insert(key, v@));
                *self = m;
            },
        }
    }

    /// Facts about the abstract map that follow from the storage layout:
    /// its domain is the set of stored keys, which is finite and has as many
    /// elements as there are entries.
    proof fn lemma_layout(&self)
        requires
            self.slots_match(),
        ensures
            self@.dom() == self.key_seq().to_set(),
            self@.dom().finite(),
            self@.len() == self.entries@.len(),
            self.key_seq().len() == self.entries@.len(),
            self.key_seq().no_duplicates(),
    {
        broadcast use vstd::seq_lib::seq_to_set_is_finite;
        let ks = self.key_seq();
        assert forall|k: Seq<char>| self@.dom().contains(k) <==> ks.to_set().contains(k) by {
            if self@.dom().contains(k) {
                let i = self.slots@[k];
                assert(ks[i] == k);
            }
            if ks.to_set().contains(k) {
                let i = choose|i: int| 0 <= i < ks.len() && ks[i] == k;
                assert(self.entries@[i].0@ == k);
            }
        }
        assert(self@.dom() =~= ks.to_set());
        assert forall|i: int, j: int| 0 <= i < ks.len() && 0 <= j < ks.len() && i != j implies ks[i] != ks[j] by {
            assert(self.slots@[self.entries@[i].0@] == i);
            assert(self.slots@[self.entries@[j].0@] == j);
        }
        ks.unique_seq_to_set();
    }

    pub fn len(&self) -> (r: usize)
        ensures
            r == self@.len(),
            self@.dom().finite(),
    {
        proof {
            use_type_invariant(self);
            self.lemma_layout();
        }
        self.entries.len()
    }

    pub fn is_empty(&self) -> (r: bool)
        ensures
            r == (self@.len() == 0),
            r == (self@ == Map::<Seq<char>, V::V>::empty()),
            self@.dom().finite(),
    {
        proof {
            use_type_invariant(self);
            self.lemma_layout();
            if self.entries@.len() == 0 {
                assert(self@ =~= Map::<Seq<char>, V::V>::empty());
            } else {
                assert(self@.contains_key(self.entries@[0].0@));
            }
        }
        self.entries.len() == 0
    }

    /// The stored entries, each key once, in storage order.
    pub fn entries(&self) -> (r: &Vec<(String, V)>)
        ensures
            r@.len() == self@.len(),
            self@.dom().finite(),
            forall|i: int| #![trigger r@[i]] 0 <= i < r@.len() ==> self@.contains_key(r@[i].0@)
                && self@[r@[i].0@] == r@[i].1@,
            forall|k: Seq<char>| #[trigger] self@.contains_key(k) ==> exists|i: int|
                0 <= i < r@.len() && #[trigger] r@[i].0@ == k,
            forall|i: int, j: int| 0 <= i < j < r@.len() ==> r@[i].0@ != r@[j].0@,
            r@.map_values(|e: (String, V)| (e.0@, e.1@)) == self.spec_entries(),
    {
        proof {
            use_type_invariant(self);
            self.lemma_layout();
            assert forall|i: int, j: int| 0 <= i < j < self.entries@.len() implies self.entries@[i].0@ != self.entries@[j].0@ by {
                assert(self.slots@[self.entries@[i].0@] == i);
            }
            assert forall|k: Seq<char>| #[trigger] self@.contains_key(k) implies exists|i: int|
                0 <= i < self.entries@.len() && #[trigger] self.entries@[i].0@ == k by {
                assert(self.entries@[self.slots@[k]].0@ == k);
            }
        }
        &self.entries
    }

    /// The stored values, in storage order.
    pub fn values(&self) -> (r: Vec<&V>)
        ensures
            r@.len() == self.spec_entries().len(),
            forall|i: int| 0 <= i < r@.len() ==> #[trigger] r@[i]@ == self.spec_entries()[i].1,
    {
        let mut out: Vec<&V> = Vec::new();
        let mut i: usize = 0;
        while i < self.entries.len()
            invariant
                i <= self.entries@.len(),
                out@.len() == i,
                forall|j: int| 0 <= j < i ==> #[trigger] out@[j]@ == self.spec_entries()[j].1,
            decreases self.entries@.len() - i,
        {
            out.push(&self.entries[i].1);
            i = i + 1;
        }
        out
    }

    pub fn remove(&mut self, k: &str) -> (r: Option<V>)
        ensures
            final(self)@ == old(self)@.remove(k@),
            match r {
                Some(v) => old(self)@.contains_key(k@) && v@ == old(self)@[k@],
                None => !old(self)@.contains_key(k@),
            },
    {
        proof { use_type_invariant(&*self); }
        let pos = self.find(k);
        match pos {
            None => {
                assert(old(self)@.remove(k@) =~= old(self)@);
                None
            },
            Some(i) => {
                let mut taken = StrMap::new();
                std::mem::swap(self, &mut taken);
                let StrMap { mut entries, slots } = taken;
                let ghost old_entries = entries@;
                let ghost last = (entries@.len() - 1) as int;
                let ghost moved_key = entries@[last].0@;
                let (_key, v) = entries.swap_remove(i);
                let ghost new_slots = if i as int == last {
                    slots@.remove(k@)
                } else {
                    slots@.remove(k@).insert(moved_key, i as int)
                };
                let m = StrMap { entries, slots: Ghost(new_slots) };
                assert(m@ =~= old(self)@.remove(k@));
                *self = m;
                Some(v)
            },
        }
    }

    pub fn clear(&mut self)
        ensures
            final(self)@ == Map::<Seq<char>, V::V>::empty(),
    {
        *self = StrMap::new();
    }
}

impl<V: Duplicate> Duplicate for StrMap<V> {
    fn duplicate(&self) -> (r: StrMap<V>) {
        proof { use_type_invariant(self); }
        let mut out: Vec<(String, V)> = Vec::new();
        let mut i: usize = 0;
        while i < self.entries.len()
            invariant
                i <= self.entries@.len(),
                out@.len() == i,
                forall|j: int| 0 <= j < i ==> #[trigger] out@[j].0@ == self.entries@[j].0@ && out@[j].1@ == self.entries@[j].1@,
            decreases self.entries@.len() - i,
        {
            out.push((self.entries[i].0.clone(), self.entries[i].1.duplicate()));
            i = i + 1;
        }
        let r = StrMap { entries: out, slots: Ghost(self.slots@) };
        assert(r@ =~= self@);
        r
    }
}

impl Duplicate for StrSet {
    fn duplicate(&self) -> (r: StrSet) {
        StrSet { items: self.items.duplicate() }
    }
}

impl Duplicate for () {
    fn duplicate(&self) -> (r: ()) {
        ()
    }
}

impl<V: View> View for StrMap<V> {
    type V = Map<Seq<char>, V::V>;

    closed spec fn view(&self) -> Map<Seq<char>, V::V> {
        Map::new(|k: Seq<char>| self.slots@.contains_key(k), |k: Seq<char>| self.entries@[self.slots@[k]].1@)
    }
}


/// A finite set of strings, viewed as a set of character sequences.
pub struct StrSet {
    items: StrMap<()>,
}

impl View for StrSet {
    type V = Set<Seq<char>>;

    closed spec fn view(&self) -> Set<Seq<char>> {
        self.items@.dom()
    }
}

impl StrSet {
    pub fn new() -> (s: Self)
        ensures
            s@ == Set::<Seq<char>>::empty(),
    {
        let s = StrSet { items: StrMap::new() };
        assert(s@ =~= Set::<Seq<char>>::empty());
        s
    }

    pub fn contains(&self, k: &str) -> (r: bool)
        ensures
            r == self@.contains(k@),
    {
        self.items.contains_key(k)
    }

    /// Adds `k`; returns whether it was absent before.
    pub fn insert(&mut self, k: String) -> (r: bool)
        ensures
            final(self)@ == old(self)@.insert(k@),
            r == !old(self)@.contains(k@),
    {
        let absent = !self.items.contains_key(k.as_str());
        self.items.insert(k, ());
        assert(self@ =~= old(self)@.insert(k@));
        absent
    }

    /// Removes `k`; returns whether it was present before.
    pub fn remove(&mut self, k: &str) -> (r: bool)
        ensures
            final(self)@ == old(self)@.remove(k@),
            r == old(self)@.contains(k@),
    {
        let r = self.items.remove(k);
        assert(self@ =~= old(self)@.remove(k@));
        r.is_some()
    }

    pub fn len(&self) -> (r: usize)
        ensures
            r == self@.len(),
            self@.finite(),
    {
        self.items.len()
    }

    pub fn is_empty(&self) -> (r: bool)
        ensures
            r == (self@ == Set::<Seq<char>>::empty()),
            self@.finite(),
    {
        let r = self.items.is_empty();
        proof {
            if self@ == Set::<Seq<char>>::empty() {
                assert(self.items@ =~= Map::<Seq<char>, ()>::empty());
            }
            if r {
                assert(self@ =~= Set::<Seq<char>>::empty());
            }
        }
        r
    }

    pub fn clear(&mut self)
        ensures
            final(self)@ == Set::<Seq<char>>::empty(),
    {
        *self = StrSet::new();
    }

    /// The members, each once, in storage order.
    pub fn members(&self) -> (r: Vec<String>)
        ensures
            r@.len() == self@.len(),
            self@.finite(),
            forall|i: int| 0 <= i < r@.len() ==> #[trigger] self@.contains(r@[i]@),
            forall|k: Seq<char>| #[trigger] self@.contains(k) ==> exists|i: int|
                0 <= i < r@.len() && #[trigger] r@[i]@ == k,
            forall|i: int, j: int| 0 <= i < j < r@.len() ==> r@[i]@ != r@[j]@,
    {
        let es = self.items.entries();
        let mut out: Vec<String> = Vec::new();
        let mut i: usize = 0;
        while i < es.len()
            invariant
                i <= es@.len(),
                out@.len() == i,
                forall|j: int| 0 <= j < i ==> #[trigger] out@[j]@ == es@[j].0@,
            decreases es@.len() - i,
        {
            out.push(es[i].0.clone());
            i = i + 1;
        }
        proof {
            assert forall|k: Seq<char>| #[trigger] self@.contains(k) implies exists|i: int|
                0 <= i < out@.len() && #[trigger] out@[i]@ == k by {
                assert(self.items@.contains_key(k));
                let i = choose|i: int| 0 <= i < es@.len() && #[trigger] es@[i].0@ == k;
                assert(out@[i]@ == k);
            }
            assert forall|i: int| 0 <= i < out@.len() implies #[trigger] self@.contains(out@[i]@) by {
                assert(self.items@.contains_key(es@[i].0@));
            }
        }
        out
    }
}

} // verus!
