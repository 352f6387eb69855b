use vstd::prelude::*;
use vstd::seq_lib::seq_to_set_is_finite;
use vstd::set_lib::{lemma_int_range, lemma_len_subset, set_int_range};
use vstd::string::StrSliceExecFns;

verus! {

/// A map from names (user names, session identifiers) to records, each name
/// present at most once; a write to a present name replaces its record.
///
/// The names are kept in a vector rather than a `HashMap`: vstd specifies
/// `HashMap` only for key types known to obey its key model, and `String`
/// is not among them.
pub struct Store<V> {
    keys: Vec<String>,
    values: Vec<V>,
}

impl<V> Store<V> {
    /// The two columns line up and no name occurs twice.
    pub closed spec fn wf(&self) -> bool {
        &&& self.keys@.len() == self.values@.len()
        &&& forall|i: int, j: int|
            0 <= i < j < self.keys@.len() ==> #[trigger] self.keys@[i]@ != #[trigger] self.keys@[j]@
    }

    spec fn holds(&self, k: Seq<char>) -> bool {
        exists|i: int| 0 <= i < self.keys@.len() && #[trigger] self.keys@[i]@ == k
    }

    spec fn index_of(&self, k: Seq<char>) -> int {
        choose|i: int| 0 <= i < self.keys@.len() && #[trigger] self.keys@[i]@ == k
    }

    /// The records by name.
    pub closed spec fn view(&self) -> Map<Seq<char>, V> {
        Map::new(|k: Seq<char>| self.holds(k), |k: Seq<char>| self.values@[self.index_of(k)])
    }

    proof fn lemma_index_of(&self, i: int)
        requires
            self.wf(),
            0 <= i < self.keys@.len(),
        ensures
            self.holds(self.keys@[i]@),
            self.index_of(self.keys@[i]@) == i,
            self@.contains_key(self.keys@[i]@),
            self@[self.keys@[i]@] == self.values@[i],
    {
        let k = self.keys@[i]@;
        assert(self.holds(k));
        let j = self.index_of(k);
        if j != i {
            if j < i {
                assert(self.keys@[j]@ != self.keys@[i]@);
            } else {
                assert(self.keys@[i]@ != self.keys@[j]@);
            }
        }
    }

    spec fn names(&self) -> Seq<Seq<char>> {
        self.keys@.map_values(|s: String| s@)
    }

    /// The store holds one record for each entry of its columns.
    proof fn lemma_len(&self)
        requires
            self.wf(),
        ensures
            self@.dom().finite(),
            self@.len() == self.keys@.len(),
    {
        let ns = self.names();
        assert forall|k: Seq<char>| self@.dom().contains(k) <==> ns.to_set().contains(k) by {
            if self.holds(k) {
                let i = self.index_of(k);
                assert(ns[i] == k);
            }
            if ns.contains(k) {
                let i = choose|i: int| 0 <= i < ns.len() && ns[i] == k;
                assert(self.keys@[i]@ == k);
            }
        }
        assert(self@.dom() =~= ns.to_set());
        assert(ns.no_duplicates()) by {
            assert forall|i: int, j: int| 0 <= i < ns.len() && 0 <= j < ns.len() && i != j implies ns[i]
                != ns[j] by {
                if i < j {
                    assert(self.keys@[i]@ != self.keys@[j]@);
                } else {
                    assert(self.keys@[j]@ != self.keys@[i]@);
                }
            }
        }
        ns.unique_seq_to_set();
        seq_to_set_is_finite(ns);
    }

    /// The number of records.
    pub fn len(&self) -> (r: usize)
        requires
            self.wf(),
        ensures
            r == self@.len(),
    {
        proof {
            self.lemma_len();
        }
        self.keys.len()
    }

    spec fn length_taken(&self, m: int) -> bool {
        exists|i: int| 0 <= i < self.keys@.len() && #[trigger] self.keys@[i]@.len() == m
    }

    /// Whether some stored name has exactly `len` characters.
    fn has_name_of_length(&self, len: usize) -> (r: bool)
        requires
            self.wf(),
        ensures
            r == self.length_taken(len as int),
    {
        let mut i: usize = 0;
        while i < self.keys.len()
            invariant
                i <= self.keys@.len(),
                forall|j: int| 0 <= j < i ==> #[trigger] self.keys@[j]@.len() != len,
            decreases self.keys@.len() - i,
        {
            if self.keys[i].as_str().unicode_len() == len {
                return true;
            }
            i = i + 1;
        }
        false
    }

    /// A length of at least `min` characters that no stored name has: a name
    /// of that length is certainly new to the store.
    pub fn unused_length(&self, min: usize) -> (r: usize)
        requires
            self.wf(),
            self@.len() + min < usize::MAX,
        ensures
            r >= min,
            forall|k: Seq<char>| #[trigger] self@.contains_key(k) ==> k.len() != r,
    {
        proof {
            self.lemma_len();
        }
        let n = self.keys.len();
        let mut l: usize = min;
        while l <= min + n
            invariant
                self.wf(),
                n == self.keys@.len(),
                n + min < usize::MAX,
                min <= l <= min + n + 1,
                forall|m: int| min <= m < l ==> #[trigger] self.length_taken(m),
            decreases min + n + 1 - l,
        {
            if !self.has_name_of_length(l) {
                proof {
                    assert forall|k: Seq<char>| #[trigger] self@.contains_key(k) implies k.len() != l by {
                        let i = self.index_of(k);
                        assert(self.keys@[i]@ == k);
                    }
                }
                return l;
            }
            l = l + 1;
        }
        proof {
            // every length in [min, min + n] is taken, yet only n names are stored
            let lens = self.keys@.map_values(|s: String| s@.len() as int);
            let range = set_int_range(min as int, min + n + 1);
            lemma_int_range(min as int, min + n + 1);
            assert forall|m: int| range.contains(m) implies lens.to_set().contains(m) by {
                assert(self.length_taken(m));
                let i = choose|i: int| 0 <= i < n && #[trigger] self.keys@[i]@.len() == m;
                assert(lens[i] == m);
            }
            seq_to_set_is_finite(lens);
            lens.lemma_cardinality_of_set();
            lemma_len_subset(range, lens.to_set());
        }
        l
    }

    /// An empty store.
    pub fn new() -> (r: Store<V>)
        ensures
            r.wf(),
            r@ == Map::<Seq<char>, V>::empty(),
    {
        let r = Store { keys: Vec::new(), values: Vec::new() };
        assert(r@ =~= Map::<Seq<char>, V>::empty());
        r
    }

    /// The position of `k`, if present.
    fn find(&self, k: &String) -> (r: Option<usize>)
        requires
            self.wf(),
        ensures
            match r {
                Some(i) => i < self.keys@.len() && self.keys@[i as int]@ == k@,
                None => !self@.contains_key(k@),
            },
    {
        let mut i: usize = 0;
        while i < self.keys.len()
            invariant
                self.wf(),
                i <= self.keys@.len(),
                forall|j: int| 0 <= j < i ==> #[trigger] self.keys@[j]@ != k@,
            decreases self.keys@.len() - i,
        {
            if self.keys[i] == *k {
                return Some(i);
            }
            i = i + 1;
        }
        None
    }

    /// Whether a record is stored under `k`.
    pub fn contains_key(&self, k: &String) -> (r: bool)
        requires
            self.wf(),
        ensures
            r == self@.contains_key(k@),
    {
        match self.find(k) {
            Some(i) => {
                proof {
                    self.lemma_index_of(i as int);
                }
                true
            },
            None => false,
        }
    }

    /// The record stored under `k`, if any.
    pub fn get(&self, k: &String) -> (r: Option<&V>)
        requires
            self.wf(),
        ensures
            match r {
                Some(v) => self@.contains_key(k@) && *v == self@[k@],
                None => !self@.contains_key(k@),
            },
    {
        match self.find(k) {
            Some(i) => {
                proof {
                    self.lemma_index_of(i as int);
                }
                Some(&self.values[i])
            },
            None => None,
        }
    }

    /// Stores `v` under `k`, replacing any record that was there.
    pub fn insert(&mut self, k: String, v: V)
        requires
            old(self).wf(),
        ensures
            final(self).wf(),
            final(self)@ == old(self)@.insert(k@, v),
    {
        let ghost before = *self;
        match self.find(&k) {
            Some(i) => {
                self.values.set(i, v);
                proof {
                    assert(self.keys@ == before.keys@);
                    assert forall|key: Seq<char>| #[trigger] self.holds(key) == before.holds(key) by {}
                    assert forall|key: Seq<char>| self.holds(key) implies #[trigger] self.index_of(key)
                        == before.index_of(key) by {}
                    before.lemma_index_of(i as int);
                    self.lemma_index_of(i as int);
                    assert forall|key: Seq<char>| self.holds(key) && key != k@ implies self.values@[
                        #[trigger] self.index_of(key)] == before.values@[before.index_of(key)] by {
                        assert(self.index_of(key) != i);
                    }
                    assert(self@ =~= before@.insert(k@, v));
                }
            },
            None => {
                let ghost n = self.keys@.len();
                self.keys.push(k);
                self.values.push(v);
                proof {
                    assert forall|a: int, b: int|
                        0 <= a < b < self.keys@.len() implies #[trigger] self.keys@[a]@
                        != #[trigger] self.keys@[b]@ by {
                        if b == n {
                            assert(before.keys@[a]@ != k@) by {
                                if before.keys@[a]@ == k@ {
                                    before.lemma_index_of(a);
                                }
                            }
                        }
                    }
                    assert(self.wf());
                    self.lemma_index_of(n as int);
                    assert forall|key: Seq<char>| key != k@ implies #[trigger] self.holds(key)
                        == before.holds(key) by {
                        if self.holds(key) {
                            let j = self.index_of(key);
                            assert(j < n);
                            assert(before.keys@[j]@ == key);
                        }
                        if before.holds(key) {
                            let j = before.index_of(key);
                            assert(self.keys@[j]@ == key);
                        }
                    }
                    assert forall|key: Seq<char>| key != k@ && self.holds(key) implies self.values@[
                        #[trigger] self.index_of(key)] == before.values@[before.index_of(key)] by {
                        let j = self.index_of(key);
                        assert(j < n);
                        assert(before.keys@[j]@ == key);
                        before.lemma_index_of(j);
                    }
                    assert(self@ =~= before@.insert(k@, v));
                }
            },
        }
    }
}

} // verus!
