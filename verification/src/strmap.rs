use vstd::prelude::*;
use crate::text::{lemma_seq_char_lt_trans, lemma_seq_char_lt_trichotomy, seq_char_lt, str_compare};

verus! {

/// An association list from names to values, kept sorted by name in
/// code-point order with no name repeated: the library's stand-in for an
/// ordered map, so that iteration order is the lexicographic order of the
/// keys.
pub struct StrMap<V> {
    pub entries: Vec<(String, V)>,
}

impl<V> StrMap<V> {
    /// The keys, in storage order.
    pub open spec fn keys(self) -> Seq<Seq<char>> {
        self.entries@.map_values(|e: (String, V)| e.0@)
    }

    /// The values, in storage order.
    pub open spec fn vals(self) -> Seq<V> {
        self.entries@.map_values(|e: (String, V)| e.1)
    }

    /// Keys strictly increase, so each occurs once.
    pub open spec fn wf(self) -> bool {
        forall|i: int, j: int|
            0 <= i < j < self.keys().len() ==> seq_char_lt(#[trigger] self.keys()[i], #[trigger] self.keys()[j])
    }

    pub open spec fn spec_len(self) -> int {
        self.entries@.len() as int
    }

    pub open spec fn contains_key(self, k: Seq<char>) -> bool {
        exists|i: int| 0 <= i < self.keys().len() && self.keys()[i] == k
    }

    /// The position of a key that is present.
    pub open spec fn key_index(self, k: Seq<char>) -> int {
        choose|i: int| 0 <= i < self.keys().len() && self.keys()[i] == k
    }

    /// The value stored under a key that is present.
    pub open spec fn spec_get(self, k: Seq<char>) -> V {
        self.entries@[self.key_index(k)].1
    }

    /// A present key has exactly one position, and `key_index` finds it.
    pub proof fn lemma_key_at(self, i: int)
        requires
            self.wf(),
            0 <= i < self.keys().len(),
        ensures
            self.contains_key(self.keys()[i]),
            self.key_index(self.keys()[i]) == i,
            self.spec_get(self.keys()[i]) == self.vals()[i],
    {
        let k = self.keys()[i];
        assert(self.contains_key(k));
        let j = self.key_index(k);
        if i != j {
            lemma_seq_char_lt_trichotomy(self.keys()[i], self.keys()[j]);
        }
    }

    pub fn new() -> (r: StrMap<V>)
        ensures
            r.wf(),
            r.spec_len() == 0,
            forall|k: Seq<char>| !r.contains_key(k),
    {
        StrMap { entries: Vec::new() }
    }

    pub fn len(&self) -> (r: usize)
        ensures
            r == self.spec_len(),
    {
        self.entries.len()
    }

    /// The name at one position.
    pub fn key_at(&self, i: usize) -> (r: &String)
        requires
            i < self.spec_len(),
        ensures
            r@ == self.keys()[i as int],
    {
        &self.entries[i].0
    }

    /// The value at one position.
    pub fn val_at(&self, i: usize) -> (r: &V)
        requires
            i < self.spec_len(),
        ensures
            *r == self.vals()[i as int],
    {
        &self.entries[i].1
    }

    /// Look a name up.
    pub fn get(&self, k: &str) -> (r: Option<&V>)
        requires
            self.wf(),
        ensures
            match r {
                Some(v) => self.contains_key(k@) && *v == self.spec_get(k@),
                None => !self.contains_key(k@),
            },
    {
        let n = self.entries.len();
        let mut i: usize = 0;
        while i < n
            invariant
                0 <= i <= n,
                n == self.spec_len(),
                self.wf(),
                forall|j: int| 0 <= j < i ==> self.keys()[j] != k@,
            decreases n - i,
        {
            let c = str_compare(self.entries[i].0.as_str(), k);
            if c == 0 {
                proof {
                    self.lemma_key_at(i as int);
                }
                return Some(&self.entries[i].1);
            }
            i = i + 1;
        }
        None
    }

    /// Insert a binding, replacing any previous binding of the same name
    /// and keeping the keys sorted.
    pub fn insert(&mut self, k: String, v: V)
        requires
            old(self).wf(),
        ensures
            final(self).wf(),
            final(self).contains_key(k@),
            final(self).spec_get(k@) == v,
            forall|q: Seq<char>|
                #[trigger] final(self).contains_key(q) == (old(self).contains_key(q) || q == k@),
            forall|q: Seq<char>|
                q != k@ && old(self).contains_key(q) ==> final(self).spec_get(q) == old(
                    self,
                ).spec_get(q) && #[trigger] final(self).key_index(q) >= 0,
            old(self).contains_key(k@) ==> final(self).spec_len() == old(self).spec_len(),
            !old(self).contains_key(k@) ==> final(self).spec_len() == old(self).spec_len() + 1,
    {
        let n = self.entries.len();
        let mut i: usize = 0;
        let ghost orig = *self;
        let mut above: bool = false;
        while !above && i < n
            invariant
                0 <= i <= n,
                n == self.spec_len(),
                *self == orig,
                orig == *old(self),
                orig.wf(),
                forall|j: int| 0 <= j < i ==> seq_char_lt(#[trigger] self.keys()[j], k@),
                above ==> i < n && seq_char_lt(k@, self.keys()[i as int]),
            decreases n - i, (if above { 0int } else { 1int }),
        {
            let c = str_compare(self.entries[i].0.as_str(), k.as_str());
            if c == 0 {
                // Same name: replace the value in place.
                proof {
                    self.lemma_key_at(i as int);
                }
                self.entries.set(i, (k, v));
                proof {
                    let new = *self;
                    assert(new.keys() =~= orig.keys());
                    assert(new.keys() == orig.keys());
                    assert(new.wf());
                    new.lemma_key_at(i as int);
                    assert(new.vals()[i as int] == v);
                    assert forall|q: Seq<char>| #[trigger] new.contains_key(q) == (
                    orig.contains_key(q) || q == k@) by {
                        assert(orig.keys()[i as int] == k@);
                    }
                    assert forall|q: Seq<char>| q != k@ && orig.contains_key(q) implies
                        new.spec_get(q) == orig.spec_get(q) && new.key_index(q) >= 0 by {
                        let j = orig.key_index(q);
                        orig.lemma_key_at(j);
                        new.lemma_key_at(j);
                        assert(new.vals()[j] == orig.vals()[j]);
                    }
                }
                return ;
            } else if c > 0 {
                above = true;
            } else {
                i = i + 1;
            }
        }
        // The name was not seen among the first i entries, and every later
        // entry is above it.
        proof {
            if !above {
                assert(i == n);
            }
            assert forall|j: int| (i as int) <= j < n implies seq_char_lt(
                k@,
                #[trigger] self.keys()[j],
            ) by {
                if j > i {
                    assert(seq_char_lt(self.keys()[i as int], self.keys()[j]));
                    lemma_seq_char_lt_trans(k@, self.keys()[i as int], self.keys()[j]);
                }
            }
            assert forall|j: int| 0 <= j < n implies self.keys()[j] != k@ by {
                if j < i {
                    lemma_seq_char_lt_trichotomy(self.keys()[j], k@);
                } else {
                    lemma_seq_char_lt_trichotomy(k@, self.keys()[j]);
                }
            }
        }
        let ghost kview = k@;
        self.entries.insert(i, (k, v));
        proof {
            let new = *self;
            assert(new.keys() =~= orig.keys().insert(i as int, kview));
            assert(new.vals() =~= orig.vals().insert(i as int, v));
            assert forall|a: int, b: int| 0 <= a < b < new.keys().len() implies seq_char_lt(
                #[trigger] new.keys()[a],
                #[trigger] new.keys()[b],
            ) by {
                let ia = if a < i as int {
                    a
                } else {
                    a - 1
                };
                let ib = if b < i as int {
                    b
                } else {
                    b - 1
                };
                if a == i as int {
                    assert(new.keys()[b] == orig.keys()[ib]);
                } else if b == i as int {
                    assert(new.keys()[a] == orig.keys()[ia]);
                } else {
                    assert(new.keys()[a] == orig.keys()[ia]);
                    assert(new.keys()[b] == orig.keys()[ib]);
                }
            }
            assert(new.contains_key(kview)) by {
                assert(new.keys()[i as int] == kview);
            }
            new.lemma_key_at(i as int);
            assert forall|q: Seq<char>| #[trigger] new.contains_key(q) == (orig.contains_key(q)
                || q == kview) by {
                if new.contains_key(q) && q != kview {
                    let j = choose|j: int| 0 <= j < new.keys().len() && new.keys()[j] == q;
                    if j < i as int {
                        assert(orig.keys()[j] == q);
                    } else {
                        assert(orig.keys()[j - 1] == q);
                    }
                }
                if orig.contains_key(q) {
                    let j = choose|j: int| 0 <= j < orig.keys().len() && orig.keys()[j] == q;
                    if j < i as int {
                        assert(new.keys()[j] == q);
                    } else {
                        assert(new.keys()[j + 1] == q);
                    }
                }
            }
            assert forall|q: Seq<char>| q != kview && orig.contains_key(q) implies new.spec_get(q)
                == orig.spec_get(q) && new.key_index(q) >= 0 by {
                let j = orig.key_index(q);
                orig.lemma_key_at(j);
                if j < i as int {
                    assert(new.keys()[j] == q);
                    new.lemma_key_at(j);
                } else {
                    assert(new.keys()[j + 1] == q);
                    new.lemma_key_at(j + 1);
                }
            }
        }
    }
}

} // verus!
