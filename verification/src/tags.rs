use vstd::prelude::*;

verus! {

/// Convenience functions around a string->string map.
///
/// The map is held as an association list whose keys are pairwise distinct;
/// `spec_get` (first match wins) is the mathematical reading of every method.
pub struct Tags(pub Vec<(String, String)>);

/// The value the first entry of `entries` with key `k` holds, if any.
pub open spec fn spec_get_entries(entries: Seq<(String, String)>, k: Seq<char>) -> Option<
    Seq<char>,
>
    decreases entries.len(),
{
    if entries.len() == 0 {
        None
    } else if entries[0].0@ == k {
        Some(entries[0].1@)
    } else {
        spec_get_entries(entries.drop_first(), k)
    }
}

/// Lookup in a concatenation tries the left entries first.
pub proof fn lemma_spec_get_append(a: Seq<(String, String)>, b: Seq<(String, String)>, k: Seq<char>)
    ensures
        spec_get_entries(a + b, k) == (match spec_get_entries(a, k) {
            Some(v) => Some(v),
            None => spec_get_entries(b, k),
        }),
    decreases a.len(),
{
    if a.len() == 0 {
        assert(a + b =~= b);
    } else {
        assert((a + b).drop_first() =~= a.drop_first() + b);
        lemma_spec_get_append(a.drop_first(), b, k);
    }
}

/// If no entry has key `k`, lookup fails.
pub proof fn lemma_spec_get_none(entries: Seq<(String, String)>, k: Seq<char>)
    requires
        forall|j: int| 0 <= j < entries.len() ==> entries[j].0@ != k,
    ensures
        spec_get_entries(entries, k) is None,
    decreases entries.len(),
{
    if entries.len() > 0 {
        lemma_spec_get_none(entries.drop_first(), k);
    }
}

/// If `i` is the first entry with key `k`, lookup returns its value.
pub proof fn lemma_spec_get_first(entries: Seq<(String, String)>, k: Seq<char>, i: int)
    requires
        0 <= i < entries.len(),
        entries[i].0@ == k,
        forall|j: int| 0 <= j < i ==> entries[j].0@ != k,
    ensures
        spec_get_entries(entries, k) == Some(entries[i].1@),
    decreases i,
{
    if i > 0 {
        lemma_spec_get_first(entries.drop_first(), k, i - 1);
    }
}

impl Tags {
    /// Keys are pairwise distinct.
    pub open spec fn wf(self) -> bool {
        forall|i: int, j: int|
            #![trigger self.0@[i], self.0@[j]]
            0 <= i < j < self.0@.len() ==> self.0@[i].0@ != self.0@[j].0@
    }

    /// The value stored under key `k`, if any.
    pub open spec fn spec_get(self, k: Seq<char>) -> Option<Seq<char>> {
        spec_get_entries(self.0@, k)
    }

    pub fn empty() -> (result: Self)
        ensures
            result.wf(),
            result.0@.len() == 0,
            forall|k: Seq<char>| result.spec_get(k) is None,
    {
        Tags(Vec::new())
    }

    pub fn get(&self, k: &str) -> (result: Option<&String>)
        ensures
            match result {
                Some(v) => self.spec_get(k@) == Some(v@),
                None => self.spec_get(k@) is None,
            },
    {
        let key: String = k.to_owned();
        let n = self.0.len();
        let mut i: usize = 0;
        while i < n
            invariant
                n == self.0@.len(),
                i <= n,
                key@ == k@,
                forall|j: int| 0 <= j < i ==> self.0@[j].0@ != k@,
            decreases n - i,
        {
            if self.0[i].0 == key {
                proof {
                    lemma_spec_get_first(self.0@, k@, i as int);
                }
                return Some(&self.0[i].1);
            }
            i = i + 1;
        }
        proof {
            lemma_spec_get_none(self.0@, k@);
        }
        None
    }

    pub fn has(&self, k: &str) -> (result: bool)
        ensures
            result == (self.spec_get(k@) is Some),
    {
        self.get(k).is_some()
    }

    pub fn has_any(&self, keys: Vec<&str>) -> (result: bool)
        ensures
            result == (exists|i: int|
                0 <= i < keys@.len() && self.spec_get(keys@[i]@) is Some),
    {
        let n = keys.len();
        let mut i: usize = 0;
        while i < n
            invariant
                n == keys@.len(),
                i <= n,
                forall|j: int| 0 <= j < i ==> self.spec_get(keys@[j]@) is None,
            decreases n - i,
        {
            if self.has(keys[i]) {
                return true;
            }
            i = i + 1;
        }
        false
    }

    pub fn is(&self, k: &str, v: &str) -> (result: bool)
        ensures
            result == (self.spec_get(k@) == Some(v@)),
    {
        match self.get(k) {
            Some(value) => {
                let owned: String = v.to_owned();
                *value == owned
            },
            None => false,
        }
    }

    pub fn is_any(&self, k: &str, values: Vec<&str>) -> (result: bool)
        ensures
            result == (exists|i: int|
                0 <= i < values@.len() && self.spec_get(k@) == Some(values@[i]@)),
    {
        let n = values.len();
        let mut i: usize = 0;
        while i < n
            invariant
                n == values@.len(),
                i <= n,
                forall|j: int| 0 <= j < i ==> self.spec_get(k@) != Some(values@[j]@),
            decreases n - i,
        {
            if self.is(k, values[i]) {
                return true;
            }
            i = i + 1;
        }
        false
    }

    pub fn is_any_key(&self, keys: Vec<&str>, value: &str) -> (result: bool)
        ensures
            result == (exists|i: int|
                0 <= i < keys@.len() && self.spec_get(keys@[i]@) == Some(value@)),
    {
        let n = keys.len();
        let mut i: usize = 0;
        while i < n
            invariant
                n == keys@.len(),
                i <= n,
                forall|j: int| 0 <= j < i ==> self.spec_get(keys@[j]@) != Some(value@),
            decreases n - i,
        {
            if self.is(keys[i], value) {
                return true;
            }
            i = i + 1;
        }
        false
    }

    pub fn insert(&mut self, k: &str, v: &str)
        requires
            old(self).wf(),
        ensures
            final(self).wf(),
            final(self).spec_get(k@) == Some(v@),
            forall|k2: Seq<char>|
                k2 != k@ ==> final(self).spec_get(k2) == old(self).spec_get(k2),
    {
        let ghost pre_remove = *old(self);
        let _ = self.remove(k);
        let ghost trimmed = *self;
        self.0.push((k.to_owned(), v.to_owned()));
        proof {
            let entries = trimmed.0@;
            let added = self.0@.subrange(entries.len() as int, self.0@.len() as int);
            assert(self.0@ =~= entries + added);
            assert(added.len() == 1);
            assert(added[0].0@ == k@);
            assert(added[0].1@ == v@);
            // The new key is looked up in the freshly added entry.
            lemma_spec_get_append(entries, added, k@);
            lemma_spec_get_none(entries, k@);
            // Any other key is found, or not, exactly as before the call.
            assert forall|k2: Seq<char>| k2 != k@ implies self.spec_get(k2)
                == pre_remove.spec_get(k2) by {
                lemma_spec_get_append(entries, added, k2);
                lemma_spec_get_none(added, k2);
            }
            // Keys stay pairwise distinct: the trimmed list lost every entry
            // with key k, and kept its own distinctness.
            assert forall|x: int, y: int|
                #![trigger self.0@[x], self.0@[y]]
                0 <= x < y < self.0@.len() implies self.0@[x].0@ != self.0@[y].0@ by {
                if y < entries.len() {
                    assert(self.0@[x] == trimmed.0@[x]);
                    assert(self.0@[y] == trimmed.0@[y]);
                    assert(trimmed.0@[x].0@ != trimmed.0@[y].0@);
                } else {
                    assert(self.0@[x] == trimmed.0@[x]);
                    assert(trimmed.0@[x].0@ != k@);
                    assert(self.0@[y].0@ == k@);
                }
            }
        }
    }

    pub fn remove(&mut self, k: &str) -> (result: Option<String>)
        requires
            old(self).wf(),
        ensures
            final(self).wf(),
            final(self).spec_get(k@) is None,
            forall|j: int| 0 <= j < final(self).0@.len() ==> final(self).0@[j].0@ != k@,
            forall|k2: Seq<char>|
                k2 != k@ ==> final(self).spec_get(k2) == old(self).spec_get(k2),
            match result {
                Some(v) => old(self).spec_get(k@) == Some(v@),
                None => old(self).spec_get(k@) is None,
            },
    {
        let key: String = k.to_owned();
        let n = self.0.len();
        let mut i: usize = 0;
        while i < n
            invariant
                n == self.0@.len(),
                i <= n,
                key@ == k@,
                *self == *old(self),
                old(self).wf(),
                forall|j: int| 0 <= j < i ==> self.0@[j].0@ != k@,
            decreases n - i,
        {
            if self.0[i].0 == key {
                proof {
                    lemma_spec_get_first(self.0@, k@, i as int);
                }
                let ghost pre = self.0@;
                let pair = self.0.remove(i);
                proof {
                    let ii = i as int;
                    let a = pre.subrange(0, ii);
                    let b = pre.subrange(ii + 1, n as int);
                    assert(self.0@ =~= a + b);
                    assert(pre =~= a + (seq![pre[ii]] + b));
                    assert(pre[ii].0@ == k@);
                    // No surviving entry carries key k.
                    assert forall|j: int| 0 <= j < self.0@.len() implies self.0@[j].0@ != k@ by {
                        if j < ii {
                            assert(self.0@[j] == pre[j]);
                        } else {
                            assert(self.0@[j] == pre[j + 1]);
                            assert(old(self).0@[ii].0@ != old(self).0@[j + 1].0@);
                        }
                    }
                    lemma_spec_get_none(self.0@, k@);
                    // Distinctness survives deleting an entry.
                    assert forall|x: int, y: int|
                        #![trigger self.0@[x], self.0@[y]]
                        0 <= x < y < self.0@.len() implies self.0@[x].0@ != self.0@[y].0@ by {
                        let px = if x < ii { x } else { x + 1 };
                        let py = if y < ii { y } else { y + 1 };
                        assert(self.0@[x] == pre[px]);
                        assert(self.0@[y] == pre[py]);
                        assert(old(self).0@[px].0@ != old(self).0@[py].0@);
                    }
                    // Lookups of other keys skip the deleted entry.
                    assert forall|k2: Seq<char>| k2 != k@ implies self.spec_get(k2)
                        == old(self).spec_get(k2) by {
                        lemma_spec_get_append(a, b, k2);
                        lemma_spec_get_append(a, seq![pre[ii]] + b, k2);
                        lemma_spec_get_append(seq![pre[ii]], b, k2);
                        lemma_spec_get_none(seq![pre[ii]], k2);
                    }
                }
                return Some(pair.1);
            }
            i = i + 1;
        }
        proof {
            lemma_spec_get_none(self.0@, k@);
        }
        None
    }
}

impl Clone for Tags {
    /// A clone holds exactly the entries of the original.
    fn clone(&self) -> (result: Self)
        ensures
            result.0@ == self.0@,
    {
        let n = self.0.len();
        let mut entries: Vec<(String, String)> = Vec::new();
        let mut i: usize = 0;
        while i < n
            invariant
                n == self.0@.len(),
                i <= n,
                entries@ =~= self.0@.subrange(0, i as int),
            decreases n - i,
        {
            entries.push((self.0[i].0.clone(), self.0[i].1.clone()));
            i = i + 1;
        }
        proof {
            assert(entries@ =~= self.0@);
        }
        Tags(entries)
    }
}

} // verus!
