//! Maps keyed by text: an association list whose keys are pairwise
//! distinct, viewed as a `Map<Seq<char>, V>`, and a map whose entries expire
//! a fixed time after they were written.

use vstd::prelude::*;
use crate::text::str_eq;

verus! {

/// Entries keyed by text; each key occurs at most once.
pub struct KeyedMap<V> {
    entries: Vec<(String, V)>,
}

pub open spec fn keys_distinct<V>(s: Seq<(String, V)>) -> bool {
    forall|i: int, j: int| 0 <= i < j < s.len() ==> (#[trigger] s[i]).0@ != (#[trigger] s[j]).0@
}

/// The map described by an association list (later entries win).
pub open spec fn entries_map<V>(s: Seq<(String, V)>) -> Map<Seq<char>, V>
    decreases s.len(),
{
    if s.len() == 0 {
        Map::empty()
    } else {
        entries_map(s.drop_last()).insert(s.last().0@, s.last().1)
    }
}

proof fn lemma_entries_map_dom<V>(s: Seq<(String, V)>, k: Seq<char>)
    ensures
        entries_map(s).dom().contains(k) <==> exists|i: int| 0 <= i < s.len() && (#[trigger] s[i]).0@ == k,
    decreases s.len(),
{
    if s.len() > 0 {
        let d = s.drop_last();
        lemma_entries_map_dom(d, k);
        if exists|i: int| 0 <= i < d.len() && (#[trigger] d[i]).0@ == k {
            let i = choose|i: int| 0 <= i < d.len() && (#[trigger] d[i]).0@ == k;
            assert(s[i].0@ == k);
        }
        if exists|i: int| 0 <= i < s.len() && (#[trigger] s[i]).0@ == k {
            let i = choose|i: int| 0 <= i < s.len() && (#[trigger] s[i]).0@ == k;
            if i < s.len() - 1 {
                assert(d[i].0@ == k);
            }
        }
    }
}

proof fn lemma_entries_map_at<V>(s: Seq<(String, V)>, i: int)
    requires
        keys_distinct(s),
        0 <= i < s.len(),
    ensures
        entries_map(s).dom().contains(s[i].0@),
        entries_map(s)[s[i].0@] == s[i].1,
    decreases s.len(),
{
    if i < s.len() - 1 {
        let d = s.drop_last();
        assert(keys_distinct(d)) by {
            assert forall|a: int, b: int| 0 <= a < b < d.len() implies (#[trigger] d[a]).0@ != (
            #[trigger] d[b]).0@ by {
                assert(s[a] == d[a] && s[b] == d[b]);
            }
        }
        lemma_entries_map_at(d, i);
        assert(s[i] == d[i]);
        assert(s[i].0@ != s.last().0@);
    }
}

proof fn lemma_entries_map_remove<V>(s: Seq<(String, V)>, i: int)
    requires
        keys_distinct(s),
        0 <= i < s.len(),
    ensures
        keys_distinct(s.remove(i)),
        entries_map(s.remove(i)) == entries_map(s).remove(s[i].0@),
{
    let t = s.remove(i);
    let key = s[i].0@;
    assert forall|a: int, b: int| 0 <= a < b < t.len() implies (#[trigger] t[a]).0@ != (
    #[trigger] t[b]).0@ by {
        let a2 = if a < i { a } else { a + 1 };
        let b2 = if b < i { b } else { b + 1 };
        assert(t[a] == s[a2] && t[b] == s[b2]);
    }
    let m1 = entries_map(t);
    let m2 = entries_map(s).remove(key);
    assert forall|k: Seq<char>| m1.dom().contains(k) <==> m2.dom().contains(k) by {
        lemma_entries_map_dom(t, k);
        lemma_entries_map_dom(s, k);
        if m1.dom().contains(k) {
            let a = choose|a: int| 0 <= a < t.len() && (#[trigger] t[a]).0@ == k;
            let a2 = if a < i { a } else { a + 1 };
            assert(t[a] == s[a2]);
        }
        if m2.dom().contains(k) {
            let a = choose|a: int| 0 <= a < s.len() && (#[trigger] s[a]).0@ == k;
            assert(a != i);
            let a1 = if a < i { a } else { a - 1 };
            assert(t[a1] == s[a]);
        }
    }
    assert forall|k: Seq<char>| #[trigger] m1.dom().contains(k) implies m1[k] == m2[k] by {
        lemma_entries_map_dom(t, k);
        let a = choose|a: int| 0 <= a < t.len() && (#[trigger] t[a]).0@ == k;
        let a2 = if a < i { a } else { a + 1 };
        assert(t[a] == s[a2]);
        lemma_entries_map_at(t, a);
        lemma_entries_map_at(s, a2);
    }
    assert(m1 =~= m2);
}

impl<V> View for KeyedMap<V> {
    type V = Map<Seq<char>, V>;

    closed spec fn view(&self) -> Map<Seq<char>, V> {
        entries_map(self.entries@)
    }
}

impl<V> KeyedMap<V> {
    /// No key occurs twice.
    pub closed spec fn wf(&self) -> bool {
        keys_distinct(self.entries@)
    }

    pub fn new() -> (r: Self)
        ensures
            r.wf(),
            r@ == Map::<Seq<char>, V>::empty(),
    {
        KeyedMap { entries: Vec::new() }
    }

    /// Position of `key`, if present.
    fn find(&self, key: &str) -> (r: Option<usize>)
        requires
            self.wf(),
        ensures
            match r {
                Some(i) => i < self.entries@.len() && self.entries@[i as int].0@ == key@,
                None => !self@.dom().contains(key@),
            },
    {
        let mut i: usize = 0;
        while i < self.entries.len()
            invariant
                i <= self.entries@.len(),
                forall|j: int| 0 <= j < i ==> (#[trigger] self.entries@[j]).0@ != key@,
            decreases self.entries@.len() - i,
        {
            if str_eq(self.entries[i].0.as_str(), key) {
                return Some(i);
            }
            i = i + 1;
        }
        proof {
            lemma_entries_map_dom(self.entries@, key@);
        }
        None
    }

    /// The value stored under `key`.
    pub fn get(&self, key: &str) -> (r: Option<&V>)
        requires
            self.wf(),
        ensures
            r is Some <==> self@.dom().contains(key@),
            r matches Some(v) ==> *v == self@[key@],
    {
        match self.find(key) {
            Some(i) => {
                proof {
                    lemma_entries_map_at(self.entries@, i as int);
                }
                Some(&self.entries[i].1)
            },
            None => None,
        }
    }

    /// Whether `key` is present.
    pub fn contains(&self, key: &str) -> (r: bool)
        requires
            self.wf(),
        ensures
            r == self@.dom().contains(key@),
    {
        match self.find(key) {
            Some(i) => {
                proof {
                    lemma_entries_map_at(self.entries@, i as int);
                }
                true
            },
            None => false,
        }
    }

    fn remove_at(&mut self, i: usize) -> (r: (String, V))
        requires
            old(self).wf(),
            i < old(self).entries@.len(),
        ensures
            final(self).wf(),
            r == old(self).entries@[i as int],
            final(self).entries@ == old(self).entries@.remove(i as int),
            final(self)@ == old(self)@.remove(r.0@),
    {
        proof {
            lemma_entries_map_remove(self.entries@, i as int);
        }
        self.entries.remove(i)
    }

    /// Drops `key` if present.
    pub fn remove(&mut self, key: &str) -> (r: Option<V>)
        requires
            old(self).wf(),
        ensures
            final(self).wf(),
            final(self)@ == old(self)@.remove(key@),
            r is Some <==> old(self)@.dom().contains(key@),
            r matches Some(v) ==> v == old(self)@[key@],
    {
        match self.find(key) {
            Some(i) => {
                proof {
                    lemma_entries_map_at(self.entries@, i as int);
                }
                let e = self.remove_at(i);
                Some(e.1)
            },
            None => {
                assert(self@.remove(key@) =~= self@);
                None
            },
        }
    }

    /// Stores `value` under `key`, replacing any earlier value.
    pub fn insert(&mut self, key: String, value: V)
        requires
            old(self).wf(),
        ensures
            final(self).wf(),
            final(self)@ == old(self)@.insert(key@, value),
    {
        let ghost before = self@;
        match self.find(key.as_str()) {
            Some(i) => {
                let _ = self.remove_at(i);
            },
            None => {
                assert(self@.remove(key@) =~= self@);
            },
        }
        let ghost mid = self@;
        assert(mid == before.remove(key@));
        proof {
            assert forall|j: int| 0 <= j < self.entries@.len() implies (#[trigger] self.entries@[j]).0@
                != key@ by {
                lemma_entries_map_dom(self.entries@, key@);
            }
        }
        let ghost pre = self.entries@;
        self.entries.push((key, value));
        proof {
            let s = self.entries@;
            assert(s.drop_last() =~= pre);
            assert(keys_distinct(s)) by {
                assert forall|a: int, b: int| 0 <= a < b < s.len() implies (#[trigger] s[a]).0@ != (
                #[trigger] s[b]).0@ by {
                    if b == s.len() - 1 {
                        assert(s[a] == s.drop_last()[a]);
                    } else {
                        assert(s[a] == s.drop_last()[a] && s[b] == s.drop_last()[b]);
                    }
                }
            }
            assert(mid.insert(key@, value) =~= before.insert(key@, value));
        }
    }

    /// Number of stored entries.
    pub closed spec fn size(&self) -> nat {
        self.entries@.len()
    }

    /// Number of entries.
    pub fn len(&self) -> (r: usize)
        ensures
            r == self.size(),
    {
        self.entries.len()
    }

    /// The `i`-th entry, in storage order.
    pub fn entry_at(&self, i: usize) -> (r: (&String, &V))
        requires
            self.wf(),
            i < self.size(),
        ensures
            self@.dom().contains(r.0@),
            self@[r.0@] == *r.1,
    {
        proof {
            lemma_entries_map_at(self.entries@, i as int);
        }
        (&self.entries[i].0, &self.entries[i].1)
    }
}

/// Whether an entry written at `at` is still valid at `now` (elapsed time
/// below `ttl`; a clock read before `at` counts as no time elapsed).
pub open spec fn is_fresh(at: u64, now: u64, ttl: u64) -> bool {
    now < at || now - at < ttl
}

/// The entries of `m` that are still valid at `now`.
pub open spec fn fresh_part<V>(m: Map<Seq<char>, (u64, V)>, now: u64, ttl: u64) -> Map<
    Seq<char>,
    (u64, V),
> {
    Map::new(|k: Seq<char>| m.dom().contains(k) && is_fresh(m[k].0, now, ttl), |k: Seq<char>| m[k])
}

/// A map whose entries stop being served `ttl` time units after they were
/// written; expired entries are dropped whenever a new entry is written.
pub struct TtlMap<V> {
    map: KeyedMap<(u64, V)>,
    ttl: u64,
}

impl<V> View for TtlMap<V> {
    type V = Map<Seq<char>, (u64, V)>;

    closed spec fn view(&self) -> Map<Seq<char>, (u64, V)> {
        self.map@
    }
}

impl<V> TtlMap<V> {
    pub closed spec fn wf(&self) -> bool {
        self.map.wf()
    }

    /// Validity period of entries.
    pub closed spec fn ttl(&self) -> u64 {
        self.ttl
    }

    pub fn new(ttl: u64) -> (r: Self)
        ensures
            r.wf(),
            r@ == Map::<Seq<char>, (u64, V)>::empty(),
            r.ttl() == ttl,
    {
        TtlMap { map: KeyedMap::new(), ttl }
    }

    /// The value under `key` if it was written less than `ttl` ago.
    pub fn get(&self, key: &str, now: u64) -> (r: Option<&V>)
        requires
            self.wf(),
        ensures
            r is Some <==> (self@.dom().contains(key@) && is_fresh(self@[key@].0, now, self.ttl())),
            r matches Some(v) ==> *v == self@[key@].1,
    {
        match self.map.get(key) {
            Some(e) => {
                if now < e.0 || now - e.0 < self.ttl {
                    Some(&e.1)
                } else {
                    None
                }
            },
            None => None,
        }
    }

    /// Drops expired entries, then stores `value` under `key` as written at
    /// `now`.
    pub fn set(&mut self, key: String, value: V, now: u64)
        requires
            old(self).wf(),
        ensures
            final(self).wf(),
            final(self).ttl() == old(self).ttl(),
            final(self)@ == fresh_part(old(self)@, now, old(self).ttl()).insert(key@, (now, value)),
    {
        let ghost m0 = self.map@;
        let ttl = self.ttl;
        let mut i: usize = 0;
        while i < self.map.entries.len()
            invariant
                self.map.wf(),
                self.ttl == ttl,
                i <= self.map.entries@.len(),
                forall|j: int|
                    0 <= j < i ==> is_fresh((#[trigger] self.map.entries@[j]).1.0, now, ttl),
                forall|k: Seq<char>|
                    #[trigger] self.map@.dom().contains(k) ==> m0.dom().contains(k)
                        && self.map@[k] == m0[k],
                forall|k: Seq<char>|
                    #[trigger] m0.dom().contains(k) && is_fresh(m0[k].0, now, ttl)
                        ==> self.map@.dom().contains(k),
            decreases self.map.entries@.len() - i,
        {
            let at = self.map.entries[i].1.0;
            if now < at || now - at < ttl {
                i = i + 1;
            } else {
                proof {
                    lemma_entries_map_at(self.map.entries@, i as int);
                }
                let ghost before = self.map.entries@;
                let _ = self.map.remove_at(i);
                proof {
                    assert forall|j: int| 0 <= j < i implies is_fresh(
                        (#[trigger] self.map.entries@[j]).1.0,
                        now,
                        ttl,
                    ) by {
                        assert(self.map.entries@[j] == before[j]);
                    }
                }
            }
        }
        proof {
            let m = self.map@;
            let f = fresh_part(m0, now, ttl);
            assert forall|k: Seq<char>| #[trigger] m.dom().contains(k) implies is_fresh(m[k].0, now, ttl) by {
                lemma_entries_map_dom(self.map.entries@, k);
                let j = choose|j: int| 0 <= j < self.map.entries@.len() && (#[trigger] self.map.entries@[j]).0@ == k;
                lemma_entries_map_at(self.map.entries@, j);
            }
            assert(m =~= f);
        }
        self.map.insert(key, (now, value));
    }
}

} // verus!
