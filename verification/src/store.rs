//! A path-keyed table with a `Map` view: the model used for the files of an
//! installation (path to contents) and for the per-server manifest directory
//! (server name to manifest). Keys are unique by construction.

use vstd::prelude::*;
use crate::text::str_eq;

verus! {

/// An association table from relative paths (or server names) to values,
/// viewed as a `Map<Seq<char>, T::V>`.
pub struct PathTable<T> {
    entries: Vec<(String, T)>,
}

spec fn kv_map<T: View>(s: Seq<(String, T)>) -> Map<Seq<char>, T::V>
    decreases s.len(),
{
    if s.len() == 0 {
        Map::empty()
    } else {
        kv_map(s.drop_last()).insert(s.last().0@, s.last().1@)
    }
}

impl<T: View> View for PathTable<T> {
    type V = Map<Seq<char>, T::V>;

    closed spec fn view(&self) -> Map<Seq<char>, T::V> {
        kv_map(self.entries@)
    }
}

spec fn keys_unique<T>(s: Seq<(String, T)>) -> bool {
    forall|i: int, j: int| 0 <= i < j < s.len() ==> (#[trigger] s[i]).0@ != (#[trigger] s[j]).0@
}

proof fn lemma_kv_contains<T: View>(s: Seq<(String, T)>, k: Seq<char>)
    ensures
        kv_map(s).contains_key(k) <==> exists|i: int| 0 <= i < s.len() && (#[trigger] s[i]).0@ == k,
    decreases s.len(),
{
    if s.len() > 0 {
        lemma_kv_contains(s.drop_last(), k);
        if kv_map(s).contains_key(k) {
            if s.last().0@ != k {
                let i = choose|i: int| 0 <= i < s.len() - 1 && (#[trigger] s.drop_last()[i]).0@
                    == k;
                assert(s[i].0@ == k);
            }
        }
        if exists|i: int| 0 <= i < s.len() && (#[trigger] s[i]).0@ == k {
            let i = choose|i: int| 0 <= i < s.len() && (#[trigger] s[i]).0@ == k;
            if i < s.len() - 1 {
                assert(s.drop_last()[i].0@ == k);
            }
        }
    }
}

proof fn lemma_kv_get<T: View>(s: Seq<(String, T)>, i: int)
    requires
        keys_unique(s),
        0 <= i < s.len(),
    ensures
        kv_map(s).contains_key(s[i].0@),
        kv_map(s)[s[i].0@] == s[i].1@,
    decreases s.len(),
{
    if i < s.len() - 1 {
        assert(keys_unique(s.drop_last()));
        assert(s.drop_last()[i] == s[i]);
        lemma_kv_get(s.drop_last(), i);
        assert(s[i].0@ != s.last().0@);
    }
}

proof fn lemma_kv_remove<T: View>(s: Seq<(String, T)>, i: int)
    requires
        keys_unique(s),
        0 <= i < s.len(),
    ensures
        kv_map(s.remove(i)) == kv_map(s).remove(s[i].0@),
    decreases s.len(),
{
    let k = s[i].0@;
    if i == s.len() - 1 {
        assert(s.remove(i) =~= s.drop_last());
        lemma_kv_contains::<T>(s.drop_last(), k);
        assert(!kv_map(s.drop_last()).contains_key(k));
        assert(kv_map(s.drop_last()).insert(k, s.last().1@).remove(k) =~= kv_map(s.drop_last()));
    } else {
        assert(keys_unique(s.drop_last()));
        lemma_kv_remove(s.drop_last(), i);
        assert(s.remove(i).drop_last() =~= s.drop_last().remove(i));
        assert(s.remove(i).last() == s.last());
        assert(s.last().0@ != k);
        assert(kv_map(s.drop_last()).remove(k).insert(s.last().0@, s.last().1@) =~= kv_map(
            s.drop_last(),
        ).insert(s.last().0@, s.last().1@).remove(k));
    }
}

impl<T: View> PathTable<T> {
    /// Well-formedness: at most one entry per key. Established by `new` and
    /// preserved by every operation.
    pub closed spec fn wf(&self) -> bool {
        keys_unique(self.entries@)
    }

    /// An empty table.
    pub fn new() -> (r: Self)
        ensures
            r@ == Map::<Seq<char>, T::V>::empty(),
            r.wf(),
    {
        PathTable { entries: Vec::new() }
    }

    /// The index of the entry for `p`, if one exists.
    fn find(&self, p: &str) -> (r: Option<usize>)
        ensures
            match r {
                Some(i) => i < self.entries@.len() && self.entries@[i as int].0@ == p@,
                None => forall|i: int|
                    0 <= i < self.entries@.len() ==> (#[trigger] self.entries@[i]).0@ != p@,
            },
    {
        let n = self.entries.len();
        let mut i: usize = 0;
        while i < n
            invariant
                i <= n,
                n == self.entries@.len(),
                forall|j: int| 0 <= j < i ==> (#[trigger] self.entries@[j]).0@ != p@,
            decreases n - i,
        {
            if str_eq(self.entries[i].0.as_str(), p) {
                return Some(i);
            }
            i += 1;
        }
        None
    }

    /// Whether the table has an entry for `p`.
    pub fn contains_path(&self, p: &str) -> (r: bool)
        ensures
            r == self@.contains_key(p@),
    {
        proof {
            lemma_kv_contains::<T>(self.entries@, p@);
        }
        self.find(p).is_some()
    }

    /// The value stored for `p`, if any.
    pub fn get_value(&self, p: &str) -> (r: Option<&T>)
        requires
            self.wf(),
        ensures
            match r {
                Some(v) => self@.contains_key(p@) && v@ == self@[p@],
                None => !self@.contains_key(p@),
            },
    {
        proof {
            lemma_kv_contains::<T>(self.entries@, p@);
        }
        match self.find(p) {
            Some(i) => {
                proof {
                    lemma_kv_get(self.entries@, i as int);
                }
                Some(&self.entries[i].1)
            },
            None => None,
        }
    }

    /// Stores `v` for `p`, replacing any previous value.
    pub fn insert_value(&mut self, p: &str, v: T)
        requires
            old(self).wf(),
        ensures
            final(self)@ == old(self)@.insert(p@, v@),
            final(self).wf(),
    {
        let taken = self.take_value(p);
        proof {
            lemma_kv_contains::<T>(self.entries@, p@);
        }
        let ghost before = self.entries@;
        self.entries.push((p.to_owned(), v));
        proof {
            assert(self.entries@.drop_last() =~= before);
            if taken is Some {
                assert(old(self)@.remove(p@).insert(p@, v@) =~= old(self)@.insert(p@, v@));
            }
        }
    }

    /// Removes and returns the value stored for `p`, if any.
    pub fn take_value(&mut self, p: &str) -> (r: Option<T>)
        requires
            old(self).wf(),
        ensures
            match r {
                Some(v) => old(self)@.contains_key(p@) && v@ == old(self)@[p@] && final(self)@
                    == old(self)@.remove(p@),
                None => !old(self)@.contains_key(p@) && *final(self) == *old(self),
            },
            final(self).wf(),
    {
        proof {
            lemma_kv_contains::<T>(self.entries@, p@);
        }
        match self.find(p) {
            Some(i) => {
                proof {
                    lemma_kv_get(self.entries@, i as int);
                    lemma_kv_remove(self.entries@, i as int);
                }
                let (_, v) = self.entries.remove(i);
                Some(v)
            },
            None => None,
        }
    }

    /// Removes the entry for `p`; a missing entry is left as a no-op.
    pub fn remove_path(&mut self, p: &str)
        requires
            old(self).wf(),
        ensures
            final(self)@ == old(self)@.remove(p@),
            final(self).wf(),
    {
        let taken = self.take_value(p);
        proof {
            if taken is None {
                assert(old(self)@.remove(p@) =~= old(self)@);
            }
        }
    }
}

} // verus!
