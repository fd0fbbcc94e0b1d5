//! A byte-string-keyed association map with a `Map` view, used for the
//! chain's hash-keyed and key-keyed tables.
use vstd::prelude::*;
use crate::encoding::bytes_eq;

verus! {

/// Newest binding first: the entry closest to the front wins.
pub struct AList<V> {
    entries: Vec<(Vec<u8>, V)>,
}

pub open spec fn alist_map<V: View>(s: Seq<(Vec<u8>, V)>) -> Map<Seq<u8>, <V as View>::V>
    decreases s.len(),
{
    if s.len() == 0 {
        Map::empty()
    } else {
        alist_map(s.drop_first()).insert(s.first().0@, s.first().1@)
    }
}

impl<V: View> View for AList<V> {
    type V = Map<Seq<u8>, <V as View>::V>;

    closed spec fn view(&self) -> Map<Seq<u8>, <V as View>::V> {
        alist_map(self.entries@)
    }
}

proof fn lemma_alist_found<V: View>(s: Seq<(Vec<u8>, V)>, k: Seq<u8>, i: int)
    requires
        0 <= i < s.len(),
        s[i].0@ == k,
        forall|j: int| 0 <= j < i ==> s[j].0@ != k,
    ensures
        alist_map(s).contains_key(k),
        alist_map(s)[k] == s[i].1@,
    decreases i,
{
    if i > 0 {
        lemma_alist_found(s.drop_first(), k, i - 1);
    }
}

proof fn lemma_alist_absent<V: View>(s: Seq<(Vec<u8>, V)>, k: Seq<u8>)
    requires
        forall|j: int| 0 <= j < s.len() ==> s[j].0@ != k,
    ensures
        !alist_map(s).contains_key(k),
    decreases s.len(),
{
    if s.len() > 0 {
        lemma_alist_absent(s.drop_first(), k);
    }
}

impl<V: View> AList<V> {
    pub fn new() -> (r: AList<V>)
        ensures
            r@ == Map::<Seq<u8>, <V as View>::V>::empty(),
    {
        AList { entries: Vec::new() }
    }

    pub fn get(&self, key: &Vec<u8>) -> (r: Option<&V>)
        ensures
            match r {
                Some(v) => self@.contains_key(key@) && v@ == self@[key@],
                None => !self@.contains_key(key@),
            },
    {
        let mut i: usize = 0;
        while i < self.entries.len()
            invariant
                i <= self.entries@.len(),
                forall|j: int| 0 <= j < i ==> self.entries@[j].0@ != key@,
            decreases self.entries@.len() - i,
        {
            if bytes_eq(&self.entries[i].0, key) {
                proof {
                    lemma_alist_found(self.entries@, key@, i as int);
                }
                return Some(&self.entries[i].1);
            }
            i = i + 1;
        }
        proof {
            lemma_alist_absent(self.entries@, key@);
        }
        None
    }

    pub fn contains_key(&self, key: &Vec<u8>) -> (r: bool)
        ensures
            r == self@.contains_key(key@),
    {
        self.get(key).is_some()
    }

    pub fn insert(&mut self, key: Vec<u8>, value: V)
        ensures
            final(self)@ == old(self)@.insert(key@, value@),
    {
        let ghost old_entries = self.entries@;
        self.entries.insert(0, (key, value));
        proof {
            assert(self.entries@.drop_first() =~= old_entries);
        }
    }

    /// The number of stored entries; bindings shadowed by a newer one for
    /// the same key are counted too.
    pub fn entry_count(&self) -> (r: usize)
        ensures
            r == self.spec_entries().len(),
    {
        self.entries.len()
    }

    pub fn entry_at(&self, i: usize) -> (r: &(Vec<u8>, V))
        requires
            i < self.spec_entries().len(),
        ensures
            r == self.spec_entries()[i as int],
    {
        &self.entries[i]
    }

    pub closed spec fn spec_entries(&self) -> Seq<(Vec<u8>, V)> {
        self.entries@
    }

    /// Every value in the map is the view of some stored entry.
    pub proof fn lemma_value_origin(&self, k: Seq<u8>)
        requires
            self@.contains_key(k),
        ensures
            exists|i: int|
                0 <= i < self.spec_entries().len() && #[trigger] self.spec_entries()[i].1@
                    == self@[k],
    {
        lemma_alist_map_value_origin(self.entries@, k);
        let i = choose|i: int|
            0 <= i < self.entries@.len() && #[trigger] self.entries@[i].1@ == alist_map(
                self.entries@,
            )[k];
        assert(self.spec_entries()[i].1@ == self@[k]);
    }

    /// Replaying the stored entries from oldest to newest rebuilds the map.
    pub proof fn lemma_entries_view(&self)
        ensures
            self@ == alist_map(self.spec_entries()),
    {
    }
}

proof fn lemma_alist_map_value_origin<V: View>(s: Seq<(Vec<u8>, V)>, k: Seq<u8>)
    requires
        alist_map(s).contains_key(k),
    ensures
        exists|i: int| 0 <= i < s.len() && #[trigger] s[i].1@ == alist_map(s)[k],
    decreases s.len(),
{
    if s.len() == 0 {
    } else if s.first().0@ == k {
        assert(s[0].1@ == alist_map(s)[k]);
    } else {
        lemma_alist_map_value_origin(s.drop_first(), k);
        let j = choose|j: int|
            0 <= j < s.drop_first().len() && #[trigger] s.drop_first()[j].1@ == alist_map(
                s.drop_first(),
            )[k];
        assert(s[j + 1].1@ == alist_map(s)[k]);
    }
}

proof fn lemma_alist_map_congruent<V: View>(a: Seq<(Vec<u8>, V)>, b: Seq<(Vec<u8>, V)>)
    requires
        a.len() == b.len(),
        forall|i: int| 0 <= i < a.len() ==> a[i].0@ == b[i].0@ && a[i].1@ == b[i].1@,
    ensures
        alist_map(a) == alist_map(b),
    decreases a.len(),
{
    if a.len() > 0 {
        lemma_alist_map_congruent(a.drop_first(), b.drop_first());
    }
}

impl<V: View + Copy> AList<V> {
    pub fn duplicate(&self) -> (r: AList<V>)
        ensures
            r@ == self@,
    {
        let mut entries: Vec<(Vec<u8>, V)> = Vec::new();
        let mut i: usize = 0;
        while i < self.entries.len()
            invariant
                i <= self.entries@.len(),
                entries@.len() == i,
                forall|j: int| 0 <= j < i ==> entries@[j].0@ == self.entries@[j].0@
                    && entries@[j].1 == self.entries@[j].1,
            decreases self.entries@.len() - i,
        {
            let key = crate::encoding::clone_bytes(&self.entries[i].0);
            let value = self.entries[i].1;
            entries.push((key, value));
            i = i + 1;
        }
        let r = AList { entries };
        proof {
            lemma_alist_map_congruent(r.entries@, self.entries@);
        }
        r
    }
}

} // verus!
