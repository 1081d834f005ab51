//! The key directory: the in-memory index that maps each live key to the
//! byte range of its latest `Insert` record.
//!
//! It is a small association map with unique keys, kept in insertion
//! order, so iterating it during compaction lays the commit segment out
//! deterministically.

use crate::log::LogPointer;
use vstd::prelude::*;
use vstd::slice::slice_index_get;
use vstd::utf8::{encode_utf8, encode_utf8_decode_utf8};

verus! {

/// Compares two strings by their bytes.
pub fn str_eq(a: &str, b: &str) -> (r: bool)
    ensures
        r == (a@ == b@),
{
    let ab = a.as_bytes();
    let bb = b.as_bytes();
    proof {
        encode_utf8_decode_utf8(a@);
        encode_utf8_decode_utf8(b@);
    }
    if ab.len() != bb.len() {
        return false;
    }
    let n = ab.len();
    let mut i: usize = 0;
    while i < n
        invariant
            i <= n,
            n == ab@.len(),
            n == bb@.len(),
            ab@ == encode_utf8(a@),
            bb@ == encode_utf8(b@),
            forall|j: int| 0 <= j < i ==> ab@[j] == bb@[j],
        decreases n - i,
    {
        if *slice_index_get(ab, i) != *slice_index_get(bb, i) {
            return false;
        }
        i = i + 1;
    }
    proof {
        assert(ab@ =~= bb@);
    }
    true
}

/// The map an entry list denotes: later entries win, though the directory
/// keeps its keys unique.
pub open spec fn entries_map(s: Seq<(String, LogPointer)>) -> Map<Seq<char>, LogPointer>
    decreases s.len(),
{
    if s.len() == 0 {
        Map::empty()
    } else {
        entries_map(s.drop_last()).insert(s.last().0@, s.last().1)
    }
}

/// Whether an entry list holds each key at most once.
pub open spec fn distinct_keys(s: Seq<(String, LogPointer)>) -> bool {
    forall|i: int, j: int|
        #![trigger s[i].0, s[j].0]
        0 <= i < j < s.len() ==> s[i].0@ != s[j].0@
}

/// The in-memory index from live keys to log pointers.
#[derive(Debug)]
pub struct KeyDir {
    pub entries: Vec<(String, LogPointer)>,
}

impl View for KeyDir {
    type V = Map<Seq<char>, LogPointer>;

    open spec fn view(&self) -> Map<Seq<char>, LogPointer> {
        entries_map(self.entries@)
    }
}

impl KeyDir {
    /// The entry list behind the map, for contracts that speak of order.
    pub open spec fn entries_view(&self) -> Seq<(String, LogPointer)> {
        self.entries@
    }

    /// Every key occurs at most once.
    pub open spec fn wf(&self) -> bool {
        distinct_keys(self.entries@)
    }

    /// An empty directory.
    pub fn new() -> (d: KeyDir)
        ensures
            d.wf(),
            d@ == Map::<Seq<char>, LogPointer>::empty(),
            d.entries_view().len() == 0,
    {
        KeyDir { entries: Vec::new() }
    }

    /// The position of `key`'s entry, if it has one.
    fn find(&self, key: &str) -> (r: Option<usize>)
        ensures
            match r {
                Some(i) => i < self.entries@.len() && self.entries@[i as int].0@ == key@,
                None => forall|i: int|
                    0 <= i < self.entries@.len() ==> #[trigger] self.entries@[i].0@ != key@,
            },
    {
        let n = self.entries.len();
        let mut i: usize = 0;
        while i < n
            invariant
                i <= n,
                n == self.entries@.len(),
                forall|j: int| 0 <= j < i ==> #[trigger] self.entries@[j].0@ != key@,
            decreases n - i,
        {
            if str_eq(self.entries[i].0.as_str(), key) {
                return Some(i);
            }
            i = i + 1;
        }
        None
    }

    /// The number of live keys.
    pub fn len(&self) -> (n: usize)
        ensures
            n == self.entries_view().len(),
    {
        self.entries.len()
    }

    /// The key and pointer of the entry at position `i`.
    pub fn entry_at(&self, i: usize) -> (r: (&String, LogPointer))
        requires
            i < self.entries_view().len(),
        ensures
            r.0@ == self.entries_view()[i as int].0@,
            r.1 == self.entries_view()[i as int].1,
    {
        let pair = vstd::std_specs::vec::vec_index(&self.entries, i);
        (&pair.0, pair.1)
    }

    /// Redirects the entry at position `i` to a new pointer, keeping its
    /// key.
    pub fn set_ptr_at(&mut self, i: usize, ptr: LogPointer)
        requires
            i < old(self).entries_view().len(),
            old(self).wf(),
        ensures
            final(self).wf(),
            final(self).entries_view() == old(self).entries_view().update(
                i as int,
                (old(self).entries_view()[i as int].0, ptr),
            ),
            final(self)@ == old(self)@.insert(old(self).entries_view()[i as int].0@, ptr),
    {
        let entry = vstd::std_specs::vec::vec_index_mut(&mut self.entries, i);
        entry.1 = ptr;
        proof {
            let olds = old(self).entries@;
            let news = self.entries@;
            assert forall|j: int| 0 <= j < olds.len() implies #[trigger] news[j].0@
                == olds[j].0@ by {}
            lemma_entries_map_update_ptr(olds, i as int, ptr);
            assert(news =~= olds.update(i as int, (olds[i as int].0, ptr)));
        }
    }

    /// The pointer `key` maps to, if it is live.
    pub fn get(&self, key: &str) -> (r: Option<LogPointer>)
        requires
            self.wf(),
        ensures
            match r {
                Some(p) => self@.contains_key(key@) && self@[key@] == p,
                None => !self@.contains_key(key@),
            },
    {
        match self.find(key) {
            Some(i) => {
                proof {
                    lemma_entries_map_index(self.entries@, i as int);
                }
                Some(vstd::std_specs::vec::vec_index(&self.entries, i).1)
            },
            None => {
                proof {
                    lemma_entries_map_absent(self.entries@, key@);
                }
                None
            },
        }
    }

    /// Maps `key` to `ptr`, returning the pointer it displaced, if any.
    pub fn insert(&mut self, key: &str, ptr: LogPointer) -> (prev: Option<LogPointer>)
        requires
            old(self).wf(),
        ensures
            final(self).wf(),
            final(self)@ == old(self)@.insert(key@, ptr),
            match prev {
                Some(p) => old(self)@.contains_key(key@) && old(self)@[key@] == p,
                None => !old(self)@.contains_key(key@),
            },
    {
        match self.find(key) {
            Some(i) => {
                proof {
                    lemma_entries_map_index(self.entries@, i as int);
                }
                let prev = vstd::std_specs::vec::vec_index(&self.entries, i).1;
                self.set_ptr_at(i, ptr);
                Some(prev)
            },
            None => {
                proof {
                    lemma_entries_map_absent(self.entries@, key@);
                }
                let ghost olds = self.entries@;
                self.entries.push((key.to_owned(), ptr));
                proof {
                    assert(self.entries@.drop_last() =~= olds);
                }
                None
            },
        }
    }

    /// Drops `key`'s entry, returning the pointer it held, if any.
    pub fn remove(&mut self, key: &str) -> (prev: Option<LogPointer>)
        requires
            old(self).wf(),
        ensures
            final(self).wf(),
            final(self)@ == old(self)@.remove(key@),
            match prev {
                Some(p) => old(self)@.contains_key(key@) && old(self)@[key@] == p,
                None => !old(self)@.contains_key(key@),
            },
    {
        match self.find(key) {
            Some(i) => {
                proof {
                    lemma_entries_map_index(self.entries@, i as int);
                    lemma_entries_map_remove(self.entries@, i as int);
                }
                let prev = vstd::std_specs::vec::vec_index(&self.entries, i).1;
                self.entries.remove(i);
                Some(prev)
            },
            None => {
                proof {
                    lemma_entries_map_absent(self.entries@, key@);
                    assert(old(self)@.remove(key@) =~= old(self)@);
                }
                None
            },
        }
    }
}

/// An entry's key is in the map and maps to that entry's pointer.
pub proof fn lemma_entries_map_index(s: Seq<(String, LogPointer)>, i: int)
    requires
        distinct_keys(s),
        0 <= i < s.len(),
    ensures
        entries_map(s).contains_key(s[i].0@),
        entries_map(s)[s[i].0@] == s[i].1,
    decreases s.len(),
{
    if i == s.len() - 1 {
    } else {
        assert(distinct_keys(s.drop_last()));
        lemma_entries_map_index(s.drop_last(), i);
        assert(s.drop_last()[i] == s[i]);
        assert(s[i].0@ != s.last().0@);
    }
}

/// A key no entry holds is not in the map.
pub proof fn lemma_entries_map_absent(s: Seq<(String, LogPointer)>, k: Seq<char>)
    requires
        forall|i: int| 0 <= i < s.len() ==> #[trigger] s[i].0@ != k,
    ensures
        !entries_map(s).contains_key(k),
    decreases s.len(),
{
    if s.len() > 0 {
        lemma_entries_map_absent(s.drop_last(), k);
    }
}

/// Every key in the map is held by some entry.
pub proof fn lemma_entries_map_contains(s: Seq<(String, LogPointer)>, k: Seq<char>)
    requires
        entries_map(s).contains_key(k),
    ensures
        exists|i: int| 0 <= i < s.len() && #[trigger] s[i].0@ == k,
    decreases s.len(),
{
    if s.len() > 0 && s.last().0@ != k {
        lemma_entries_map_contains(s.drop_last(), k);
        let i = choose|i: int| 0 <= i < s.drop_last().len() && #[trigger] s.drop_last()[i].0@ == k;
        assert(s[i].0@ == k);
    }
}

/// Redirecting one entry's pointer updates that key alone.
pub proof fn lemma_entries_map_update_ptr(s: Seq<(String, LogPointer)>, i: int, ptr: LogPointer)
    requires
        distinct_keys(s),
        0 <= i < s.len(),
    ensures
        entries_map(s.update(i, (s[i].0, ptr))) == entries_map(s).insert(s[i].0@, ptr),
        distinct_keys(s.update(i, (s[i].0, ptr))),
    decreases s.len(),
{
    let s2 = s.update(i, (s[i].0, ptr));
    assert forall|x: int, y: int| 0 <= x < y < s2.len() implies s2[x].0@ != s2[y].0@ by {
        assert(s[x].0@ != s[y].0@);
    }
    if i == s.len() - 1 {
        assert(s2.drop_last() =~= s.drop_last());
        assert(entries_map(s2) =~= entries_map(s).insert(s[i].0@, ptr));
    } else {
        assert(distinct_keys(s.drop_last()));
        lemma_entries_map_update_ptr(s.drop_last(), i, ptr);
        assert(s2.drop_last() =~= s.drop_last().update(i, (s[i].0, ptr)));
        assert(s2.last() == s.last());
        assert(s[i].0@ != s.last().0@);
        assert(entries_map(s2) =~= entries_map(s).insert(s[i].0@, ptr));
    }
}

/// Removing one entry removes that key alone.
pub proof fn lemma_entries_map_remove(s: Seq<(String, LogPointer)>, i: int)
    requires
        distinct_keys(s),
        0 <= i < s.len(),
    ensures
        entries_map(s.remove(i)) == entries_map(s).remove(s[i].0@),
        distinct_keys(s.remove(i)),
    decreases s.len(),
{
    let s2 = s.remove(i);

    assert forall|x: int, y: int| 0 <= x < y < s2.len() implies s2[x].0@ != s2[y].0@ by {
        if x < i && y < i {
            assert(s2[x] == s[x] && s2[y] == s[y]);
        } else if x < i {
            assert(s2[x] == s[x] && s2[y] == s[y + 1]);
        } else {
            assert(s2[x] == s[x + 1] && s2[y] == s[y + 1]);
        }
    }
    if i == s.len() - 1 {
        assert(s2 =~= s.drop_last());
        assert forall|j: int| 0 <= j < s.drop_last().len() implies #[trigger] s.drop_last()[j].0@
            != s[i].0@ by {}
        lemma_entries_map_absent(s.drop_last(), s[i].0@);
        assert(entries_map(s2) =~= entries_map(s).remove(s[i].0@));
    } else {
        assert(distinct_keys(s.drop_last()));
        lemma_entries_map_remove(s.drop_last(), i);
        assert(s2.drop_last() =~= s.drop_last().remove(i));
        assert(s2.last() == s.last());
        assert(s[i].0@ != s.last().0@);
        assert(entries_map(s2) =~= entries_map(s).remove(s[i].0@));
    }
}

} // verus!
