use vstd::prelude::*;

use crate::key::Key;

verus! {

/// No identifier occurs twice among the entries.
pub open spec fn unique_keys<T>(s: Seq<(Key, T)>) -> bool {
    forall|i: int, j: int| 0 <= i < j < s.len() ==> (#[trigger] s[i]).0 != (#[trigger] s[j]).0
}

/// The map that a sequence of entries denotes; a later entry wins.
pub open spec fn map_of<T: View>(s: Seq<(Key, T)>) -> Map<Key, T::V>
    decreases s.len(),
{
    if s.len() == 0 {
        Map::empty()
    } else {
        map_of(s.drop_last()).insert(s.last().0, s.last().1@)
    }
}

/// A key is in the denoted map exactly when some entry carries it.
pub proof fn lemma_map_of_domain<T: View>(s: Seq<(Key, T)>, k: Key)
    ensures
        map_of(s).contains_key(k) <==> exists|i: int| 0 <= i < s.len() && (#[trigger] s[i]).0 == k,
    decreases s.len(),
{
    if s.len() > 0 {
        lemma_map_of_domain(s.drop_last(), k);
        if s.last().0 == k {
            assert(s[s.len() - 1].0 == k);
        } else {
            if map_of(s).contains_key(k) {
                let i = choose|i: int| 0 <= i < s.drop_last().len() && (#[trigger] s.drop_last()[i]).0 == k;
                assert(s[i].0 == k);
            }
            if exists|i: int| 0 <= i < s.len() && (#[trigger] s[i]).0 == k {
                let i = choose|i: int| 0 <= i < s.len() && (#[trigger] s[i]).0 == k;
                assert(i < s.len() - 1);
                assert(s.drop_last()[i].0 == k);
            }
        }
    }
}

/// With unique keys, the entry at any index gives the value in the map.
pub proof fn lemma_map_of_value<T: View>(s: Seq<(Key, T)>, i: int)
    requires
        unique_keys(s),
        0 <= i < s.len(),
    ensures
        map_of(s).contains_key(s[i].0),
        map_of(s)[s[i].0] == s[i].1@,
    decreases s.len(),
{
    if i == s.len() - 1 {
    } else {
        assert(unique_keys(s.drop_last())) by {
            assert(forall|x: int, y: int|
                0 <= x < y < s.drop_last().len() ==> (#[trigger] s.drop_last()[x]).0
                    != (#[trigger] s.drop_last()[y]).0) by {
                assert(forall|x: int|
                    0 <= x < s.drop_last().len() ==> #[trigger] s.drop_last()[x] == s[x]);
            }
        }
        assert(s.drop_last()[i] == s[i]);
        lemma_map_of_value(s.drop_last(), i);
        assert(s[i].0 != s.last().0);
    }
}

/// A table from identifiers to values, with map semantics: one entry per
/// identifier, a later insert replacing an earlier one.
pub struct KeyTable<T> {
    entries: Vec<(Key, T)>,
}

impl<T: View> View for KeyTable<T> {
    type V = Map<Key, <T as View>::V>;

    closed spec fn view(&self) -> Map<Key, <T as View>::V> {
        map_of(self.entries@)
    }
}

impl<T> KeyTable<T> {
    #[verifier::type_invariant]
    spec fn wf(&self) -> bool {
        unique_keys(self.entries@)
    }
}

impl<T: View> KeyTable<T> {
    /// The entries in their insertion order.
    pub closed spec fn entry_seq(&self) -> Seq<(Key, T)> {
        self.entries@
    }

    /// How the entry sequence and the map view relate.
    pub fn entries_facts(&self)
        ensures
            unique_keys(self.entry_seq()),
            forall|i: int|
                0 <= i < self.entry_seq().len() ==> self@.contains_key(
                    (#[trigger] self.entry_seq()[i]).0,
                ) && self@[self.entry_seq()[i].0] == self.entry_seq()[i].1@,
            forall|k: Key|
                self@.contains_key(k) ==> exists|i: int|
                    0 <= i < self.entry_seq().len() && (#[trigger] self.entry_seq()[i]).0 == k,
    {
        proof {
            use_type_invariant(self);
            assert forall|i: int| 0 <= i < self.entry_seq().len() implies self@.contains_key(
                (#[trigger] self.entry_seq()[i]).0,
            ) && self@[self.entry_seq()[i].0] == self.entry_seq()[i].1@ by {
                lemma_map_of_value(self.entries@, i);
            }
            assert forall|k: Key| self@.contains_key(k) implies exists|i: int|
                0 <= i < self.entry_seq().len() && (#[trigger] self.entry_seq()[i]).0 == k by {
                lemma_map_of_domain(self.entries@, k);
                let w = choose|i: int|
                    0 <= i < self.entries@.len() && (#[trigger] self.entries@[i]).0 == k;
                assert(self.entry_seq()[w].0 == k);
            }
        }
    }

    /// An empty table.
    pub fn new() -> (r: Self)
        ensures
            r@ == Map::<Key, <T as View>::V>::empty(),
            r.entry_seq().len() == 0,
    {
        KeyTable { entries: Vec::new() }
    }

    /// How many entries the table holds.
    pub fn num_entries(&self) -> (r: usize)
        ensures
            r == self.entry_seq().len(),
    {
        self.entries.len()
    }

    /// The entry at a position, for walking a snapshot of the table.
    pub fn entry_at(&self, i: usize) -> (r: &(Key, T))
        requires
            i < self.entry_seq().len(),
        ensures
            *r == self.entry_seq()[i as int],
    {
        &self.entries[i]
    }

    /// Whether the table holds the identifier.
    pub fn contains(&self, k: Key) -> (r: bool)
        ensures
            r == self@.contains_key(k),
    {
        let mut i: usize = 0;
        while i < self.entries.len()
            invariant
                i <= self.entries@.len(),
                forall|j: int| 0 <= j < i ==> (#[trigger] self.entries@[j]).0 != k,
            decreases self.entries@.len() - i,
        {
            if self.entries[i].0 == k {
                proof {
                    lemma_map_of_domain(self.entries@, k);
                }
                return true;
            }
            i = i + 1;
        }
        proof {
            lemma_map_of_domain(self.entries@, k);
        }
        false
    }

    /// Looks the identifier up.
    pub fn get(&self, k: Key) -> (r: Option<&T>)
        ensures
            match r {
                Some(v) => self@.contains_key(k) && v@ == self@[k],
                None => !self@.contains_key(k),
            },
    {
        let mut i: usize = 0;
        while i < self.entries.len()
            invariant
                i <= self.entries@.len(),
                forall|j: int| 0 <= j < i ==> (#[trigger] self.entries@[j]).0 != k,
            decreases self.entries@.len() - i,
        {
            if self.entries[i].0 == k {
                proof {
                    use_type_invariant(self);
                    lemma_map_of_value(self.entries@, i as int);
                }
                return Some(&self.entries[i].1);
            }
            i = i + 1;
        }
        proof {
            lemma_map_of_domain(self.entries@, k);
        }
        None
    }

    /// Inserts or replaces the value under the identifier.
    pub fn insert(&mut self, k: Key, v: T)
        ensures
            final(self)@ == old(self)@.insert(k, v@),
            final(self).entry_seq().len() <= old(self).entry_seq().len() + 1,
    {
        proof {
            use_type_invariant(&*self);
        }
        let ghost old_entries = self.entries@;
        let mut entries = Vec::new();
        std::mem::swap(&mut entries, &mut self.entries);

        let mut i: usize = 0;
        let n = entries.len();
        while i < n
            invariant
                entries@ == old_entries,
                old_entries == old(self).entries@,
                unique_keys(old_entries),
                n == entries@.len(),
                i <= n,
                forall|j: int| 0 <= j < i ==> (#[trigger] entries@[j]).0 != k,
            decreases n - i,
        {
            if entries[i].0 == k {
                let old_entry = entries.remove(i);
                entries.push((k, v));
                proof {
                    lemma_insert_effect(old_entries, entries@, k, v, i as int);
                }
                std::mem::swap(&mut entries, &mut self.entries);
                return ;
            }
            i = i + 1;
        }
        entries.push((k, v));
        proof {
            assert(entries@.drop_last() =~= old_entries);
            assert(unique_keys(entries@)) by {
                assert(forall|j: int|
                    0 <= j < old_entries.len() ==> (#[trigger] entries@[j]) == old_entries[j]);
            }
        }
        std::mem::swap(&mut entries, &mut self.entries);
    }
}

/// Replacing the one entry that carried `k` and appending `(k, v)` denotes
/// the map with `k` updated, and keeps the keys unique.
proof fn lemma_insert_effect<T: View>(s: Seq<(Key, T)>, t: Seq<(Key, T)>, k: Key, v: T, i: int)
    requires
        unique_keys(s),
        0 <= i < s.len(),
        s[i].0 == k,
        t == s.remove(i).push((k, v)),
    ensures
        unique_keys(t),
        map_of(t) == map_of(s).insert(k, v@),
{
    assert(forall|j: int| 0 <= j < i ==> (#[trigger] t[j]) == s[j]);
    assert(forall|j: int| i <= j < s.len() - 1 ==> (#[trigger] t[j]) == s[j + 1]);
    assert(t.len() == s.len());
    assert(t.last() == (k, v));
    assert(unique_keys(t)) by {
        assert forall|x: int, y: int| 0 <= x < y < t.len() implies (#[trigger] t[x]).0
            != (#[trigger] t[y]).0 by {
            if y < t.len() - 1 {
                let sx: int = if x < i { x } else { x + 1 };
                let sy: int = if y < i { y } else { y + 1 };
                assert(t[x] == s[sx]);
                assert(t[y] == s[sy]);
            } else {
                let sx: int = if x < i { x } else { x + 1 };
                assert(t[x] == s[sx]);
                assert(sx != i);
            }
        }
    }
    assert forall|q: Key| #[trigger] map_of(t).contains_key(q) || map_of(s).insert(
        k,
        v@,
    ).contains_key(q) implies map_of(t).contains_key(q) == map_of(s).insert(k, v@).contains_key(q)
        && (map_of(t).contains_key(q) ==> map_of(t)[q] == map_of(s).insert(k, v@)[q]) by {
        lemma_map_of_domain(t, q);
        lemma_map_of_domain(s, q);
        if q == k {
            lemma_map_of_value(t, t.len() - 1);
        } else {
            if map_of(t).contains_key(q) {
                let j = choose|j: int| 0 <= j < t.len() && (#[trigger] t[j]).0 == q;
                assert(j < t.len() - 1);
                let sj: int = if j < i { j } else { j + 1 };
                assert(t[j] == s[sj]);
                lemma_map_of_value(t, j);
                lemma_map_of_value(s, sj);
            }
            if map_of(s).contains_key(q) {
                let j = choose|j: int| 0 <= j < s.len() && (#[trigger] s[j]).0 == q;
                assert(j != i);
                let tj: int = if j < i { j } else { j - 1 };
                assert(t[tj] == s[j]);
                lemma_map_of_value(t, tj);
                lemma_map_of_value(s, j);
            }
        }
    }
    assert(map_of(t) =~= map_of(s).insert(k, v@));
}

/// No name occurs twice among the entries.
pub open spec fn unique_names(s: Seq<(Vec<u8>, Key)>) -> bool {
    forall|i: int, j: int| 0 <= i < j < s.len() ==> (#[trigger] s[i]).0@ != (#[trigger] s[j]).0@
}

/// The map that a sequence of name entries denotes; a later entry wins.
pub open spec fn name_map_of(s: Seq<(Vec<u8>, Key)>) -> Map<Seq<u8>, Key>
    decreases s.len(),
{
    if s.len() == 0 {
        Map::empty()
    } else {
        name_map_of(s.drop_last()).insert(s.last().0@, s.last().1)
    }
}

/// A name is in the denoted map exactly when some entry carries it.
pub proof fn lemma_name_map_of_domain(s: Seq<(Vec<u8>, Key)>, n: Seq<u8>)
    ensures
        name_map_of(s).contains_key(n) <==> exists|i: int|
            0 <= i < s.len() && (#[trigger] s[i]).0@ == n,
    decreases s.len(),
{
    if s.len() > 0 {
        lemma_name_map_of_domain(s.drop_last(), n);
        if s.last().0@ == n {
            assert(s[s.len() - 1].0@ == n);
        } else {
            if name_map_of(s).contains_key(n) {
                let i = choose|i: int|
                    0 <= i < s.drop_last().len() && (#[trigger] s.drop_last()[i]).0@ == n;
                assert(s[i].0@ == n);
            }
            if exists|i: int| 0 <= i < s.len() && (#[trigger] s[i]).0@ == n {
                let i = choose|i: int| 0 <= i < s.len() && (#[trigger] s[i]).0@ == n;
                assert(i < s.len() - 1);
                assert(s.drop_last()[i].0@ == n);
            }
        }
    }
}

/// With unique names, the entry at any index gives the value in the map.
pub proof fn lemma_name_map_of_value(s: Seq<(Vec<u8>, Key)>, i: int)
    requires
        unique_names(s),
        0 <= i < s.len(),
    ensures
        name_map_of(s).contains_key(s[i].0@),
        name_map_of(s)[s[i].0@] == s[i].1,
    decreases s.len(),
{
    if i == s.len() - 1 {
    } else {
        assert(unique_names(s.drop_last())) by {
            assert(forall|x: int|
                0 <= x < s.drop_last().len() ==> #[trigger] s.drop_last()[x] == s[x]);
        }
        assert(s.drop_last()[i] == s[i]);
        lemma_name_map_of_value(s.drop_last(), i);
        assert(s[i].0@ != s.last().0@);
    }
}

/// A table from names to identifiers, with map semantics: one entry per name,
/// a later insert replacing an earlier one.
pub struct NameTable {
    entries: Vec<(Vec<u8>, Key)>,
}

impl View for NameTable {
    type V = Map<Seq<u8>, Key>;

    closed spec fn view(&self) -> Map<Seq<u8>, Key> {
        name_map_of(self.entries@)
    }
}

impl NameTable {
    #[verifier::type_invariant]
    spec fn wf(&self) -> bool {
        unique_names(self.entries@)
    }

    /// The entries in their insertion order.
    pub closed spec fn entry_seq(&self) -> Seq<(Vec<u8>, Key)> {
        self.entries@
    }

    /// How the entry sequence and the map view relate.
    pub fn entries_facts(&self)
        ensures
            unique_names(self.entry_seq()),
            forall|i: int|
                0 <= i < self.entry_seq().len() ==> self@.contains_key(
                    (#[trigger] self.entry_seq()[i]).0@,
                ) && self@[self.entry_seq()[i].0@] == self.entry_seq()[i].1,
            forall|n: Seq<u8>|
                self@.contains_key(n) ==> exists|i: int|
                    0 <= i < self.entry_seq().len() && (#[trigger] self.entry_seq()[i]).0@ == n,
    {
        proof {
            use_type_invariant(self);
            assert forall|i: int| 0 <= i < self.entry_seq().len() implies self@.contains_key(
                (#[trigger] self.entry_seq()[i]).0@,
            ) && self@[self.entry_seq()[i].0@] == self.entry_seq()[i].1 by {
                lemma_name_map_of_value(self.entries@, i);
            }
            assert forall|n: Seq<u8>| self@.contains_key(n) implies exists|i: int|
                0 <= i < self.entry_seq().len() && (#[trigger] self.entry_seq()[i]).0@ == n by {
                lemma_name_map_of_domain(self.entries@, n);
                let w = choose|i: int|
                    0 <= i < self.entries@.len() && (#[trigger] self.entries@[i]).0@ == n;
                assert(self.entry_seq()[w].0@ == n);
            }
        }
    }

    /// An empty table.
    pub fn new() -> (r: Self)
        ensures
            r@ == Map::<Seq<u8>, Key>::empty(),
            r.entry_seq().len() == 0,
    {
        NameTable { entries: Vec::new() }
    }

    /// How many entries the table holds.
    pub fn num_entries(&self) -> (r: usize)
        ensures
            r == self.entry_seq().len(),
    {
        self.entries.len()
    }

    /// The entry at a position, for walking a snapshot of the table.
    pub fn entry_at(&self, i: usize) -> (r: &(Vec<u8>, Key))
        requires
            i < self.entry_seq().len(),
        ensures
            *r == self.entry_seq()[i as int],
    {
        &self.entries[i]
    }

    /// Whether the table holds the name.
    pub fn contains(&self, n: &Vec<u8>) -> (r: bool)
        ensures
            r == self@.contains_key(n@),
    {
        let mut i: usize = 0;
        while i < self.entries.len()
            invariant
                i <= self.entries@.len(),
                forall|j: int| 0 <= j < i ==> (#[trigger] self.entries@[j]).0@ != n@,
            decreases self.entries@.len() - i,
        {
            if crate::data::bytes_eq(&self.entries[i].0, n) {
                proof {
                    lemma_name_map_of_domain(self.entries@, n@);
                }
                return true;
            }
            i = i + 1;
        }
        proof {
            lemma_name_map_of_domain(self.entries@, n@);
        }
        false
    }

    /// Looks the name up.
    pub fn get(&self, n: &Vec<u8>) -> (r: Option<Key>)
        ensures
            match r {
                Some(k) => self@.contains_key(n@) && k == self@[n@],
                None => !self@.contains_key(n@),
            },
    {
        let mut i: usize = 0;
        while i < self.entries.len()
            invariant
                i <= self.entries@.len(),
                forall|j: int| 0 <= j < i ==> (#[trigger] self.entries@[j]).0@ != n@,
            decreases self.entries@.len() - i,
        {
            if crate::data::bytes_eq(&self.entries[i].0, n) {
                proof {
                    use_type_invariant(self);
                    lemma_name_map_of_value(self.entries@, i as int);
                }
                return Some(self.entries[i].1);
            }
            i = i + 1;
        }
        proof {
            lemma_name_map_of_domain(self.entries@, n@);
        }
        None
    }

    /// Inserts or replaces the identifier under the name.
    pub fn insert(&mut self, n: Vec<u8>, k: Key)
        ensures
            final(self)@ == old(self)@.insert(n@, k),
            final(self).entry_seq().len() <= old(self).entry_seq().len() + 1,
    {
        proof {
            use_type_invariant(&*self);
        }
        let ghost old_entries = self.entries@;
        let mut entries = Vec::new();
        std::mem::swap(&mut entries, &mut self.entries);

        let mut i: usize = 0;
        let num = entries.len();
        while i < num
            invariant
                entries@ == old_entries,
                old_entries == old(self).entries@,
                unique_names(old_entries),
                num == entries@.len(),
                i <= num,
                forall|j: int| 0 <= j < i ==> (#[trigger] entries@[j]).0@ != n@,
            decreases num - i,
        {
            if crate::data::bytes_eq(&entries[i].0, &n) {
                let old_entry = entries.remove(i);
                entries.push((n, k));
                proof {
                    lemma_name_insert_effect(old_entries, entries@, entries@.last().0, k, i as int);
                }
                std::mem::swap(&mut entries, &mut self.entries);
                return ;
            }
            i = i + 1;
        }
        entries.push((n, k));
        proof {
            assert(entries@.drop_last() =~= old_entries);
            assert(unique_names(entries@)) by {
                assert(forall|j: int|
                    0 <= j < old_entries.len() ==> (#[trigger] entries@[j]) == old_entries[j]);
            }
        }
        std::mem::swap(&mut entries, &mut self.entries);
    }
}

/// Replacing the one entry that carried the name and appending the new pair
/// denotes the map with that name updated, and keeps the names unique.
proof fn lemma_name_insert_effect(
    s: Seq<(Vec<u8>, Key)>,
    t: Seq<(Vec<u8>, Key)>,
    n: Vec<u8>,
    k: Key,
    i: int,
)
    requires
        unique_names(s),
        0 <= i < s.len(),
        s[i].0@ == n@,
        t == s.remove(i).push((n, k)),
    ensures
        unique_names(t),
        name_map_of(t) == name_map_of(s).insert(n@, k),
{
    assert(forall|j: int| 0 <= j < i ==> (#[trigger] t[j]) == s[j]);
    assert(forall|j: int| i <= j < s.len() - 1 ==> (#[trigger] t[j]) == s[j + 1]);
    assert(t.len() == s.len());
    assert(t.last() == (n, k));
    assert(unique_names(t)) by {
        assert forall|x: int, y: int| 0 <= x < y < t.len() implies (#[trigger] t[x]).0@
            != (#[trigger] t[y]).0@ by {
            if y < t.len() - 1 {
                let sx: int = if x < i { x } else { x + 1 };
                let sy: int = if y < i { y } else { y + 1 };
                assert(t[x] == s[sx]);
                assert(t[y] == s[sy]);
            } else {
                let sx: int = if x < i { x } else { x + 1 };
                assert(t[x] == s[sx]);
                assert(sx != i);
            }
        }
    }
    assert forall|q: Seq<u8>| #[trigger] name_map_of(t).contains_key(q) || name_map_of(s).insert(
        n@,
        k,
    ).contains_key(q) implies name_map_of(t).contains_key(q) == name_map_of(s).insert(
        n@,
        k,
    ).contains_key(q) && (name_map_of(t).contains_key(q) ==> name_map_of(t)[q] == name_map_of(
        s,
    ).insert(n@, k)[q]) by {
        lemma_name_map_of_domain(t, q);
        lemma_name_map_of_domain(s, q);
        if q == n@ {
            lemma_name_map_of_value(t, t.len() - 1);
        } else {
            if name_map_of(t).contains_key(q) {
                let j = choose|j: int| 0 <= j < t.len() && (#[trigger] t[j]).0@ == q;
                assert(j < t.len() - 1);
                let sj: int = if j < i { j } else { j + 1 };
                assert(t[j] == s[sj]);
                lemma_name_map_of_value(t, j);
                lemma_name_map_of_value(s, sj);
            }
            if name_map_of(s).contains_key(q) {
                let j = choose|j: int| 0 <= j < s.len() && (#[trigger] s[j]).0@ == q;
                assert(j != i);
                let tj: int = if j < i { j } else { j - 1 };
                assert(t[tj] == s[j]);
                lemma_name_map_of_value(t, tj);
                lemma_name_map_of_value(s, j);
            }
        }
    }
    assert(name_map_of(t) =~= name_map_of(s).insert(n@, k));
}

} // verus!
