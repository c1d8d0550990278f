use vstd::prelude::*;

verus! {

/// The value bound to `key` in an association list where later entries
/// shadow earlier ones.
pub open spec fn assoc<V>(entries: Seq<(String, V)>, key: Seq<char>) -> Option<V>
    decreases entries.len(),
{
    if entries.len() == 0 {
        None
    } else if entries.last().0@ == key {
        Some(entries.last().1)
    } else {
        assoc(entries.drop_last(), key)
    }
}

/// Entries at or after `i` do not mention `key`, so they leave the binding alone.
pub proof fn lemma_assoc_prefix<V>(entries: Seq<(String, V)>, key: Seq<char>, i: int)
    requires
        0 <= i <= entries.len(),
        forall|j: int| i <= j < entries.len() ==> entries[j].0@ != key,
    ensures
        assoc(entries, key) == assoc(entries.take(i), key),
    decreases entries.len() - i,
{
    if i < entries.len() {
        assert(entries.drop_last() =~= entries.take(entries.len() - 1));
        lemma_assoc_prefix(entries.drop_last(), key, i);
        assert(entries.drop_last().take(i) =~= entries.take(i));
    } else {
        assert(entries.take(i) =~= entries);
    }
}

/// The binding found at position `i`, the last entry that mentions `key`.
pub proof fn lemma_assoc_at<V>(entries: Seq<(String, V)>, key: Seq<char>, i: int)
    requires
        0 <= i < entries.len(),
        entries[i].0@ == key,
        forall|j: int| i < j < entries.len() ==> entries[j].0@ != key,
    ensures
        assoc(entries, key) == Some(entries[i].1),
{
    lemma_assoc_prefix(entries, key, i + 1);
    let t = entries.take(i + 1);
    assert(t.last() == entries[i]);
}

/// `assoc` finds a binding exactly when some entry mentions the key.
pub proof fn lemma_assoc_some<V>(entries: Seq<(String, V)>, key: Seq<char>)
    ensures
        assoc(entries, key) is Some <==> exists|j: int| 0 <= j < entries.len() && entries[j].0@ == key,
    decreases entries.len(),
{
    if entries.len() > 0 {
        lemma_assoc_some(entries.drop_last(), key);
        if entries.last().0@ != key {
            assert forall|j: int| 0 <= j < entries.len() && entries[j].0@ == key implies
                0 <= j < entries.len() - 1 && entries.drop_last()[j].0@ == key by {}
            assert forall|j: int| 0 <= j < entries.len() - 1 && entries.drop_last()[j].0@ == key implies
                entries[j].0@ == key by {}
        } else {
            assert(entries[entries.len() - 1].0@ == key);
        }
    }
}


/// Looking a key up in `a ++ b` finds it in `b` first.
pub proof fn lemma_assoc_concat<V>(a: Seq<(String, V)>, b: Seq<(String, V)>, key: Seq<char>)
    ensures
        assoc(a + b, key) == (match assoc(b, key) {
            Some(v) => Some(v),
            None => assoc(a, key),
        }),
    decreases b.len(),
{
    if b.len() == 0 {
        assert(a + b =~= a);
    } else {
        assert((a + b).drop_last() =~= a + b.drop_last());
        assert((a + b).last() == b.last());
        lemma_assoc_concat(a, b.drop_last(), key);
    }
}

impl Table<i32> {
    /// A table that holds the bindings of `inner` on top of those of `outer`.
    pub fn layered(outer: &Table<i32>, inner: &Table<i32>) -> (t: Table<i32>)
        ensures
            t.entries@ == outer.entries@ + inner.entries@,
    {
        let mut entries: Vec<(String, i32)> = Vec::new();
        let mut i: usize = 0;
        while i < outer.entries.len()
            invariant
                i <= outer.entries@.len(),
                entries@ == outer.entries@.take(i as int),
            decreases outer.entries.len() - i,
        {
            let e = (outer.entries[i].0.clone(), outer.entries[i].1);
            entries.push(e);
            proof {
                assert(outer.entries@.take(i + 1) =~= outer.entries@.take(i as int).push(outer.entries@[i as int]));
            }
            i = i + 1;
        }
        let mut j: usize = 0;
        while j < inner.entries.len()
            invariant
                i == outer.entries@.len(),
                j <= inner.entries@.len(),
                entries@ == outer.entries@ + inner.entries@.take(j as int),
            decreases inner.entries.len() - j,
        {
            let e = (inner.entries[j].0.clone(), inner.entries[j].1);
            entries.push(e);
            proof {
                assert(inner.entries@.take(j + 1) =~= inner.entries@.take(j as int).push(inner.entries@[j as int]));
                assert(outer.entries@ + inner.entries@.take(j + 1) =~= (outer.entries@ + inner.entries@.take(j as int)).push(inner.entries@[j as int]));
            }
            j = j + 1;
        }
        proof {
            assert(outer.entries@.take(i as int) =~= outer.entries@);
            assert(inner.entries@.take(j as int) =~= inner.entries@);
        }
        Table { entries }
    }
}

/// A list of names without repetitions, all drawn from `keys`, is no longer than `keys`.
pub proof fn lemma_distinct_names_bounded(names: Seq<Seq<char>>, keys: Seq<Seq<char>>)
    requires
        names.no_duplicates(),
        forall|i: int| 0 <= i < names.len() ==> keys.contains(#[trigger] names[i]),
    ensures
        names.len() <= keys.len(),
{
    broadcast use vstd::seq_lib::group_seq_properties;
    names.unique_seq_to_set();
    keys.lemma_cardinality_of_set();
    assert(names.to_set().subset_of(keys.to_set())) by {
        assert forall|x: Seq<char>| names.to_set().contains(x) implies keys.to_set().contains(x) by {
            let i = choose|i: int| 0 <= i < names.len() && names[i] == x;
        }
    }
    vstd::set_lib::lemma_len_subset(names.to_set(), keys.to_set());
}

/// The names an association list binds.
pub open spec fn keys_of<V>(entries: Seq<(String, V)>) -> Seq<Seq<char>> {
    Seq::new(entries.len(), |i: int| entries[i].0@)
}

/// A symbol table from names to values; a later binding of a name replaces
/// an earlier one, as an `insert` into a hash map does.
#[derive(Debug)]
pub struct Table<V> {
    pub entries: Vec<(String, V)>,
}

impl<V> Table<V> {
    /// The value the table holds for `key`.
    pub open spec fn get_spec(&self, key: Seq<char>) -> Option<V> {
        assoc(self.entries@, key)
    }

    pub fn new() -> (t: Self)
        ensures
            t.entries@.len() == 0,
            forall|k: Seq<char>| t.get_spec(k) is None,
    {
        Table { entries: Vec::new() }
    }

    /// Binds `key` to `value`.
    pub fn insert(&mut self, key: String, value: V)
        ensures
            final(self).entries@ == old(self).entries@.push((key, value)),
            final(self).get_spec(key@) == Some(value),
            forall|k: Seq<char>| k != key@ ==> final(self).get_spec(k) == old(self).get_spec(k),
    {
        self.entries.push((key, value));
        proof {
            assert(self.entries@.drop_last() =~= old(self).entries@);
        }
    }

    /// The position of the entry that holds the binding of `key`, if any.
    pub fn find(&self, key: &str) -> (r: Option<usize>)
        ensures
            match r {
                Some(i) => i < self.entries@.len() && self.entries@[i as int].0@ == key@
                    && self.get_spec(key@) == Some(self.entries@[i as int].1),
                None => self.get_spec(key@) is None,
            },
    {
        let mut i = self.entries.len();
        while i > 0
            invariant
                i <= self.entries@.len(),
                forall|j: int| i <= j < self.entries@.len() ==> self.entries@[j].0@ != key@,
            decreases i,
        {
            if str_eq(self.entries[i - 1].0.as_str(), key) {
                proof {
                    lemma_assoc_at(self.entries@, key@, i - 1);
                }
                return Some(i - 1);
            }
            i = i - 1;
        }
        proof {
            lemma_assoc_some(self.entries@, key@);
        }
        None
    }

    /// The value bound to `key`.
    pub fn get(&self, key: &str) -> (r: Option<&V>)
        ensures
            match r {
                Some(v) => self.get_spec(key@) == Some(*v),
                None => self.get_spec(key@) is None,
            },
    {
        match self.find(key) {
            Some(i) => Some(&self.entries[i].1),
            None => None,
        }
    }

    /// Whether `key` is bound.
    pub fn contains_key(&self, key: &str) -> (b: bool)
        ensures
            b == self.get_spec(key@) is Some,
    {
        self.find(key).is_some()
    }
}

/// Character-wise equality of two strings.
pub fn str_eq(a: &str, b: &str) -> (r: bool)
    ensures
        r == (a@ == b@),
{
    let n = a.unicode_len();
    let m = b.unicode_len();
    if n != m {
        return false;
    }
    let mut i: usize = 0;
    while i < n
        invariant
            n == a@.len(),
            m == b@.len(),
            n == m,
            i <= n,
            forall|j: int| 0 <= j < i ==> a@[j] == b@[j],
        decreases n - i,
    {
        if a.get_char(i) != b.get_char(i) {
            return false;
        }
        i = i + 1;
    }
    proof {
        assert(a@ =~= b@);
    }
    true
}

/// Membership of a name in a list of names.
pub open spec fn has_name(names: Seq<String>, name: Seq<char>) -> bool {
    exists|i: int| 0 <= i < names.len() && names[i]@ == name
}

/// Whether `names` holds a string equal to `name`.
pub fn contains_name(names: &Vec<String>, name: &str) -> (b: bool)
    ensures
        b == has_name(names@, name@),
{
    let mut i: usize = 0;
    while i < names.len()
        invariant
            i <= names@.len(),
            forall|j: int| 0 <= j < i ==> names@[j]@ != name@,
        decreases names.len() - i,
    {
        if str_eq(names[i].as_str(), name) {
            return true;
        }
        i = i + 1;
    }
    false
}

/// A set of names, kept without repetitions in the order of first insertion.
#[derive(Debug)]
pub struct NameSet {
    pub names: Vec<String>,
}

impl NameSet {
    /// The names as a mathematical set.
    pub open spec fn view_set(&self) -> Set<Seq<char>> {
        Set::new(|k: Seq<char>| has_name(self.names@, k))
    }

    pub open spec fn wf(&self) -> bool {
        forall|i: int, j: int|
            0 <= i < self.names@.len() && 0 <= j < self.names@.len() && i != j
                ==> self.names@[i]@ != self.names@[j]@
    }

    pub fn new() -> (s: Self)
        ensures
            s.wf(),
            s.view_set() == Set::<Seq<char>>::empty(),
            s.names@.len() == 0,
    {
        let s = NameSet { names: Vec::new() };
        proof {
            assert(s.view_set() =~= Set::<Seq<char>>::empty());
        }
        s
    }

    pub fn contains(&self, name: &str) -> (b: bool)
        ensures
            b == self.view_set().contains(name@),
    {
        contains_name(&self.names, name)
    }

    /// Adds `name`; answers whether it was new.
    pub fn insert(&mut self, name: String) -> (added: bool)
        requires
            old(self).wf(),
        ensures
            final(self).wf(),
            final(self).view_set() == old(self).view_set().insert(name@),
            added == !old(self).view_set().contains(name@),
            final(self).names@ == (if added { old(self).names@.push(name) } else { old(self).names@ }),
    {
        if contains_name(&self.names, name.as_str()) {
            proof {
                assert(self.view_set() =~= old(self).view_set().insert(name@));
            }
            false
        } else {
            let ghost nv = name@;
            self.names.push(name);
            proof {
                assert(self.names@[self.names@.len() - 1]@ == nv);
                assert forall|k: Seq<char>| self.view_set().contains(k) <==> old(self).view_set().insert(nv).contains(k) by {
                    if has_name(old(self).names@, k) {
                        let i = choose|i: int| 0 <= i < old(self).names@.len() && old(self).names@[i]@ == k;
                        assert(self.names@[i]@ == k);
                    }
                    if has_name(self.names@, k) && k != nv {
                        let i = choose|i: int| 0 <= i < self.names@.len() && self.names@[i]@ == k;
                        assert(i < old(self).names@.len());
                        assert(old(self).names@[i]@ == k);
                    }
                }
                assert(self.view_set() =~= old(self).view_set().insert(nv));
            }
            true
        }
    }
}

} // verus!
