//! Ordered name/value collections with unique names: the property sets of
//! templates and of entities.

use vstd::prelude::*;

verus! {

/// The mathematical form of a property collection: its (name, value) pairs in
/// the order in which the names were first set.
pub type Entries = Seq<(Seq<char>, Seq<char>)>;

/// Some pair of `s` carries the name `key`.
pub open spec fn has_key(s: Entries, key: Seq<char>) -> bool {
    exists|i: int| 0 <= i < s.len() && (#[trigger] s[i]).0 == key
}

/// A position at which `s` carries `key`; the only one where the names of `s`
/// are unique.
pub open spec fn index_of(s: Entries, key: Seq<char>) -> int {
    choose|i: int| 0 <= i < s.len() && (#[trigger] s[i]).0 == key
}

/// The value that `s` gives to `key`, if any.
pub open spec fn lookup(s: Entries, key: Seq<char>) -> Option<Seq<char>> {
    if has_key(s, key) {
        Some(s[index_of(s, key)].1)
    } else {
        None
    }
}

/// No name occurs twice in `s`.
pub open spec fn unique_keys(s: Entries) -> bool {
    forall|i: int, j: int|
        0 <= i < j < s.len() ==> (#[trigger] s[i]).0 != (#[trigger] s[j]).0
}

/// `s` with `key` set to `value`: an existing pair keeps its place and takes
/// the new value, a new name goes to the end.
pub open spec fn put(s: Entries, key: Seq<char>, value: Seq<char>) -> Entries {
    if has_key(s, key) {
        s.update(index_of(s, key), (key, value))
    } else {
        s.push((key, value))
    }
}

/// `s` after setting every pair of `more`, first to last.
pub open spec fn put_all(s: Entries, more: Entries) -> Entries
    decreases more.len(),
{
    if more.len() == 0 {
        s
    } else {
        put(put_all(s, more.drop_last()), more.last().0, more.last().1)
    }
}

/// Where names are unique, a position that carries `key` is the position of
/// `key`.
pub proof fn lemma_index_of(s: Entries, key: Seq<char>, i: int)
    requires
        unique_keys(s),
        0 <= i < s.len(),
        s[i].0 == key,
    ensures
        has_key(s, key),
        index_of(s, key) == i,
        lookup(s, key) == Some(s[i].1),
{
    let j = index_of(s, key);
    assert(0 <= j < s.len() && s[j].0 == key);
    if j < i {
        assert(s[j].0 != s[i].0);
    } else if i < j {
        assert(s[i].0 != s[j].0);
    }
}

/// What `put` does to a collection with unique names: the names stay unique,
/// `key` now has `value`, every other name has what it had.
pub proof fn lemma_put(s: Entries, key: Seq<char>, value: Seq<char>)
    requires
        unique_keys(s),
    ensures
        unique_keys(put(s, key, value)),
        lookup(put(s, key, value), key) == Some(value),
        forall|other: Seq<char>|
            other != key ==> lookup(put(s, key, value), other) == lookup(s, other),
        forall|other: Seq<char>|
            has_key(put(s, key, value), other) <==> (other == key || has_key(s, other)),
{
    let t = put(s, key, value);
    if has_key(s, key) {
        let at = index_of(s, key);
        assert(t.len() == s.len());
        assert forall|i: int| 0 <= i < t.len() implies (#[trigger] t[i]).0 == s[i].0 by {}
        assert(unique_keys(t)) by {
            assert forall|i: int, j: int| 0 <= i < j < t.len() implies (#[trigger] t[i]).0 != (
            #[trigger] t[j]).0 by {
                assert(s[i].0 != s[j].0);
            }
        }
        lemma_index_of(t, key, at);
        assert forall|other: Seq<char>| has_key(t, other) <==> (other == key || has_key(
            s,
            other,
        )) by {
            if has_key(t, other) {
                let i = index_of(t, other);
                assert(s[i].0 == other);
            }
            if has_key(s, other) {
                let i = index_of(s, other);
                assert(t[i].0 == other);
            }
        }
        assert forall|other: Seq<char>| other != key implies lookup(t, other) == lookup(
            s,
            other,
        ) by {
            if has_key(s, other) {
                let i = index_of(s, other);
                assert(t[i].0 == other);
                lemma_index_of(t, other, i);
                lemma_index_of(s, other, i);
            }
        }
    } else {
        let at = s.len() as int;
        assert(t.len() == s.len() + 1);
        assert(t[at] == (key, value));
        assert forall|i: int| 0 <= i < s.len() implies (#[trigger] t[i]) == s[i] by {}
        assert(unique_keys(t)) by {
            assert forall|i: int, j: int| 0 <= i < j < t.len() implies (#[trigger] t[i]).0 != (
            #[trigger] t[j]).0 by {
                if j < s.len() {
                    assert(s[i].0 != s[j].0);
                } else {
                    assert(s[i].0 != key);
                }
            }
        }
        lemma_index_of(t, key, at);
        assert forall|other: Seq<char>| has_key(t, other) <==> (other == key || has_key(
            s,
            other,
        )) by {
            if has_key(t, other) {
                let i = index_of(t, other);
                if i < s.len() {
                    assert(s[i].0 == other);
                }
            }
            if has_key(s, other) {
                let i = index_of(s, other);
                assert(t[i].0 == other);
            }
        }
        assert forall|other: Seq<char>| other != key implies lookup(t, other) == lookup(
            s,
            other,
        ) by {
            if has_key(s, other) {
                let i = index_of(s, other);
                assert(t[i].0 == other);
                lemma_index_of(t, other, i);
                lemma_index_of(s, other, i);
            }
        }
    }
}

/// Setting pairs one after another keeps the names unique.
pub proof fn lemma_put_all_unique(s: Entries, more: Entries)
    requires
        unique_keys(s),
    ensures
        unique_keys(put_all(s, more)),
    decreases more.len(),
{
    if more.len() > 0 {
        lemma_put_all_unique(s, more.drop_last());
        lemma_put(put_all(s, more.drop_last()), more.last().0, more.last().1);
    }
}

/// One property: a name and the text of its value, which this library never
/// interprets.
#[derive(Debug)]
pub struct Property {
    pub name: String,
    pub value: String,
}

impl View for Property {
    type V = (Seq<char>, Seq<char>);

    open spec fn view(&self) -> (Seq<char>, Seq<char>) {
        (self.name@, self.value@)
    }
}

/// A mapping from property names to values that remembers the order in which
/// the names were first set. No name occurs twice.
#[derive(Debug)]
pub struct Properties {
    entries: Vec<Property>,
}

impl View for Properties {
    type V = Entries;

    closed spec fn view(&self) -> Entries {
        self.entries@.map_values(|p: Property| p@)
    }
}

impl Properties {
    #[verifier::type_invariant]
    closed spec fn names_are_unique(self) -> bool {
        unique_keys(self@)
    }

    /// The empty collection.
    pub fn new() -> (r: Properties)
        ensures
            r@ == Seq::<(Seq<char>, Seq<char>)>::empty(),
    {
        let r = Properties { entries: Vec::new() };
        assert(r@ =~= Seq::<(Seq<char>, Seq<char>)>::empty());
        r
    }

    /// The number of properties; their names are distinct.
    pub fn len(&self) -> (n: usize)
        ensures
            n == self@.len(),
            unique_keys(self@),
    {
        proof {
            use_type_invariant(self);
        }
        self.entries.len()
    }

    /// The property at position `i`, in the order in which names were first set.
    pub fn entry(&self, i: usize) -> (p: &Property)
        requires
            i < self@.len(),
        ensures
            p@ == self@[i as int],
    {
        &self.entries[i]
    }

    /// The position of `name`, if it is set.
    pub fn position(&self, name: &str) -> (r: Option<usize>)
        ensures
            r is Some == has_key(self@, name@),
            r matches Some(i) ==> i == index_of(self@, name@) && i < self@.len(),
    {
        proof {
            use_type_invariant(self);
        }
        let mut i: usize = 0;
        while i < self.entries.len()
            invariant
                i <= self.entries.len(),
                unique_keys(self@),
                forall|j: int| 0 <= j < i ==> (#[trigger] self@[j]).0 != name@,
            decreases self.entries.len() - i,
        {
            if self.entries[i].name.as_str().eq(name) {
                proof {
                    lemma_index_of(self@, name@, i as int);
                }
                return Some(i);
            }
            i = i + 1;
        }
        None
    }

    /// Whether `name` is set.
    pub fn contains(&self, name: &str) -> (b: bool)
        ensures
            b == has_key(self@, name@),
    {
        self.position(name).is_some()
    }

    /// The value of `name`, if it is set.
    pub fn get(&self, name: &str) -> (r: Option<&String>)
        ensures
            r is Some == has_key(self@, name@),
            r matches Some(v) ==> lookup(self@, name@) == Some(v@),
            r is None ==> lookup(self@, name@) is None,
    {
        match self.position(name) {
            Some(i) => Some(&self.entries[i].value),
            None => None,
        }
    }

    /// Sets `name` to `value`: a name that was set keeps its place and takes
    /// the new value, a new name goes to the end.
    pub fn set(&mut self, name: String, value: String)
        ensures
            final(self)@ == put(old(self)@, name@, value@),
    {
        proof {
            use_type_invariant(&*self);
            lemma_put(self@, name@, value@);
        }
        let found = self.position(name.as_str());
        let mut entries: Vec<Property> = Vec::new();
        core::mem::swap(&mut self.entries, &mut entries);
        match found {
            Some(i) => {
                entries.set(i, Property { name, value });
            },
            None => {
                entries.push(Property { name, value });
            },
        }
        assert(entries@.map_values(|p: Property| p@) =~= put(old(self)@, name@, value@));
        self.entries = entries;
    }

    /// Sets every property of `other`, first to last.
    pub fn extend(&mut self, other: &Properties)
        ensures
            final(self)@ == put_all(old(self)@, other@),
    {
        let mut i: usize = 0;
        while i < other.len()
            invariant
                i <= other@.len(),
                self@ == put_all(old(self)@, other@.take(i as int)),
            decreases other@.len() - i,
        {
            proof {
                assert(other@.take(i + 1).drop_last() =~= other@.take(i as int));
            }
            let p = other.entry(i);
            self.set(p.name.clone(), p.value.clone());
            i = i + 1;
        }
        assert(other@.take(i as int) =~= other@);
    }
}

} // verus!
