//! The attributes of an element: an ordered mapping from names to values.

use vstd::prelude::*;
use crate::chars::str_eq;

verus! {

/// One attribute, as its name and its value.
pub type Entry = (Seq<char>, Seq<char>);

/// The value that `entries` gives to `name`: that of the first entry of that name.
pub open spec fn lookup(entries: Seq<Entry>, name: Seq<char>) -> Option<Seq<char>>
    decreases entries.len(),
{
    if entries.len() == 0 {
        None
    } else if entries[0].0 == name {
        Some(entries[0].1)
    } else {
        lookup(entries.drop_first(), name)
    }
}

/// No two entries have the same name.
pub open spec fn distinct_names(entries: Seq<Entry>) -> bool {
    forall|i: int, j: int|
        0 <= i < j < entries.len() ==> (#[trigger] entries[i]).0 != (#[trigger] entries[j]).0
}

/// The position of the first entry called `name`; the length of `entries` where there is none.
pub open spec fn first_position(entries: Seq<Entry>, name: Seq<char>) -> int
    decreases entries.len(),
{
    if entries.len() == 0 {
        0
    } else if entries[0].0 == name {
        0
    } else {
        1 + first_position(entries.drop_first(), name)
    }
}

/// `entries` with `name` set to `value`: the first entry of that name takes the value and keeps
/// its place; where there is none, a new entry comes last.
pub open spec fn assign(entries: Seq<Entry>, name: Seq<char>, value: Seq<char>) -> Seq<Entry> {
    let i = first_position(entries, name);
    if i < entries.len() {
        entries.update(i, (name, value))
    } else {
        entries.push((name, value))
    }
}

/// A name and its value.
#[derive(Clone, Debug, PartialEq, Eq)]
pub struct Attribute {
    pub name: String,
    pub value: String,
}

impl View for Attribute {
    type V = Entry;

    open spec fn view(&self) -> Entry {
        (self.name@, self.value@)
    }
}

/// The attributes of one element, in the order in which they were first set. Each name occurs
/// at most once.
#[derive(Debug, PartialEq, Eq)]
pub struct Attributes {
    entries: Vec<Attribute>,
}

impl View for Attributes {
    type V = Seq<Entry>;

    closed spec fn view(&self) -> Seq<Entry> {
        self.entries@.map_values(|a: Attribute| a@)
    }
}

impl Attributes {
    #[verifier::type_invariant]
    spec fn names_are_distinct(self) -> bool {
        forall|i: int, j: int|
            0 <= i < j < self.entries@.len() ==> (#[trigger] self.entries@[i]).name@
                != (#[trigger] self.entries@[j]).name@
    }

    /// No attributes.
    pub fn new() -> (r: Attributes)
        ensures
            r@ == Seq::<Entry>::empty(),
    {
        let r = Attributes { entries: Vec::new() };
        r
    }

    /// The number of attributes.
    pub fn len(&self) -> (n: usize)
        ensures
            n == self@.len(),
            distinct_names(self@),
    {
        proof {
            use_type_invariant(self);
        }
        self.entries.len()
    }

    /// The attribute at position `i`.
    pub fn entry(&self, i: usize) -> (r: &Attribute)
        requires
            i < self@.len(),
        ensures
            r@ == self@[i as int],
    {
        &self.entries[i]
    }

    /// The position of the attribute called `name`, if there is one.
    fn position(&self, name: &str) -> (r: Option<usize>)
        ensures
            match r {
                Some(i) => i < self@.len() && self@[i as int].0 == name@ && forall|k: int|
                    0 <= k < self@.len() && k != i ==> (#[trigger] self@[k]).0 != name@,
                None => forall|k: int| 0 <= k < self@.len() ==> (#[trigger] self@[k]).0 != name@,
            },
    {
        proof {
            use_type_invariant(self);
        }
        let mut i: usize = 0;
        while i < self.entries.len()
            invariant
                i <= self.entries.len(),
                self@.len() == self.entries.len(),
                distinct_names(self@),
                forall|k: int| 0 <= k < i ==> (#[trigger] self@[k]).0 != name@,
            decreases self.entries.len() - i,
        {
            if str_eq(self.entries[i].name.as_str(), name) {
                return Some(i);
            }
            i += 1;
        }
        None
    }

    /// The value of the attribute called `name`, if there is one.
    pub fn get(&self, name: &str) -> (r: Option<&str>)
        ensures
            match r {
                Some(v) => lookup(self@, name@) == Some(v@),
                None => lookup(self@, name@).is_none(),
            },
            distinct_names(self@),
    {
        proof {
            use_type_invariant(self);
        }
        match self.position(name) {
            Some(i) => {
                proof {
                    lemma_lookup_at(self@, name@, i as int);
                }
                Some(self.entries[i].value.as_str())
            },
            None => {
                proof {
                    lemma_lookup_absent(self@, name@);
                }
                None
            },
        }
    }

    /// Gives `name` the value `value`: in place where `name` is there already, as a new last
    /// attribute where it is not.
    pub fn set(&mut self, name: &str, value: &str)
        ensures
            final(self)@ == assign(old(self)@, name@, value@),
            distinct_names(final(self)@),
    {
        let entry = Attribute { name: String::from_str(name), value: String::from_str(value) };
        let ghost before = self@;
        proof {
            use_type_invariant(&*self);
        }
        let found = self.position(name);
        let mut entries: Vec<Attribute> = Vec::new();
        core::mem::swap(&mut self.entries, &mut entries);
        match found {
            Some(i) => {
                proof {
                    lemma_lookup_at(before, name@, i as int);
                }
                entries.set(i, entry);
            },
            None => {
                proof {
                    lemma_lookup_absent(before, name@);
                }
                entries.push(entry);
            },
        }
        proof {
            lemma_assign_distinct(before, name@, value@);
            assert forall|i: int, j: int| 0 <= i < j < entries@.len() implies (
            #[trigger] entries@[i]).name@ != (#[trigger] entries@[j]).name@ by {
                assert(entries@[i]@.0 == assign(before, name@, value@)[i].0);
            }
        }
        self.entries = entries;
    }
}

impl Clone for Attributes {
    fn clone(&self) -> (r: Self)
        ensures
            r@ == self@,
    {
        proof {
            use_type_invariant(self);
        }
        let mut entries: Vec<Attribute> = Vec::new();
        let mut i: usize = 0;
        while i < self.entries.len()
            invariant
                i <= self.entries.len(),
                entries@.len() == i,
                forall|k: int| 0 <= k < i ==> (#[trigger] entries@[k])@ == self.entries@[k]@,
            decreases self.entries.len() - i,
        {
            let e = &self.entries[i];
            entries.push(Attribute { name: e.name.clone(), value: e.value.clone() });
            i += 1;
        }
        let r = Attributes { entries };
        r
    }
}

/// Where `name` first occurs at position `i`, its value is that of entry `i`.
pub proof fn lemma_lookup_at(entries: Seq<Entry>, name: Seq<char>, i: int)
    requires
        0 <= i < entries.len(),
        entries[i].0 == name,
        forall|k: int| 0 <= k < i ==> (#[trigger] entries[k]).0 != name,
    ensures
        lookup(entries, name) == Some(entries[i].1),
        first_position(entries, name) == i,
    decreases entries.len(),
{
    if i > 0 {
        lemma_lookup_at(entries.drop_first(), name, i - 1);
    }
}

/// Where no entry is called `name`, it has no value.
pub proof fn lemma_lookup_absent(entries: Seq<Entry>, name: Seq<char>)
    requires
        forall|k: int| 0 <= k < entries.len() ==> (#[trigger] entries[k]).0 != name,
    ensures
        lookup(entries, name).is_none(),
        first_position(entries, name) == entries.len(),
    decreases entries.len(),
{
    if entries.len() > 0 {
        lemma_lookup_absent(entries.drop_first(), name);
    }
}

/// After `name` is set to `value`, that is its value, and every other name has the value it
/// had.
pub proof fn lemma_assign_lookup(
    entries: Seq<Entry>,
    name: Seq<char>,
    value: Seq<char>,
    other: Seq<char>,
)
    ensures
        lookup(assign(entries, name, value), other) == if other == name {
            Some(value)
        } else {
            lookup(entries, other)
        },
    decreases entries.len(),
{
    let after = assign(entries, name, value);
    if entries.len() == 0 {
        assert(after.drop_first() =~= entries);
    } else if entries[0].0 == name {
        assert(after.drop_first() =~= entries.drop_first());
    } else {
        let rest = entries.drop_first();
        lemma_first_position(rest, name);
        assert(after.drop_first() =~= assign(rest, name, value));
        lemma_assign_lookup(rest, name, value, other);
    }
}

/// Setting a name keeps the names distinct.
pub proof fn lemma_assign_distinct(entries: Seq<Entry>, name: Seq<char>, value: Seq<char>)
    requires
        distinct_names(entries),
    ensures
        distinct_names(assign(entries, name, value)),
{
    lemma_first_position(entries, name);
}

/// The first position of `name` is in range exactly when some entry is called `name`, and is
/// then the first such entry.
pub proof fn lemma_first_position(entries: Seq<Entry>, name: Seq<char>)
    ensures
        0 <= first_position(entries, name) <= entries.len(),
        first_position(entries, name) < entries.len() ==> entries[first_position(
            entries,
            name,
        )].0 == name,
        forall|k: int| 0 <= k < first_position(entries, name) ==> (#[trigger] entries[k]).0 != name,
    decreases entries.len(),
{
    if entries.len() > 0 && entries[0].0 != name {
        let rest = entries.drop_first();
        lemma_first_position(rest, name);
        assert forall|k: int| 0 <= k < first_position(entries, name) implies (
        #[trigger] entries[k]).0 != name by {
            if k > 0 {
                assert(entries[k] == rest[k - 1]);
            }
        }
    }
}

} // verus!
