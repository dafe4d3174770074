//! The values given to the variables of a formula.

use vstd::prelude::*;
use crate::value::Operand;

verus! {

/// The value bound to `name` in a list of named values: that of the first
/// entry under that name.
pub open spec fn lookup<V>(entries: Seq<(char, V)>, name: char) -> Option<V>
    decreases entries.len(),
{
    if entries.len() == 0 {
        None
    } else if entries[0].0 == name {
        Some(entries[0].1)
    } else {
        lookup(entries.drop_first(), name)
    }
}

/// The values of a list of named values, in the order of the list.
pub open spec fn values_of<V>(entries: Seq<(char, V)>) -> Seq<V> {
    Seq::new(entries.len(), |i: int| entries[i].1)
}

/// Whether no name occurs twice in a list of named values.
pub open spec fn distinct_names<V>(entries: Seq<(char, V)>) -> bool {
    forall|i: int, j: int| 0 <= i < j < entries.len() ==> entries[i].0 != entries[j].0
}

/// Whether `after` is `before` with the value of the entry under `name`
/// replaced by `value`.
pub open spec fn replaced<V>(before: Seq<(char, V)>, after: Seq<(char, V)>, name: char, value: V) -> bool {
    exists|at: int| 0 <= at < before.len() && before[at].0 == name && after == #[trigger] before.update(
        at,
        (name, value),
    )
}

/// Named values, each name bound once, kept in the order in which the names
/// were first bound.
pub struct Bindings<T> {
    entries: Vec<(char, T)>,
}

impl<T: View> View for Bindings<T> {
    type V = Seq<(char, T::V)>;

    closed spec fn view(&self) -> Seq<(char, T::V)> {
        Seq::new(self.entries@.len(), |i: int| (self.entries@[i].0, self.entries@[i].1@))
    }
}

impl<T: Operand> Bindings<T> {
    /// Whether no name is bound twice. Every function here keeps it so.
    pub open spec fn wf(&self) -> bool {
        distinct_names(self@)
    }

    /// No bindings.
    pub fn new() -> (bindings: Bindings<T>)
        ensures
            bindings@ == Seq::<(char, T::V)>::empty(),
            bindings.wf(),
    {
        Bindings { entries: Vec::new() }
    }

    /// The number of names bound.
    pub fn len(&self) -> (n: usize)
        ensures
            n == self@.len(),
    {
        self.entries.len()
    }

    fn position(&self, name: char) -> (at: Option<usize>)
        ensures
            match at {
                Some(i) => i < self@.len() && self@[i as int].0 == name && lookup(self@, name) == Some(
                    self@[i as int].1,
                ) && forall|j: int| 0 <= j < i ==> self@[j].0 != name,
                None => lookup(self@, name) is None && forall|j: int|
                    0 <= j < self@.len() ==> self@[j].0 != name,
            },
    {
        let mut i: usize = 0;
        assert(self@.skip(0) == self@);
        while i < self.entries.len()
            invariant
                i <= self.entries.len(),
                self@.len() == self.entries@.len(),
                lookup(self@, name) == lookup(self@.skip(i as int), name),
                forall|j: int| 0 <= j < i ==> self@[j].0 != name,
            decreases self.entries.len() - i,
        {
            proof {
                assert(self@.skip(i as int)[0] == self@[i as int]);
                assert(self@.skip(i as int).drop_first() == self@.skip(i + 1));
            }
            if self.entries[i].0 == name {
                return Some(i);
            }
            i += 1;
        }
        assert(self@.skip(i as int).len() == 0);
        None
    }

    /// The value bound to `name`, if any.
    pub fn get(&self, name: char) -> (value: Option<&T>)
        ensures
            match value {
                Some(v) => lookup(self@, name) == Some(v@),
                None => lookup(self@, name) is None,
            },
    {
        match self.position(name) {
            Some(i) => Some(&self.entries[i].1),
            None => None,
        }
    }

    /// Whether `name` is bound.
    pub fn contains(&self, name: char) -> (bound: bool)
        ensures
            bound == lookup(self@, name).is_some(),
    {
        self.position(name).is_some()
    }

    /// Binds `name` to `value`. A name bound before keeps its place and
    /// takes the new value; a new name goes to the end.
    pub fn insert(&mut self, name: char, value: T)
        requires
            old(self).wf(),
        ensures
            final(self).wf(),
            lookup(final(self)@, name) == Some(value@),
            forall|other: char| other != name ==> lookup(final(self)@, other) == lookup(old(self)@, other),
            lookup(old(self)@, name) is Some ==> replaced(old(self)@, final(self)@, name, value@),
            lookup(old(self)@, name) is None ==> final(self)@ == old(self)@.push((name, value@)),
    {
        match self.position(name) {
            Some(i) => {
                self.entries.set(i, (name, value));
                proof {
                    let before = old(self)@;
                    let after = self@;
                    assert(after == before.update(i as int, (name, value@)));
                    lemma_lookup_update(before, i as int, value@);
                }
            },
            None => {
                self.entries.push((name, value));
                proof {
                    let before = old(self)@;
                    let after = self@;
                    assert(after == before.push((name, value@)));
                    lemma_lookup_push(before, name, value@);
                }
            },
        }
    }

    /// Copies of the bound values, in the order of the names.
    pub fn values(&self) -> (values: Vec<T>)
        ensures
            values@.len() == self@.len(),
            forall|i: int| 0 <= i < self@.len() ==> (#[trigger] values@[i])@ == self@[i].1,
            Seq::new(values@.len(), |i: int| values@[i]@) == values_of(self@),
    {
        let mut values: Vec<T> = Vec::new();
        let mut i: usize = 0;
        while i < self.entries.len()
            invariant
                i <= self.entries.len(),
                self@.len() == self.entries@.len(),
                values@.len() == i,
                forall|j: int| 0 <= j < i ==> (#[trigger] values@[j])@ == self@[j].1,
            decreases self.entries.len() - i,
        {
            values.push(self.entries[i].1.duplicate());
            i += 1;
        }
        values
    }
}

/// Giving the entry at `at` a new value changes what its name is bound to,
/// if no earlier entry has that name, and nothing else.
pub proof fn lemma_lookup_update<V>(entries: Seq<(char, V)>, at: int, value: V)
    requires
        0 <= at < entries.len(),
        forall|j: int| 0 <= j < at ==> entries[j].0 != entries[at].0,
    ensures
        lookup(entries.update(at, (entries[at].0, value)), entries[at].0) == Some(value),
        forall|other: char|
            other != entries[at].0 ==> lookup(entries.update(at, (entries[at].0, value)), other)
                == lookup(entries, other),
        distinct_names(entries) ==> distinct_names(entries.update(at, (entries[at].0, value))),
    decreases entries.len(),
{
    let name = entries[at].0;
    let updated = entries.update(at, (name, value));
    if at == 0 {
        assert(updated.drop_first() == entries.drop_first());
    } else {
        assert(updated.drop_first() == entries.drop_first().update(at - 1, (name, value)));
        lemma_lookup_update(entries.drop_first(), at - 1, value);
    }
    assert forall|other: char| other != name implies lookup(updated, other) == lookup(
        entries,
        other,
    ) by {
        if at > 0 && entries[0].0 != other {
            assert(lookup(updated.drop_first(), other) == lookup(entries.drop_first(), other));
        }
    }
}

/// A new entry at the end binds its name, if no entry has it, and changes
/// nothing else.
pub proof fn lemma_lookup_push<V>(entries: Seq<(char, V)>, name: char, value: V)
    requires
        forall|j: int| 0 <= j < entries.len() ==> entries[j].0 != name,
    ensures
        lookup(entries.push((name, value)), name) == Some(value),
        forall|other: char| other != name ==> lookup(entries.push((name, value)), other) == lookup(entries, other),
        distinct_names(entries) ==> distinct_names(entries.push((name, value))),
    decreases entries.len(),
{
    let pushed = entries.push((name, value));
    if entries.len() == 0 {
        assert(pushed.drop_first() == entries);
    } else {
        assert(pushed.drop_first() == entries.drop_first().push((name, value)));
        lemma_lookup_push(entries.drop_first(), name, value);
    }
    assert forall|other: char| other != name implies lookup(pushed, other) == lookup(
        entries,
        other,
    ) by {
        if entries.len() > 0 && entries[0].0 != other {
            assert(lookup(pushed.drop_first(), other) == lookup(entries.drop_first(), other));
        }
    }
}

} // verus!
