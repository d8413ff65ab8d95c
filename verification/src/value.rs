//! The value tree that parsing produces, and its mathematical model.

use crate::number::Number;
use vstd::prelude::*;
use vstd::std_specs::cmp::PartialEqSpecImpl;

verus! {

/// The model of a [`Value`]: strings are sequences of characters, arrays
/// are sequences, and objects are finite maps from keys to values.
#[verifier::ext_equal]
pub ghost enum ValueView {
    Null,
    Boolean(bool),
    /// A number, as the decimal literal that denotes it.
    Number(Seq<char>),
    String(Seq<char>),
    Array(Seq<ValueView>),
    Object(Map<Seq<char>, ValueView>),
}

/// The members of an object: keys with their values. No key occurs twice;
/// inserting under a key that is present replaces its value. Two objects
/// are equal with `==` when they have the same keys with equal values.
///
/// The members are held in a vector and found by comparing keys. vstd
/// specifies a hash map only for key types that obey its key model, which
/// `String` is not known to do, so that nothing could be proved of one.
#[derive(Debug)]
pub struct Object {
    entries: Vec<(String, Value)>,
}

/// A parsed document. Two values are equal with `==` when their models
/// are: the members of an object are compared whatever their order.
#[derive(Debug)]
pub enum Value {
    Null,
    Boolean(bool),
    String(String),
    Number(Number),
    Array(Vec<Value>),
    Object(Object),
}

/// No two entries have the same key.
pub open spec fn keys_distinct(entries: Seq<(String, Value)>) -> bool {
    forall|i: int, j: int|
        0 <= i < j < entries.len() ==> (#[trigger] entries[i]).0@ != (#[trigger] entries[j]).0@
}

/// The map that results from inserting the entries in order, a later entry
/// replacing an earlier one with the same key.
pub open spec fn entries_view(entries: Seq<(String, Value)>) -> Map<Seq<char>, ValueView>
    decreases entries,
{
    if entries.len() == 0 {
        Map::empty()
    } else {
        entries_view(entries.drop_last()).insert(entries.last().0@, entries.last().1@)
    }
}

/// The models of the values in `items`, in order.
pub open spec fn values_view(items: Seq<Value>) -> Seq<ValueView>
    decreases items,
{
    Seq::new(
        items.len(),
        |i: int|
            if 0 <= i < items.len() {
                items[i]@
            } else {
                ValueView::Null
            },
    )
}

impl View for Object {
    type V = Map<Seq<char>, ValueView>;

    open spec fn view(&self) -> Map<Seq<char>, ValueView>
        decreases self,
    {
        entries_view(self.pairs())
    }
}

impl View for Value {
    type V = ValueView;

    open spec fn view(&self) -> ValueView
        decreases self,
    {
        match self {
            Value::Null => ValueView::Null,
            Value::Boolean(b) => ValueView::Boolean(*b),
            Value::String(s) => ValueView::String(s@),
            Value::Number(n) => ValueView::Number(n@),
            Value::Array(items) => ValueView::Array(values_view(items@)),
            Value::Object(members) => ValueView::Object(members@),
        }
    }
}

/// The map of a sequence that is not empty is the map of all entries but
/// the last, with the last one inserted.
pub proof fn lemma_entries_view_unfold(entries: Seq<(String, Value)>)
    requires
        entries.len() > 0,
    ensures
        entries_view(entries) == entries_view(entries.drop_last()).insert(
            entries.last().0@,
            entries.last().1@,
        ),
        forall|i: int| 0 <= i < entries.len() - 1 ==> entries.drop_last()[i] == entries[i],
        keys_distinct(entries) ==> keys_distinct(entries.drop_last()),
{
    let front = entries.drop_last();
    if keys_distinct(entries) {
        assert forall|a: int, b: int| 0 <= a < b < front.len() implies (#[trigger] front[a]).0@ != (
        #[trigger] front[b]).0@ by {
            assert(entries[a].0@ != entries[b].0@);
        }
    }
}

/// A key is in the map of `entries` exactly when some entry has it.
pub proof fn lemma_entries_view_keys(entries: Seq<(String, Value)>, key: Seq<char>)
    ensures
        entries_view(entries).contains_key(key) <==> exists|i: int|
            0 <= i < entries.len() && (#[trigger] entries[i]).0@ == key,
    decreases entries.len(),
{
    if entries.len() > 0 {
        let front = entries.drop_last();
        lemma_entries_view_keys(front, key);
        lemma_entries_view_unfold(entries);
        if entries_view(entries).contains_key(key) {
            if entries.last().0@ == key {
                assert(entries[entries.len() - 1].0@ == key);
            } else {
                assert(entries_view(front).contains_key(key));
                let i = choose|i: int| 0 <= i < front.len() && (#[trigger] front[i]).0@ == key;
                assert(front[i] == entries[i]);
                assert(entries[i].0@ == key);
            }
        }
        if exists|i: int| 0 <= i < entries.len() && (#[trigger] entries[i]).0@ == key {
            let i = choose|i: int| 0 <= i < entries.len() && (#[trigger] entries[i]).0@ == key;
            if i < entries.len() - 1 {
                assert(front[i] == entries[i]);
                assert(front[i].0@ == key);
                assert(entries_view(front).contains_key(key));
            } else {
                assert(entries.last().0@ == key);
            }
        }
    }
}

/// Where no key occurs twice, the map of `entries` takes each key to the
/// value of its entry.
pub proof fn lemma_entries_view_value(entries: Seq<(String, Value)>, i: int)
    requires
        keys_distinct(entries),
        0 <= i < entries.len(),
    ensures
        entries_view(entries).contains_key(entries[i].0@),
        entries_view(entries)[entries[i].0@] == entries[i].1@,
    decreases entries.len(),
{
    let front = entries.drop_last();
    lemma_entries_view_unfold(entries);
    if i < entries.len() - 1 {
        lemma_entries_view_value(front, i);
        assert(front[i] == entries[i]);
        assert(entries[i].0@ != entries[entries.len() - 1].0@);
    } else {
        assert(entries[i] == entries.last());
    }
}

/// Replacing the value of an entry is inserting under its key.
pub proof fn lemma_entries_view_replace(
    entries: Seq<(String, Value)>,
    i: int,
    entry: (String, Value),
)
    requires
        keys_distinct(entries),
        0 <= i < entries.len(),
        entries[i].0@ == entry.0@,
    ensures
        keys_distinct(entries.update(i, entry)),
        entries_view(entries.update(i, entry)) == entries_view(entries).insert(
            entry.0@,
            entry.1@,
        ),
    decreases entries.len(),
{
    let updated = entries.update(i, entry);
    assert(keys_distinct(updated)) by {
        assert forall|a: int, b: int| 0 <= a < b < updated.len() implies (#[trigger] updated[a]).0@
            != (#[trigger] updated[b]).0@ by {
            assert(entries[a].0@ != entries[b].0@);
        }
    }
    let front = entries.drop_last();
    lemma_entries_view_unfold(entries);
    lemma_entries_view_unfold(updated);
    if i == entries.len() - 1 {
        assert(updated.drop_last() == front);
        assert(updated.last() == entry);
        assert(entries.last().0@ == entry.0@);
        assert(entries_view(updated) == entries_view(entries).insert(entry.0@, entry.1@));
    } else {
        lemma_entries_view_replace(front, i, entry);
        assert(updated.drop_last() == front.update(i, entry));
        assert(updated.last() == entries.last());
        assert(front[i] == entries[i]);
        assert(entries[i].0@ != entries[entries.len() - 1].0@);
        assert(entries.last().0@ != entry.0@);
        assert(entries_view(updated) == entries_view(entries).insert(entry.0@, entry.1@));
    }
}

impl Object {
    #[verifier::type_invariant]
    spec fn well_formed(self) -> bool {
        keys_distinct(self.entries@)
    }

    /// The entries in the order in which their keys were first inserted.
    pub closed spec fn pairs(self) -> Seq<(String, Value)> {
        self.entries@
    }

    /// An object without members.
    pub fn new() -> (r: Object)
        ensures
            r@ == Map::<Seq<char>, ValueView>::empty(),
            r.pairs().len() == 0,
    {
        Object { entries: Vec::new() }
    }

    /// The index of the entry with `key`, if there is one.
    fn find(&self, key: &String) -> (r: Option<usize>)
        ensures
            match r {
                Some(i) => i < self.entries@.len() && self.entries@[i as int].0@ == key@,
                None => forall|j: int|
                    0 <= j < self.entries@.len() ==> (#[trigger] self.entries@[j]).0@ != key@,
            },
    {
        let mut i: usize = 0;
        while i < self.entries.len()
            invariant
                0 <= i <= self.entries@.len(),
                forall|j: int| 0 <= j < i ==> (#[trigger] self.entries@[j]).0@ != key@,
            decreases self.entries.len() - i,
        {
            if self.entries[i].0 == *key {
                return Some(i);
            }
            i += 1;
        }
        None
    }

    /// Sets the value under `key`, replacing the value of a key that is
    /// present.
    pub fn insert(&mut self, key: String, value: Value)
        ensures
            final(self)@ == old(self)@.insert(key@, value@),
            forall|i: int|
                0 <= i < old(self).pairs().len() && (#[trigger] old(self).pairs()[i]).0@ == key@
                    ==> final(self).pairs() == old(self).pairs().update(i, (key, value)),
            (forall|i: int|
                0 <= i < old(self).pairs().len() ==> (#[trigger] old(self).pairs()[i]).0@ != key@)
                ==> final(self).pairs() == old(self).pairs().push((key, value)),
    {
        proof {
            use_type_invariant(&*self);
        }
        let ghost before = self.entries@;
        let found = self.find(&key);
        let mut entries: Vec<(String, Value)> = Vec::new();
        std::mem::swap(&mut self.entries, &mut entries);
        match found {
            Some(i) => {
                proof {
                    lemma_entries_view_replace(before, i as int, (key, value));
                }
                entries.set(i, (key, value));
            },
            None => {
                entries.push((key, value));
                proof {
                    let after = entries@;
                    assert(after.drop_last() == before);
                    assert forall|a: int, b: int| 0 <= a < b < after.len() implies (
                    #[trigger] after[a]).0@ != (#[trigger] after[b]).0@ by {
                        if b < before.len() {
                            assert(before[a].0@ != before[b].0@);
                        } else {
                            assert(before[a].0@ != key@);
                        }
                    }
                }
            },
        }
        std::mem::swap(&mut self.entries, &mut entries);
    }

    /// The value under `key`, if the key is present.
    pub fn get(&self, key: &str) -> (r: Option<&Value>)
        ensures
            match r {
                Some(value) => self@.contains_key(key@) && self@[key@] == value@,
                None => !self@.contains_key(key@),
            },
    {
        proof {
            use_type_invariant(self);
            lemma_entries_view_keys(self.entries@, key@);
        }
        match self.find(&key.to_owned()) {
            Some(i) => {
                proof {
                    lemma_entries_view_value(self.entries@, i as int);
                }
                Some(&self.entries[i].1)
            },
            None => None,
        }
    }

    /// The number of members.
    pub fn len(&self) -> (r: usize)
        ensures
            r == self.pairs().len(),
            r == self@.len(),
    {
        proof {
            use_type_invariant(self);
            lemma_entries_view_len(self.entries@);
        }
        self.entries.len()
    }

    /// The members, each key once, in the order of first insertion.
    pub fn entries(&self) -> (r: &Vec<(String, Value)>)
        ensures
            r@ == self.pairs(),
            keys_distinct(r@),
    {
        proof {
            use_type_invariant(self);
        }
        &self.entries
    }

    /// Hands the members out, each key once, in the order of first
    /// insertion.
    pub fn into_entries(self) -> (r: Vec<(String, Value)>)
        ensures
            r@ == self.pairs(),
            keys_distinct(r@),
    {
        proof {
            use_type_invariant(&self);
        }
        self.entries
    }
}

/// Where no key occurs twice, the map of `entries` has as many keys as
/// there are entries.
pub proof fn lemma_entries_view_len(entries: Seq<(String, Value)>)
    requires
        keys_distinct(entries),
    ensures
        entries_view(entries).dom().finite(),
        entries_view(entries).len() == entries.len(),
    decreases entries.len(),
{
    if entries.len() > 0 {
        let front = entries.drop_last();
        lemma_entries_view_unfold(entries);
        lemma_entries_view_len(front);
        lemma_entries_view_keys(front, entries.last().0@);
        if entries_view(front).contains_key(entries.last().0@) {
            let i = choose|i: int|
                0 <= i < front.len() && (#[trigger] front[i]).0@ == entries.last().0@;
            assert(front[i] == entries[i]);
            assert(entries[i].0@ != entries[entries.len() - 1].0@);
        }
    }
}

impl PartialEq for Value {
    fn eq(&self, other: &Value) -> (r: bool) {
        values_equal(self, other)
    }
}

impl PartialEqSpecImpl for Value {
    open spec fn obeys_eq_spec() -> bool {
        true
    }

    open spec fn eq_spec(&self, other: &Value) -> bool {
        self@ == other@
    }
}

impl PartialEq for Object {
    fn eq(&self, other: &Object) -> (r: bool) {
        self.same_members(other)
    }
}

impl PartialEqSpecImpl for Object {
    open spec fn obeys_eq_spec() -> bool {
        true
    }

    open spec fn eq_spec(&self, other: &Object) -> bool {
        self@ == other@
    }
}

/// Whether two values have the same model.
pub fn values_equal(a: &Value, b: &Value) -> (r: bool)
    ensures
        r == (a@ == b@),
    decreases a, 1int,
{
    match (a, b) {
        (Value::Null, Value::Null) => true,
        (Value::Boolean(x), Value::Boolean(y)) => *x == *y,
        (Value::String(x), Value::String(y)) => *x == *y,
        (Value::Number(x), Value::Number(y)) => x.same_literal(y),
        (Value::Array(x), Value::Array(y)) => {
            if x.len() != y.len() {
                assert(values_view(x@).len() != values_view(y@).len());
                return false;
            }
            let mut i: usize = 0;
            while i < x.len()
                invariant
                    x.len() == y.len(),
                    0 <= i <= x.len(),
                    a == Value::Array(*x),
                    b == Value::Array(*y),
                    forall|j: int| 0 <= j < i ==> (#[trigger] x@[j])@ == y@[j]@,
                decreases x.len() - i,
            {
                proof {
                    assert(decreases_to!(a => a->Array_0));
                    assert(decreases_to!(x => x@));
                    assert(decreases_to!(x@ => x@[i as int]));
                }
                if !values_equal(&x[i], &y[i]) {
                    assert(values_view(x@)[i as int] != values_view(y@)[i as int]);
                    return false;
                }
                i += 1;
            }
            assert(values_view(x@) == values_view(y@));
            true
        },
        (Value::Object(x), Value::Object(y)) => x.same_members(y),
        _ => false,
    }
}

impl Object {
    /// Whether both objects have the same keys with equal values.
    pub fn same_members(&self, other: &Object) -> (r: bool)
        ensures
            r == (self@ == other@),
        decreases self, 0int,
    {
        proof {
            use_type_invariant(self);
            use_type_invariant(other);
            lemma_entries_view_len(self.entries@);
            lemma_entries_view_len(other.entries@);
        }
        if self.entries.len() != other.entries.len() {
            return false;
        }
        let mut i: usize = 0;
        while i < self.entries.len()
            invariant
                keys_distinct(self.entries@),
                keys_distinct(other.entries@),
                0 <= i <= self.entries@.len(),
                forall|j: int|
                    0 <= j < i ==> other@.contains_key((#[trigger] self.entries@[j]).0@)
                        && other@[self.entries@[j].0@] == self.entries@[j].1@,
            decreases self.entries.len() - i,
        {
            proof {
                lemma_entries_view_value(self.entries@, i as int);
                lemma_entries_view_keys(other.entries@, self.entries@[i as int].0@);
            }
            match other.find(&self.entries[i].0) {
                None => {
                    return false;
                },
                Some(k) => {
                    proof {
                        lemma_entries_view_value(other.entries@, k as int);
                    }
                    if !values_equal(&self.entries[i].1, &other.entries[k].1) {
                        return false;
                    }
                },
            }
            i += 1;
        }
        proof {
            assert forall|key: Seq<char>| #[trigger]
                self@.dom().contains(key) implies other@.dom().contains(key) && other@[key]
                == self@[key] by {
                lemma_entries_view_keys(self.entries@, key);
                let j = choose|j: int|
                    0 <= j < self.entries@.len() && (#[trigger] self.entries@[j]).0@ == key;
                lemma_entries_view_value(self.entries@, j);
            }
            assert(self@.dom().subset_of(other@.dom()));
            vstd::set_lib::lemma_subset_equality(self@.dom(), other@.dom());
            assert(self@ =~= other@);
        }
        true
    }
}

} // verus!
