//! A JSON-like value tree: the data that flows between workflow nodes.
//!
//! Numbers are modelled as 64-bit integers; objects keep their entries in
//! insertion order, with keys unique.

use vstd::prelude::*;

verus! {

broadcast use vstd::seq::axiom_seq_index_decreases, vstd::seq::axiom_seq_subrange_decreases, vstd::std_specs::vec::axiom_vec_decreases_to_view;

/// Mathematical model of a [`Value`].
pub enum ValueSpec {
    Null,
    Bool(bool),
    Int(int),
    Str(Seq<char>),
    Arr(Seq<ValueSpec>),
    Obj(Seq<(Seq<char>, ValueSpec)>),
}

/// One key/value pair of an object.
#[derive(Debug)]
pub struct Entry {
    pub key: String,
    pub value: Value,
}

/// A JSON-like value. Objects are association lists in insertion order.
#[derive(Debug)]
pub enum Value {
    Null,
    Bool(bool),
    Int(i64),
    Str(String),
    Arr(Vec<Value>),
    Obj(Vec<Entry>),
}

/// Model of a sequence of array elements.
pub open spec fn arr_view(s: Seq<Value>) -> Seq<ValueSpec>
    decreases s,
{
    if s.len() == 0 {
        Seq::empty()
    } else {
        seq![s[0].view_spec()] + arr_view(s.subrange(1, s.len() as int))
    }
}

/// Model of a sequence of object entries.
pub open spec fn obj_view(s: Seq<Entry>) -> Seq<(Seq<char>, ValueSpec)>
    decreases s,
{
    if s.len() == 0 {
        Seq::empty()
    } else {
        seq![(s[0].key@, s[0].value.view_spec())] + obj_view(s.subrange(1, s.len() as int))
    }
}

impl Value {
    /// The mathematical value this tree denotes.
    pub open spec fn view_spec(self) -> ValueSpec
        decreases self,
    {
        match self {
            Value::Null => ValueSpec::Null,
            Value::Bool(b) => ValueSpec::Bool(b),
            Value::Int(i) => ValueSpec::Int(i as int),
            Value::Str(s) => ValueSpec::Str(s@),
            Value::Arr(items) => ValueSpec::Arr(arr_view(items@)),
            Value::Obj(entries) => ValueSpec::Obj(obj_view(entries@)),
        }
    }
}

impl View for Value {
    type V = ValueSpec;

    open spec fn view(&self) -> ValueSpec {
        self.view_spec()
    }
}

/// Looks a key up in entry order; the first match wins.
pub open spec fn entries_lookup(s: Seq<Entry>, key: Seq<char>) -> Option<ValueSpec>
    decreases s.len(),
{
    if s.len() == 0 {
        None
    } else if s[0].key@ == key {
        Some(s[0].value.view_spec())
    } else {
        entries_lookup(s.subrange(1, s.len() as int), key)
    }
}

/// `entries_lookup` agrees with `obj_lookup` on the entries' view.
pub broadcast proof fn lemma_entries_lookup(s: Seq<Entry>, key: Seq<char>)
    ensures
        #[trigger] entries_lookup(s, key) == obj_lookup(obj_view(s), key),
    decreases s.len(),
{
    lemma_obj_view(s);
    if s.len() > 0 {
        lemma_entries_lookup(s.subrange(1, s.len() as int), key);
        assert(obj_view(s)[0] == (s[0].key@, s[0].value.view_spec()));
        assert(obj_view(s).subrange(1, obj_view(s).len() as int) =~= obj_view(
            s.subrange(1, s.len() as int),
        )) by {
            lemma_obj_view(s.subrange(1, s.len() as int));
        }
    }
}

/// The first entry with the given key, if any.
#[verifier::loop_isolation(false)]
pub fn obj_get<'a>(entries: &'a Vec<Entry>, key: &String) -> (r: Option<&'a Value>)
    ensures
        match r {
            Some(v) => obj_lookup(obj_view(entries@), key@) == Some(v.view_spec()),
            None => obj_lookup(obj_view(entries@), key@) is None,
        },
{
    proof {
        lemma_entries_lookup(entries@, key@);
        assert(entries@.subrange(0, entries@.len() as int) =~= entries@);
    }
    let n = entries.len();
    let mut i: usize = 0;
    while i < n
        invariant
            i <= n,
            n == entries@.len(),
            entries_lookup(entries@, key@) == entries_lookup(
                entries@.subrange(i as int, n as int),
                key@,
            ),
        decreases n - i,
    {
        let hit = entries[i].key.eq(key);
        proof {
            let tail = entries@.subrange(i as int, n as int);
            assert(tail[0] == entries@[i as int]);
            assert(tail.subrange(1, tail.len() as int) =~= entries@.subrange(
                i + 1 as int,
                n as int,
            ));
            if hit {
                assert(entries_lookup(tail, key@) == Some(entries@[i as int].value.view_spec()));
            } else {
                assert(entries_lookup(tail, key@) == entries_lookup(
                    entries@.subrange(i + 1 as int, n as int),
                    key@,
                ));
            }
        }
        if hit {
            proof {
                assert(entries_lookup(entries@, key@) == Some(
                    entries@[i as int].value.view_spec(),
                ));
                assert(obj_lookup(obj_view(entries@), key@) == Some(
                    entries@[i as int].value.view_spec(),
                ));
            }
            return Some(&entries[i].value);
        }
        i = i + 1;
    }
    proof {
        assert(entries@.subrange(n as int, n as int) =~= Seq::<Entry>::empty());
    }
    None
}

/// Sets `key` to `value`: replaces the first matching entry in place, or
/// appends a new one.
#[verifier::loop_isolation(false)]
pub fn obj_set(entries: &mut Vec<Entry>, key: String, value: Value)
    ensures
        obj_view(final(entries)@) == obj_store(obj_view(old(entries)@), key@, value.view_spec()),
{
    let ghost orig = entries@;
    let n = entries.len();
    let mut i: usize = 0;
    while i < n
        invariant
            i <= n,
            n == entries@.len(),
            entries@ == orig,
            forall|j: int| 0 <= j < i ==> #[trigger] orig[j].key@ != key@,
        decreases n - i,
    {
        if entries[i].key.eq(&key) {
            let ghost oldkey = entries@[i as int].key@;
            entries[i] = Entry { key, value };
            proof {
                assert(entries@ == orig.update(i as int, Entry { key: key, value: value }));
                assert(entries@[i as int].key@ == key@);
                assert(orig[i as int].key@ == oldkey);
                assert(oldkey == key@);
                lemma_obj_store_replace(orig, entries@, i as int);
                assert(obj_view(entries@) == obj_store(obj_view(orig), key@, value.view_spec()));
            }
            return ;
        }
        i = i + 1;
    }
    entries.push(Entry { key, value });
    proof {
        lemma_obj_store_append(orig, entries@);
    }
}

/// Replacing the first matching entry realizes `obj_store`.
proof fn lemma_obj_store_replace(orig: Seq<Entry>, updated: Seq<Entry>, i: int)
    requires
        0 <= i < orig.len(),
        updated.len() == orig.len(),
        forall|j: int| 0 <= j < orig.len() && j != i ==> updated[j] == orig[j],
        forall|j: int| 0 <= j < i ==> #[trigger] orig[j].key@ != updated[i].key@,
        orig[i].key@ == updated[i].key@,
    ensures
        obj_view(updated) == obj_store(obj_view(orig), updated[i].key@, updated[i].value.view_spec()),
    decreases i,
{
    lemma_obj_view(orig);
    lemma_obj_view(updated);
    let key = updated[i].key@;
    let value = updated[i].value.view_spec();
    if i == 0 {
        assert(obj_view(orig)[0].0 == key);
        assert(obj_view(updated) =~= seq![(key, value)] + obj_view(orig).subrange(
            1,
            obj_view(orig).len() as int,
        ));
    } else {
        let orig1 = orig.subrange(1, orig.len() as int);
        let updated1 = updated.subrange(1, updated.len() as int);
        lemma_obj_store_replace(orig1, updated1, i - 1);
        lemma_obj_view(orig1);
        lemma_obj_view(updated1);
        assert(obj_view(orig)[0].0 != key);
        assert(obj_view(orig).subrange(1, obj_view(orig).len() as int) =~= obj_view(orig1));
        assert(obj_view(updated) =~= seq![obj_view(orig)[0]] + obj_view(updated1));
    }
}

/// Appending a fresh key realizes `obj_store`.
proof fn lemma_obj_store_append(orig: Seq<Entry>, updated: Seq<Entry>)
    requires
        updated.len() == orig.len() + 1,
        forall|j: int| 0 <= j < orig.len() ==> updated[j] == orig[j],
        forall|j: int|
            0 <= j < orig.len() ==> #[trigger] orig[j].key@ != updated[orig.len() as int].key@,
    ensures
        obj_view(updated) == obj_store(
            obj_view(orig),
            updated[orig.len() as int].key@,
            updated[orig.len() as int].value.view_spec(),
        ),
    decreases orig.len(),
{
    lemma_obj_view(orig);
    lemma_obj_view(updated);
    let key = updated[orig.len() as int].key@;
    let value = updated[orig.len() as int].value.view_spec();
    if orig.len() == 0 {
        assert(obj_view(orig) =~= Seq::<(Seq<char>, ValueSpec)>::empty());
        assert(obj_view(updated) =~= seq![(key, value)]);
    } else {
        let orig1 = orig.subrange(1, orig.len() as int);
        let updated1 = updated.subrange(1, updated.len() as int);
        assert(updated1[orig1.len() as int] == updated[orig.len() as int]);
        lemma_obj_store_append(orig1, updated1);
        lemma_obj_view(orig1);
        lemma_obj_view(updated1);
        assert(obj_view(orig)[0].0 != key);
        assert(obj_view(updated) =~= seq![obj_view(orig)[0]] + obj_view(updated1));
        assert(obj_view(orig).subrange(1, obj_view(orig).len() as int) =~= obj_view(orig1));
    }
}

impl Value {
    /// A structurally identical copy.
    #[verifier::loop_isolation(false)]
    pub fn deep_clone(&self) -> (r: Value)
        ensures
            r.view_spec() == self.view_spec(),
        decreases self,
    {
        match self {
            Value::Null => Value::Null,
            Value::Bool(b) => Value::Bool(*b),
            Value::Int(i) => Value::Int(*i),
            Value::Str(s) => Value::Str(s.clone()),
            Value::Arr(items) => {
                let mut out: Vec<Value> = Vec::new();
                let mut i: usize = 0;
                while i < items.len()
                    invariant
                        i <= items@.len(),
                        out@.len() == i,
                        forall|j: int|
                            0 <= j < i ==> (#[trigger] out@[j]).view_spec()
                                == items@[j].view_spec(),
                    decreases items@.len() - i,
                {
                    proof {
                        assert(decreases_to!(*self => *items));
                        assert(decreases_to!(*items => items@));
                        assert(decreases_to!(items@ => items@[i as int]));
                    }
                    out.push(items[i].deep_clone());
                    i = i + 1;
                }
                proof {
                    lemma_arr_view(out@);
                    lemma_arr_view(items@);
                    assert(arr_view(out@) =~= arr_view(items@));
                }
                Value::Arr(out)
            },
            Value::Obj(entries) => {
                let mut out: Vec<Entry> = Vec::new();
                let mut i: usize = 0;
                while i < entries.len()
                    invariant
                        i <= entries@.len(),
                        out@.len() == i,
                        forall|j: int|
                            0 <= j < i ==> (#[trigger] out@[j]).key@ == entries@[j].key@
                                && out@[j].value.view_spec() == entries@[j].value.view_spec(),
                    decreases entries@.len() - i,
                {
                    proof {
                        assert(decreases_to!(*self => *entries));
                        assert(decreases_to!(*entries => entries@));
                        assert(decreases_to!(entries@ => entries@[i as int]));
                        assert(decreases_to!(entries@[i as int] => entries@[i as int].value));
                    }
                    out.push(
                        Entry { key: entries[i].key.clone(), value: entries[i].value.deep_clone() },
                    );
                    i = i + 1;
                }
                proof {
                    lemma_obj_view(out@);
                    lemma_obj_view(entries@);
                    assert(obj_view(out@) =~= obj_view(entries@));
                }
                Value::Obj(out)
            },
        }
    }

    /// Structural equality of two values.
    #[verifier::loop_isolation(false)]
    pub fn deep_eq(&self, other: &Value) -> (r: bool)
        ensures
            r == (self.view_spec() == other.view_spec()),
        decreases self,
    {
        match (self, other) {
            (Value::Null, Value::Null) => true,
            (Value::Bool(a), Value::Bool(b)) => *a == *b,
            (Value::Int(a), Value::Int(b)) => *a == *b,
            (Value::Str(a), Value::Str(b)) => a.eq(b),
            (Value::Arr(a), Value::Arr(b)) => {
                proof {
                    lemma_arr_view(a@);
                    lemma_arr_view(b@);
                }
                if a.len() != b.len() {
                    return false;
                }
                let mut i: usize = 0;
                while i < a.len()
                    invariant
                        i <= a@.len(),
                        a@.len() == b@.len(),
                        arr_view(a@).len() == a@.len(),
                        arr_view(b@).len() == b@.len(),
                        forall|j: int| 0 <= j < a@.len() ==> arr_view(a@)[j] == a@[j].view_spec(),
                        forall|j: int| 0 <= j < b@.len() ==> arr_view(b@)[j] == b@[j].view_spec(),
                        forall|j: int|
                            0 <= j < i ==> a@[j].view_spec() == (#[trigger] b@[j]).view_spec(),
                    decreases a@.len() - i,
                {
                    proof {
                        assert(decreases_to!(*self => *a));
                        assert(decreases_to!(*a => a@));
                        assert(decreases_to!(a@ => a@[i as int]));
                    }
                    if !a[i].deep_eq(&b[i]) {
                        proof {
                            assert(arr_view(a@)[i as int] != arr_view(b@)[i as int]);
                        }
                        return false;
                    }
                    i = i + 1;
                }
                proof {
                    assert(arr_view(a@) =~= arr_view(b@));
                }
                true
            },
            (Value::Obj(a), Value::Obj(b)) => {
                proof {
                    lemma_obj_view(a@);
                    lemma_obj_view(b@);
                }
                if a.len() != b.len() {
                    return false;
                }
                let mut i: usize = 0;
                while i < a.len()
                    invariant
                        i <= a@.len(),
                        a@.len() == b@.len(),
                        obj_view(a@).len() == a@.len(),
                        obj_view(b@).len() == b@.len(),
                        forall|j: int|
                            0 <= j < a@.len() ==> obj_view(a@)[j] == (
                            a@[j].key@,
                            a@[j].value.view_spec(),
                            ),
                        forall|j: int|
                            0 <= j < b@.len() ==> obj_view(b@)[j] == (
                            b@[j].key@,
                            b@[j].value.view_spec(),
                            ),
                        forall|j: int|
                            0 <= j < i ==> a@[j].key@ == (#[trigger] b@[j]).key@
                                && a@[j].value.view_spec() == b@[j].value.view_spec(),
                    decreases a@.len() - i,
                {
                    proof {
                        assert(decreases_to!(*self => *a));
                        assert(decreases_to!(*a => a@));
                        assert(decreases_to!(a@ => a@[i as int]));
                        assert(decreases_to!(a@[i as int] => a@[i as int].value));
                    }
                    if !a[i].key.eq(&b[i].key) {
                        proof {
                            assert(obj_view(a@)[i as int] != obj_view(b@)[i as int]);
                        }
                        return false;
                    }
                    if !a[i].value.deep_eq(&b[i].value) {
                        proof {
                            assert(obj_view(a@)[i as int] != obj_view(b@)[i as int]);
                        }
                        return false;
                    }
                    i = i + 1;
                }
                proof {
                    assert(obj_view(a@) =~= obj_view(b@));
                }
                true
            },
            _ => false,
        }
    }
}

/// The elements of `arr_view` are the views of the elements, in order.
pub broadcast proof fn lemma_arr_view(s: Seq<Value>)
    ensures
        (#[trigger] arr_view(s)).len() == s.len(),
        forall|i: int| 0 <= i < s.len() ==> arr_view(s)[i] == s[i].view_spec(),
    decreases s,
{
    if s.len() > 0 {
        lemma_arr_view(s.subrange(1, s.len() as int));
    }
}

/// Looks a key up in an object's entries; the first match wins.
pub open spec fn obj_lookup(s: Seq<(Seq<char>, ValueSpec)>, key: Seq<char>) -> Option<ValueSpec>
    decreases s.len(),
{
    if s.len() == 0 {
        None
    } else if s[0].0 == key {
        Some(s[0].1)
    } else {
        obj_lookup(s.subrange(1, s.len() as int), key)
    }
}

/// The entries after setting `key` to `value`: replaced in place when the
/// key is present, appended otherwise.
pub open spec fn obj_store(
    s: Seq<(Seq<char>, ValueSpec)>,
    key: Seq<char>,
    value: ValueSpec,
) -> Seq<(Seq<char>, ValueSpec)>
    decreases s.len(),
{
    if s.len() == 0 {
        seq![(key, value)]
    } else if s[0].0 == key {
        seq![(key, value)] + s.subrange(1, s.len() as int)
    } else {
        seq![s[0]] + obj_store(s.subrange(1, s.len() as int), key, value)
    }
}

/// After `obj_store`, the stored key reads back as the stored value.
pub proof fn lemma_obj_store_same(
    s: Seq<(Seq<char>, ValueSpec)>,
    key: Seq<char>,
    value: ValueSpec,
)
    ensures
        obj_lookup(obj_store(s, key, value), key) == Some(value),
    decreases s.len(),
{
    if s.len() == 0 {
        assert(obj_store(s, key, value) =~= seq![(key, value)]);
    } else if s[0].0 == key {
        assert(obj_store(s, key, value)[0] == (key, value));
    } else {
        let stored = obj_store(s, key, value);
        let tail_stored = obj_store(s.subrange(1, s.len() as int), key, value);
        assert(stored =~= seq![s[0]] + tail_stored);
        assert(stored[0] == s[0]);
        assert(stored.subrange(1, stored.len() as int) =~= tail_stored);
        lemma_obj_store_same(s.subrange(1, s.len() as int), key, value);
    }
}

/// `obj_store` leaves every other key's lookup unchanged.
pub proof fn lemma_obj_store_other(
    s: Seq<(Seq<char>, ValueSpec)>,
    key: Seq<char>,
    value: ValueSpec,
    other: Seq<char>,
)
    requires
        other != key,
    ensures
        obj_lookup(obj_store(s, key, value), other) == obj_lookup(s, other),
    decreases s.len(),
{
    if s.len() == 0 {
        assert(obj_store(s, key, value) =~= seq![(key, value)]);
        let stored = obj_store(s, key, value);
        assert(stored[0].0 != other);
        assert(stored.subrange(1, stored.len() as int) =~= Seq::<(Seq<char>, ValueSpec)>::empty());
        assert(obj_lookup(stored.subrange(1, stored.len() as int), other)
            == Option::<ValueSpec>::None);
        assert(obj_lookup(stored, other) == Option::<ValueSpec>::None);
        assert(obj_lookup(s, other) == Option::<ValueSpec>::None);
    } else if s[0].0 == key {
        let stored = obj_store(s, key, value);
        assert(stored =~= seq![(key, value)] + s.subrange(1, s.len() as int));
        assert(stored[0] == (key, value));
        assert(stored.subrange(1, stored.len() as int) =~= s.subrange(1, s.len() as int));
    } else {
        let stored = obj_store(s, key, value);
        let tail_stored = obj_store(s.subrange(1, s.len() as int), key, value);
        assert(stored =~= seq![s[0]] + tail_stored);
        assert(stored[0] == s[0]);
        assert(stored.subrange(1, stored.len() as int) =~= tail_stored);
        lemma_obj_store_other(s.subrange(1, s.len() as int), key, value, other);
    }
}

/// The entries of `obj_view` are the key views and value views, in order.
pub broadcast proof fn lemma_obj_view(s: Seq<Entry>)
    ensures
        (#[trigger] obj_view(s)).len() == s.len(),
        forall|i: int|
            0 <= i < s.len() ==> obj_view(s)[i] == (s[i].key@, s[i].value.view_spec()),
    decreases s,
{
    if s.len() > 0 {
        lemma_obj_view(s.subrange(1, s.len() as int));
    }
}

} // verus!
