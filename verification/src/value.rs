//! Runtime values and the environment that binds names to them.

use vstd::prelude::*;
use crate::text::same_text;

verus! {

/// What an expression evaluates to.
#[derive(Debug, PartialEq)]
pub enum Value {
    /// A double, as its bits.
    Number(u64),
    String(String),
    /// Values of any kinds, in order.
    Array(Vec<Value>),
}

/// What a value is: text as a sequence of characters, an array as a sequence
/// of values.
pub enum ValueView {
    Number(u64),
    String(Seq<char>),
    Array(Seq<ValueView>),
}

impl View for Value {
    type V = ValueView;

    open spec fn view(&self) -> ValueView
        decreases self,
    {
        match self {
            Value::Number(n) => ValueView::Number(*n),
            Value::String(s) => ValueView::String(s@),
            Value::Array(items) => ValueView::Array(value_views(items@)),
        }
    }
}

/// The views of a sequence of values, one for one.
pub open spec fn value_views(values: Seq<Value>) -> Seq<ValueView>
    decreases values,
{
    if values.len() == 0 {
        Seq::empty()
    } else {
        value_views(values.drop_last()).push(values.last()@)
    }
}

/// The views are as many as the values, and each is the view of the value
/// in its place.
pub proof fn lemma_value_views(values: Seq<Value>)
    ensures
        value_views(values).len() == values.len(),
        forall|i: int| 0 <= i < values.len() ==> #[trigger] value_views(values)[i] == values[i]@,
    decreases values.len(),
{
    if values.len() > 0 {
        let front = values.drop_last();
        lemma_value_views(front);
        assert(value_views(values) == value_views(front).push(values.last()@));
        assert forall|i: int| 0 <= i < values.len() implies #[trigger] value_views(values)[i]
            == values[i]@ by {
            if i < front.len() {
                assert(value_views(front)[i] == front[i]@);
            }
        }
    }
}

/// Appending a value appends its view.
pub proof fn lemma_value_views_push(values: Seq<Value>, value: Value)
    ensures
        value_views(values.push(value)) == value_views(values).push(value@),
{
    assert(values.push(value).drop_last() =~= values);
}

impl Clone for Value {
    /// A copy of the value.
    fn clone(&self) -> (r: Value)
        ensures
            r@ == self@,
        decreases self,
    {
        match self {
            Value::Number(n) => Value::Number(*n),
            Value::String(s) => Value::String(s.clone()),
            Value::Array(items) => {
                let mut copies: Vec<Value> = Vec::new();
                let mut i: usize = 0;
                while i < items.len()
                    invariant
                        i <= items.len(),
                        *self == Value::Array(*items),
                        copies.len() == i,
                        value_views(copies@) == value_views(items@.take(i as int)),
                    decreases items.len() - i,
                {
                    assert(decreases_to!(*self => self->Array_0));
                    assert(decreases_to!(self->Array_0 => self->Array_0[i as int]));
                    let copy = items[i].clone();
                    proof {
                        lemma_value_views_push(copies@, copy);
                        lemma_value_views_push(items@.take(i as int), items@[i as int]);
                        assert(items@.take(i + 1) =~= items@.take(i as int).push(items@[i as int]));
                    }
                    copies.push(copy);
                    i += 1;
                }
                assert(items@.take(i as int) =~= items@);
                Value::Array(copies)
            },
        }
    }
}

/// The map that a sequence of bindings stands for; of two bindings of one
/// name the later counts.
pub open spec fn bindings(entries: Seq<(String, Value)>) -> Map<Seq<char>, ValueView>
    decreases entries.len(),
{
    if entries.len() == 0 {
        Map::empty()
    } else {
        bindings(entries.drop_last()).insert(entries.last().0@, entries.last().1@)
    }
}

/// No name is bound twice.
pub open spec fn distinct_names(entries: Seq<(String, Value)>) -> bool {
    forall|i: int, j: int|
        0 <= i < j < entries.len() ==> (#[trigger] entries[i]).0@ != (#[trigger] entries[j]).0@
}

/// Where no name is bound twice, the map binds exactly the names that occur,
/// each to the value beside it.
pub proof fn lemma_bindings(entries: Seq<(String, Value)>)
    requires
        distinct_names(entries),
    ensures
        forall|i: int|
            0 <= i < entries.len() ==> bindings(entries).contains_key((#[trigger] entries[i]).0@)
                && bindings(entries)[entries[i].0@] == entries[i].1@,
        forall|name: Seq<char>| #[trigger]
            bindings(entries).contains_key(name) ==> exists|i: int|
                0 <= i < entries.len() && (#[trigger] entries[i]).0@ == name,
    decreases entries.len(),
{
    if entries.len() > 0 {
        let front = entries.drop_last();
        assert(forall|i: int| 0 <= i < front.len() ==> front[i] == entries[i]);
        lemma_bindings(front);
        assert forall|i: int| 0 <= i < entries.len() implies bindings(entries).contains_key(
            (#[trigger] entries[i]).0@,
        ) && bindings(entries)[entries[i].0@] == entries[i].1@ by {
            if i < entries.len() - 1 {
                assert(front[i] == entries[i]);
                assert(entries[i].0@ != entries[entries.len() - 1].0@);
            }
        }
        assert forall|name: Seq<char>| #[trigger]
            bindings(entries).contains_key(name) implies exists|i: int|
            0 <= i < entries.len() && (#[trigger] entries[i]).0@ == name by {
            if name == entries.last().0@ {
                assert(entries[entries.len() - 1].0@ == name);
            } else {
                assert(bindings(front).contains_key(name));
                let i = choose|i: int| 0 <= i < front.len() && (#[trigger] front[i]).0@ == name;
                assert(entries[i].0@ == name);
            }
        }
    }
}

/// The variables of a program: a finite map from names to values.
#[derive(Debug)]
pub struct Environment {
    entries: Vec<(String, Value)>,
}

impl View for Environment {
    type V = Map<Seq<char>, ValueView>;

    closed spec fn view(&self) -> Map<Seq<char>, ValueView> {
        bindings(self.entries@)
    }
}

impl Environment {
    /// The representation binds no name twice.
    pub closed spec fn wf(&self) -> bool {
        distinct_names(self.entries@)
    }

    /// The environment without variables.
    pub fn new() -> (r: Environment)
        ensures
            r.wf(),
            r@ == Map::<Seq<char>, ValueView>::empty(),
    {
        Environment { entries: Vec::new() }
    }

    fn position(&self, name: &str) -> (r: Option<usize>)
        requires
            self.wf(),
        ensures
            match r {
                Some(i) => i < self.entries.len() && self.entries@[i as int].0@ == name@,
                None => forall|k: int|
                    0 <= k < self.entries.len() ==> (#[trigger] self.entries@[k]).0@ != name@,
            },
    {
        let mut i: usize = 0;
        while i < self.entries.len()
            invariant
                i <= self.entries.len(),
                forall|k: int| 0 <= k < i ==> (#[trigger] self.entries@[k]).0@ != name@,
            decreases self.entries.len() - i,
        {
            if same_text(self.entries[i].0.as_str(), name) {
                return Some(i);
            }
            i += 1;
        }
        None
    }

    /// The value bound to `name`, if there is one.
    pub fn get(&self, name: &str) -> (r: Option<&Value>)
        requires
            self.wf(),
        ensures
            match r {
                Some(v) => self@.contains_key(name@) && self@[name@] == v@,
                None => !self@.contains_key(name@),
            },
    {
        proof {
            lemma_bindings(self.entries@);
        }
        match self.position(name) {
            Some(i) => {
                assert(self.entries@[i as int].0@ == name@);
                Some(&self.entries[i].1)
            },
            None => None,
        }
    }

    /// Whether `name` is bound.
    pub fn contains_key(&self, name: &str) -> (r: bool)
        requires
            self.wf(),
        ensures
            r == self@.contains_key(name@),
    {
        self.get(name).is_some()
    }

    /// Binds `name` to `value`, in place of what it was bound to.
    pub fn insert(&mut self, name: String, value: Value)
        requires
            old(self).wf(),
        ensures
            final(self).wf(),
            final(self)@ == old(self)@.insert(name@, value@),
    {
        let ghost before = self.entries@;
        let ghost key = name@;
        let ghost bound = value@;
        let found = self.position(name.as_str());
        match found {
            Some(i) => {
                self.entries.set(i, (name, value));
            },
            None => {
                self.entries.push((name, value));
            },
        }
        proof {
            let after = self.entries@;
            assert(distinct_names(after)) by {
                assert forall|i: int, j: int| 0 <= i < j < after.len() implies (
                #[trigger] after[i]).0@ != (#[trigger] after[j]).0@ by {
                    if i < before.len() {
                        assert(before[i].0@ == after[i].0@);
                    }
                    if j < before.len() {
                        assert(before[j].0@ == after[j].0@);
                    }
                }
            }
            lemma_bindings(before);
            lemma_bindings(after);
            let target = bindings(before).insert(key, bound);
            assert forall|k: Seq<char>| bindings(after).contains_key(k) implies #[trigger]
                target.contains_key(k) by {
                let i = choose|i: int| 0 <= i < after.len() && (#[trigger] after[i]).0@ == k;
                if k != key {
                    assert(i < before.len() && before[i] == after[i]);
                }
            }
            assert forall|k: Seq<char>| #[trigger] target.contains_key(k) implies bindings(
                after,
            ).contains_key(k) && bindings(after)[k] == target[k] by {
                if k == key {
                    match found {
                        Some(i) => {
                            assert(after[i as int].0@ == key);
                        },
                        None => {
                            assert(after[after.len() - 1].0@ == key);
                        },
                    }
                } else {
                    let i = choose|i: int| 0 <= i < before.len() && (#[trigger] before[i]).0@ == k;
                    assert(after[i] == before[i]);
                }
            }
            assert(bindings(after) =~= target);
        }
    }
}

} // verus!

