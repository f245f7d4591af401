//! Values passed to and returned by template functions, and how they print.
use vstd::prelude::*;
use crate::number::{number_text, render_number};
use crate::text::{chars_of, digit_value, append};

verus! {

/// A value handed to a template function or returned by one.
///
/// A number is kept as its decimal text, in a form that Rust's `f64`
/// parser reads, and prints by the value it stands for (see
/// `number_text`); a dictionary is kept as its entries in order.
#[derive(Debug)]
pub enum DynamicValue {
    Null,
    Bool(bool),
    Number(String),
    String(String),
    List(Vec<DynamicValue>),
    Dict(Vec<(String, DynamicValue)>),
}

/// The mathematical model of a `DynamicValue`.
pub enum Value {
    Null,
    Bool(bool),
    Number(Seq<char>),
    Text(Seq<char>),
    List(Seq<Value>),
    Dict(Seq<(Seq<char>, Value)>),
}

pub open spec fn list_model(items: Seq<DynamicValue>) -> Seq<Value>
    decreases items,
{
    if items.len() == 0 {
        Seq::empty()
    } else {
        list_model(items.drop_last()).push(items.last().model())
    }
}

pub open spec fn dict_model(entries: Seq<(String, DynamicValue)>) -> Seq<(Seq<char>, Value)>
    decreases entries,
{
    if entries.len() == 0 {
        Seq::empty()
    } else {
        dict_model(entries.drop_last()).push((entries.last().0@, entries.last().1.model()))
    }
}

impl DynamicValue {
    pub open spec fn model(self) -> Value
        decreases self,
    {
        match self {
            DynamicValue::Null => Value::Null,
            DynamicValue::Bool(b) => Value::Bool(b),
            DynamicValue::Number(t) => Value::Number(t@),
            DynamicValue::String(s) => Value::Text(s@),
            DynamicValue::List(items) => Value::List(list_model(items@)),
            DynamicValue::Dict(entries) => Value::Dict(dict_model(entries@)),
        }
    }
}


/// The lemma that the model of a list has one element per item, in order.
pub proof fn lemma_list_model(items: Seq<DynamicValue>)
    ensures
        list_model(items).len() == items.len(),
        forall|i: int| 0 <= i < items.len() ==> #[trigger] list_model(items)[i] == items[i].model(),
    decreases items.len(),
{
    if items.len() > 0 {
        lemma_list_model(items.drop_last());
    }
}

/// The lemma that the model of a dictionary has one entry per entry, in order.
pub proof fn lemma_dict_model(entries: Seq<(String, DynamicValue)>)
    ensures
        dict_model(entries).len() == entries.len(),
        forall|i: int|
            0 <= i < entries.len() ==> #[trigger] dict_model(entries)[i] == (
                entries[i].0@,
                entries[i].1.model(),
            ),
    decreases entries.len(),
{
    if entries.len() > 0 {
        lemma_dict_model(entries.drop_last());
    }
}

/// The text after an optional leading sign.
pub open spec fn unsigned_part(t: Seq<char>) -> Seq<char> {
    if t.len() > 0 && (t[0] == '-' || t[0] == '+') {
        t.drop_first()
    } else {
        t
    }
}

/// Whether every character is a decimal digit.
pub open spec fn all_digits(s: Seq<char>) -> bool {
    forall|i: int| 0 <= i < s.len() ==> '0' <= #[trigger] s[i] <= '9'
}

/// The lemma that modelling a list item by item agrees with pushing.
pub proof fn lemma_list_model_push(items: Seq<DynamicValue>, x: DynamicValue)
    ensures
        list_model(items.push(x)) == list_model(items).push(x.model()),
{
    assert(items.push(x).drop_last() =~= items);
}

/// The lemma that modelling a dictionary entry by entry agrees with pushing.
pub proof fn lemma_dict_model_push(entries: Seq<(String, DynamicValue)>, e: (String, DynamicValue))
    ensures
        dict_model(entries.push(e)) == dict_model(entries).push((e.0@, e.1.model())),
{
    assert(entries.push(e).drop_last() =~= entries);
}

/// The value of a string of decimal digits.
pub open spec fn digits_value(ds: Seq<char>) -> nat
    decreases ds.len(),
{
    if ds.len() == 0 {
        0
    } else {
        digits_value(ds.drop_last()) * 10 + digit_value(ds.last())
    }
}

/// The smallest `i64`, negated.
pub open spec fn i64_magnitude_limit() -> nat {
    9223372036854775808
}

/// How a value prints in rendered output.
pub open spec fn render(v: Value) -> Seq<char>
    decreases v,
{
    match v {
        Value::Null => Seq::empty(),
        Value::Bool(b) => if b { "true"@ } else { "false"@ },
        Value::Number(t) => number_text(t),
        Value::Text(s) => s,
        Value::List(items) => seq!['['] + render_items(items) + seq![']'],
        Value::Dict(entries) => seq!['{'] + render_entries(entries) + seq!['}'],
    }
}

/// The printed items of a list, separated by `", "`.
pub open spec fn render_items(items: Seq<Value>) -> Seq<char>
    decreases items,
{
    if items.len() == 0 {
        Seq::empty()
    } else if items.len() == 1 {
        render(items[0])
    } else {
        render_items(items.drop_last()) + ", "@ + render(items.last())
    }
}

/// The printed entries of a dictionary, each as `key: value`, separated by `", "`.
pub open spec fn render_entries(entries: Seq<(Seq<char>, Value)>) -> Seq<char>
    decreases entries,
{
    if entries.len() == 0 {
        Seq::empty()
    } else if entries.len() == 1 {
        entries[0].0 + ": "@ + render(entries[0].1)
    } else {
        render_entries(entries.drop_last()) + ", "@ + entries.last().0 + ": "@ + render(
            entries.last().1,
        )
    }
}

impl DynamicValue {
    /// A copy of this value.
    pub fn duplicate(&self) -> (res: DynamicValue)
        ensures
            res.model() == self.model(),
        decreases self,
    {
        match self {
            DynamicValue::Null => DynamicValue::Null,
            DynamicValue::Bool(b) => DynamicValue::Bool(*b),
            DynamicValue::Number(t) => DynamicValue::Number(t.clone()),
            DynamicValue::String(t) => DynamicValue::String(t.clone()),
            DynamicValue::List(items) => {
                let mut copies: Vec<DynamicValue> = Vec::new();
                let mut i: usize = 0;
                while i < items.len()
                    invariant
                        i <= items.len(),
                        *self == DynamicValue::List(*items),
                        list_model(copies@) == list_model(items@.take(i as int)),
                    decreases items.len() - i,
                {
                    proof {
                        assert(decreases_to!(*self => self->List_0));
                        assert(decreases_to!(*items => items@));
                        assert(decreases_to!(items@ => items@[i as int]));
                    }
                    let copy = items[i].duplicate();
                    proof {
                        lemma_list_model_push(copies@, copy);
                        lemma_list_model_push(items@.take(i as int), items@[i as int]);
                        assert(items@.take(i + 1) =~= items@.take(i as int).push(items@[i as int]));
                    }
                    copies.push(copy);
                    i += 1;
                }
                proof {
                    assert(items@.take(items@.len() as int) =~= items@);
                }
                DynamicValue::List(copies)
            },
            DynamicValue::Dict(entries) => {
                let mut copies: Vec<(String, DynamicValue)> = Vec::new();
                let mut i: usize = 0;
                while i < entries.len()
                    invariant
                        i <= entries.len(),
                        *self == DynamicValue::Dict(*entries),
                        dict_model(copies@) == dict_model(entries@.take(i as int)),
                    decreases entries.len() - i,
                {
                    proof {
                        assert(decreases_to!(*self => self->Dict_0));
                        assert(decreases_to!(*entries => entries@));
                        assert(decreases_to!(entries@ => entries@[i as int]));
                        assert(decreases_to!(entries@[i as int] => entries@[i as int].1));
                    }
                    let copy = (entries[i].0.clone(), entries[i].1.duplicate());
                    proof {
                        lemma_dict_model_push(copies@, copy);
                        lemma_dict_model_push(entries@.take(i as int), entries@[i as int]);
                        assert(entries@.take(i + 1) =~= entries@.take(i as int).push(entries@[i as int]));
                    }
                    copies.push(copy);
                    i += 1;
                }
                proof {
                    assert(entries@.take(entries@.len() as int) =~= entries@);
                }
                DynamicValue::Dict(copies)
            },
        }
    }

    /// The text that stands for this value in rendered output.
    pub fn to_output_string(&self) -> (res: Vec<char>)
        ensures
            res@ == render(self.model()),
        decreases self,
    {
        match self {
            DynamicValue::Null => Vec::new(),
            DynamicValue::Bool(b) => if *b {
                chars_of("true")
            } else {
                chars_of("false")
            },
            DynamicValue::Number(t) => render_number(&chars_of(t.as_str())),
            DynamicValue::String(s) => chars_of(s.as_str()),
            DynamicValue::List(items) => {
                let ghost models = list_model(items@);
                proof {
                    lemma_list_model(items@);
                }
                let mut res = vec!['['];
                let mut i: usize = 0;
                while i < items.len()
                    invariant
                        i <= items.len(),
                        *self == DynamicValue::List(*items),
                        models == list_model(items@),
                        models.len() == items.len(),
                        forall|j: int| 0 <= j < items.len() ==> #[trigger] models[j] == items[j].model(),
                        res@ == seq!['['] + render_items(models.take(i as int)),
                    decreases items.len() - i,
                {
                    if i > 0 {
                        append(&mut res, &chars_of(", "));
                    }
                    proof {
                        assert(decreases_to!(*self => self->List_0));
                        assert(decreases_to!(*items => items@));
                        assert(decreases_to!(items@ => items@[i as int]));
                    }
                    let item = items[i].to_output_string();
                    append(&mut res, &item);
                    proof {
                        let prev = models.take(i as int);
                        let next = models.take(i + 1);
                        assert(next.drop_last() =~= prev);
                        assert(next.last() == items[i as int].model());
                        assert(res@ =~= seq!['['] + render_items(next));
                    }
                    i += 1;
                }
                proof {
                    assert(models.take(items.len() as int) =~= models);
                }
                res.push(']');
                res
            },
            DynamicValue::Dict(entries) => {
                let ghost models = dict_model(entries@);
                proof {
                    lemma_dict_model(entries@);
                }
                let mut res = vec!['{'];
                let mut i: usize = 0;
                while i < entries.len()
                    invariant
                        i <= entries.len(),
                        *self == DynamicValue::Dict(*entries),
                        models == dict_model(entries@),
                        models.len() == entries.len(),
                        forall|j: int|
                            0 <= j < entries.len() ==> #[trigger] models[j] == (
                                entries[j].0@,
                                entries[j].1.model(),
                            ),
                        res@ == seq!['{'] + render_entries(models.take(i as int)),
                    decreases entries.len() - i,
                {
                    if i > 0 {
                        append(&mut res, &chars_of(", "));
                    }
                    append(&mut res, &chars_of(entries[i].0.as_str()));
                    append(&mut res, &chars_of(": "));
                    proof {
                        assert(decreases_to!(*self => self->Dict_0));
                        assert(decreases_to!(*entries => entries@));
                        assert(decreases_to!(entries@ => entries@[i as int]));
                        assert(decreases_to!(entries@[i as int] => entries@[i as int].1));
                    }
                    let item = entries[i].1.to_output_string();
                    append(&mut res, &item);
                    proof {
                        let prev = models.take(i as int);
                        let next = models.take(i + 1);
                        assert(next.drop_last() =~= prev);
                        assert(next.last() == models[i as int]);
                        assert(res@ =~= seq!['{'] + render_entries(next));
                    }
                    i += 1;
                }
                proof {
                    assert(models.take(entries.len() as int) =~= models);
                }
                res.push('}');
                res
            },
        }
    }
}

impl Clone for DynamicValue {
    /// A copy of this value (see `duplicate`).
    fn clone(&self) -> (res: Self)
        ensures
            res.model() == self.model(),
    {
        self.duplicate()
    }
}

} // verus!
