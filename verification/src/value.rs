//! The data model: six JSON-shaped variants and nothing else.
use vstd::prelude::*;
use crate::number::Number;
use crate::jsonlit::{json_quoted, json_string_encode};
use crate::text::push_char;

verus! {

/// The mathematical content of a value: what two documents must agree on to
/// hold the same data. Object entries keep their order and their duplicates.
pub ghost enum Json {
    Null,
    Bool(bool),
    Number(Seq<char>),
    Str(Seq<char>),
    Array(Seq<Json>),
    Object(Seq<(Seq<char>, Json)>),
}

/// A TJSON value.
#[derive(Debug, PartialEq)]
pub enum Value {
    Null,
    Bool(bool),
    Number(Number),
    String(String),
    Array(Vec<Value>),
    Object(Vec<Entry>),
}

/// One key-value pair of an object, in document order.
#[derive(Debug, PartialEq)]
pub struct Entry {
    pub key: String,
    pub value: Value,
}

impl Value {
    pub open spec fn model(self) -> Json
        decreases self,
    {
        match self {
            Value::Null => Json::Null,
            Value::Bool(b) => Json::Bool(b),
            Value::Number(n) => Json::Number(n.spelling()),
            Value::String(s) => Json::Str(s@),
            Value::Array(items) => Json::Array(Value::models(items@)),
            Value::Object(entries) => Json::Object(Value::entry_models(entries@)),
        }
    }

    pub open spec fn models(s: Seq<Value>) -> Seq<Json>
        decreases s,
    {
        if s.len() == 0 {
            Seq::empty()
        } else {
            Value::models(s.drop_last()).push(s.last().model())
        }
    }

    pub open spec fn entry_models(s: Seq<Entry>) -> Seq<(Seq<char>, Json)>
        decreases s,
    {
        if s.len() == 0 {
            Seq::empty()
        } else {
            Value::entry_models(s.drop_last()).push((s.last().key@, s.last().value.model()))
        }
    }
}

/// Compact JSON text for a model: no whitespace, entries and elements in order.
pub open spec fn json_text(m: Json) -> Seq<char>
    decreases m,
{
    match m {
        Json::Null => "null"@,
        Json::Bool(b) => if b { "true"@ } else { "false"@ },
        Json::Number(s) => s,
        Json::Str(s) => json_quoted(s),
        Json::Array(items) => seq!['['] + json_items(items) + seq![']'],
        Json::Object(entries) => seq!['{'] + json_entries(entries) + seq!['}'],
    }
}

pub open spec fn json_items(items: Seq<Json>) -> Seq<char>
    decreases items,
{
    if items.len() == 0 {
        Seq::empty()
    } else if items.len() == 1 {
        json_text(items[0])
    } else {
        json_items(items.drop_last()) + seq![','] + json_text(items.last())
    }
}

pub open spec fn json_entries(entries: Seq<(Seq<char>, Json)>) -> Seq<char>
    decreases entries,
{
    if entries.len() == 0 {
        Seq::empty()
    } else if entries.len() == 1 {
        json_quoted(entries[0].0) + seq![':'] + json_text(entries[0].1)
    } else {
        json_entries(entries.drop_last()) + seq![','] + json_quoted(entries.last().0) + seq![':']
            + json_text(entries.last().1)
    }
}

proof fn lemma_models_take(s: Seq<Value>, i: int)
    requires
        0 <= i < s.len(),
    ensures
        Value::models(s.take(i + 1)) == Value::models(s.take(i)).push(s[i].model()),
        Value::models(s.take(i)).len() == i,
{
    assert(s.take(i + 1).drop_last() =~= s.take(i));
    lemma_models_len(s.take(i));
}

proof fn lemma_models_len(s: Seq<Value>)
    ensures
        Value::models(s).len() == s.len(),
    decreases s.len(),
{
    if s.len() > 0 {
        lemma_models_len(s.drop_last());
    }
}

proof fn lemma_entry_models_take(s: Seq<Entry>, i: int)
    requires
        0 <= i < s.len(),
    ensures
        Value::entry_models(s.take(i + 1)) == Value::entry_models(s.take(i)).push((s[i].key@, s[i].value.model())),
        Value::entry_models(s.take(i)).len() == i,
{
    assert(s.take(i + 1).drop_last() =~= s.take(i));
    lemma_entry_models_len(s.take(i));
}

proof fn lemma_entry_models_len(s: Seq<Entry>)
    ensures
        Value::entry_models(s).len() == s.len(),
    decreases s.len(),
{
    if s.len() > 0 {
        lemma_entry_models_len(s.drop_last());
    }
}

impl Value {
    /// The value as compact JSON text.
    pub fn to_json(&self) -> (r: String)
        ensures
            r@ == json_text(self.model()),
        decreases self,
    {
        proof { broadcast use vstd::string::group_string_axioms; }
        match self {
            Value::Null => "null".to_string(),
            Value::Bool(b) => if *b { "true".to_string() } else { "false".to_string() },
            Value::Number(n) => n.as_str().to_string(),
            Value::String(s) => json_string_encode(s.as_str()),
            Value::Array(items) => {
                let mut out = String::new();
                push_char(&mut out, '[');
                let mut i: usize = 0;
                while i < items.len()
                    invariant
                        i <= items.len(),
                        out@ == seq!['['] + json_items(Value::models(items@.take(i as int))),
                        *self == Value::Array(*items),
                    decreases items.len() - i,
                {
                    proof {
                        lemma_models_take(items@, i as int);
                        vstd::std_specs::vec::axiom_vec_index_decreases(*items, i as int);
                        assert(decreases_to!(*self => (*self)->Array_0));
                        assert(decreases_to!(*items => items[i as int]));
                        assert(decreases_to!(*self => items[i as int]));
                    }
                    if i > 0 {
                        push_char(&mut out, ',');
                    }
                    let t = items[i].to_json();
                    out.append(t.as_str());
                    proof {
                        let m = Value::models(items@.take(i + 1));
                        if i == 0 {
                            assert(m.len() == 1);
                        } else {
                            assert(m.drop_last() =~= Value::models(items@.take(i as int)));
                        }
                    }
                    i += 1;
                }
                push_char(&mut out, ']');
                assert(items@.take(items.len() as int) =~= items@);
                out
            }
            Value::Object(entries) => {
                let mut out = String::new();
                push_char(&mut out, '{');
                let mut i: usize = 0;
                while i < entries.len()
                    invariant
                        i <= entries.len(),
                        out@ == seq!['{'] + json_entries(Value::entry_models(entries@.take(i as int))),
                        *self == Value::Object(*entries),
                    decreases entries.len() - i,
                {
                    proof {
                        lemma_entry_models_take(entries@, i as int);
                        vstd::std_specs::vec::axiom_vec_index_decreases(*entries, i as int);
                        assert(decreases_to!(*self => (*self)->Object_0));
                        assert(decreases_to!(*entries => entries[i as int]));
                        assert(decreases_to!(entries[i as int] => entries[i as int].value));
                        assert(decreases_to!(*self => entries[i as int].value));
                    }
                    if i > 0 {
                        push_char(&mut out, ',');
                    }
                    let k = json_string_encode(entries[i].key.as_str());
                    out.append(k.as_str());
                    push_char(&mut out, ':');
                    let t = entries[i].value.to_json();
                    out.append(t.as_str());
                    proof {
                        let m = Value::entry_models(entries@.take(i + 1));
                        if i == 0 {
                            assert(m.len() == 1);
                        } else {
                            assert(m.drop_last() =~= Value::entry_models(entries@.take(i as int)));
                        }
                    }
                    i += 1;
                }
                push_char(&mut out, '}');
                assert(entries@.take(entries.len() as int) =~= entries@);
                out
            }
        }
    }
}

} // verus!
