//! The values that travel over the wire, with their mathematical model.
use vstd::prelude::*;

verus! {

/// A BSER value held in memory. A real number is held as the bit pattern
/// of its IEEE-754 double.
#[derive(Debug, PartialEq)]
pub enum Value {
    Null,
    Bool(bool),
    Int(i64),
    Real(u64),
    Bytes(Vec<u8>),
    Array(Vec<Value>),
    Object(Vec<(Vec<u8>, Value)>),
}

/// The mathematical model of a `Value`.
pub enum Model {
    Null,
    Bool(bool),
    Int(int),
    Real(u64),
    Bytes(Seq<u8>),
    Array(Seq<Model>),
    Object(Seq<(Seq<u8>, Model)>),
}

pub open spec fn model_of(v: &Value) -> Model
    decreases v,
{
    match v {
        Value::Null => Model::Null,
        Value::Bool(b) => Model::Bool(*b),
        Value::Int(i) => Model::Int(*i as int),
        Value::Real(r) => Model::Real(*r),
        Value::Bytes(b) => Model::Bytes(b@),
        Value::Array(a) => Model::Array(Seq::new(a.len() as nat, |i: int| if 0 <= i < a.len() { model_of(&a[i]) } else { Model::Null })),
        Value::Object(o) => Model::Object(Seq::new(o.len() as nat, |i: int| if 0 <= i < o.len() { (o[i].0@, model_of(&o[i].1)) } else { (Seq::empty(), Model::Null) })),
    }
}

impl View for Value {
    type V = Model;

    open spec fn view(&self) -> Model {
        model_of(self)
    }
}

/// The models of the values `vs`.
pub open spec fn values_model(vs: Seq<Value>) -> Seq<Model> {
    Seq::new(vs.len(), |i: int| vs[i]@)
}

/// The models of the entries `es`.
pub open spec fn entries_model(es: Seq<(Vec<u8>, Value)>) -> Seq<(Seq<u8>, Model)> {
    Seq::new(es.len(), |i: int| (es[i].0@, es[i].1@))
}

pub proof fn lemma_array_view(items: Vec<Value>)
    ensures
        Value::Array(items)@ == Model::Array(values_model(items@)),
{
    let v = Value::Array(items);
    assert(v@->Array_0 =~= values_model(items@));
}

pub proof fn lemma_object_view(entries: Vec<(Vec<u8>, Value)>)
    ensures
        Value::Object(entries)@ == Model::Object(entries_model(entries@)),
{
    let v = Value::Object(entries);
    assert(v@->Object_0 =~= entries_model(entries@));
}

} // verus!
