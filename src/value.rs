use vstd::prelude::*;

verus! {

/// A document tree. Floating-point numbers are carried as their IEEE-754 bit
/// pattern; strings are raw bytes; object entries keep their stored order.
#[derive(Debug, PartialEq, Eq)]
pub enum Value {
    Null,
    Bool(bool),
    Int(i64),
    Float(u64),
    Str(Vec<u8>),
    Array(Vec<Value>),
    Object(Vec<(Vec<u8>, Value)>),
}

/// The mathematical model of a document tree.
pub enum Json {
    Null,
    Bool(bool),
    Int(i64),
    Float(u64),
    Str(Seq<u8>),
    Array(Seq<Json>),
    Object(Seq<(Seq<u8>, Json)>),
}

pub open spec fn json_of(v: Value) -> Json
    decreases v,
{
    match v {
        Value::Null => Json::Null,
        Value::Bool(b) => Json::Bool(b),
        Value::Int(i) => Json::Int(i),
        Value::Float(f) => Json::Float(f),
        Value::Str(s) => Json::Str(s@),
        Value::Array(vs) => Json::Array(
            Seq::new(vs.len() as nat, |i: int| if 0 <= i < vs.len() { json_of(vs[i]) } else { Json::Null }),
        ),
        Value::Object(es) => Json::Object(
            Seq::new(
                es.len() as nat,
                |i: int| if 0 <= i < es.len() { (es[i].0@, json_of(es[i].1)) } else { (Seq::empty(), Json::Null) },
            ),
        ),
    }
}

impl View for Value {
    type V = Json;

    open spec fn view(&self) -> Json {
        json_of(*self)
    }
}

/// The models of a sequence of values.
pub open spec fn views(vs: Seq<Value>) -> Seq<Json> {
    Seq::new(vs.len(), |i: int| vs[i]@)
}

/// The models of a sequence of object entries.
pub open spec fn entry_views(es: Seq<(Vec<u8>, Value)>) -> Seq<(Seq<u8>, Json)> {
    Seq::new(es.len(), |i: int| (es[i].0@, es[i].1@))
}

} // verus!
