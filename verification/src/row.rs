//! Trace records as the producer writes them, and the attribute values
//! they carry.

use vstd::prelude::*;
use crate::span::{attrs_view, AttrModel, SpanValue};
use crate::text::{bool_text, bool_to_text, decimal, i64_to_text, signed_decimal, u64_to_text};

verus! {

/// An attribute value of a record.
#[derive(Debug)]
pub enum TraceValue {
    String(String),
    Bool(bool),
    UInt(u64),
    Int(i64),
    /// A floating-point number, held as its IEEE 754 bit pattern.
    Float(u64),
}

/// What a [`TraceValue`] holds.
pub enum ValueModel {
    String(Seq<char>),
    Bool(bool),
    UInt(u64),
    Int(i64),
    Float(u64),
}

impl View for TraceValue {
    type V = ValueModel;

    open spec fn view(&self) -> ValueModel {
        match self {
            TraceValue::String(s) => ValueModel::String(s@),
            TraceValue::Bool(b) => ValueModel::Bool(*b),
            TraceValue::UInt(n) => ValueModel::UInt(*n),
            TraceValue::Int(i) => ValueModel::Int(*i),
            TraceValue::Float(bits) => ValueModel::Float(*bits),
        }
    }
}

/// What a list of record attributes holds, pair by pair.
pub open spec fn values_view(values: Seq<(String, TraceValue)>) -> Seq<(Seq<char>, ValueModel)> {
    values.map_values(|p: (String, TraceValue)| (p.0@, p.1@))
}

/// One record of the trace.
///
/// `id` and `parent` are the producer's ids, which it may use again once the
/// span they named has ended.
#[derive(Debug)]
pub enum TraceRow {
    /// A span was created.
    Start {
        ts: u64,
        id: u64,
        parent: Option<u64>,
        name: String,
        target: String,
        values: Vec<(String, TraceValue)>,
    },
    /// A span ended; its id is free again.
    End { ts: u64, id: u64 },
    /// A thread went into a span.
    Enter { ts: u64, id: u64, thread_id: u64 },
    /// A thread left a span.
    Exit { ts: u64, id: u64, thread_id: u64 },
    /// Something happened at one moment, inside a span or outside all.
    Event { ts: u64, parent: Option<u64>, values: Vec<(String, TraceValue)> },
}

/// What a [`TraceRow`] holds.
pub enum RowModel {
    Start {
        ts: u64,
        id: u64,
        parent: Option<u64>,
        name: Seq<char>,
        target: Seq<char>,
        values: Seq<(Seq<char>, ValueModel)>,
    },
    End { ts: u64, id: u64 },
    Enter { ts: u64, id: u64, thread_id: u64 },
    Exit { ts: u64, id: u64, thread_id: u64 },
    Event { ts: u64, parent: Option<u64>, values: Seq<(Seq<char>, ValueModel)> },
}

impl View for TraceRow {
    type V = RowModel;

    open spec fn view(&self) -> RowModel {
        match self {
            TraceRow::Start { ts, id, parent, name, target, values } => RowModel::Start {
                ts: *ts,
                id: *id,
                parent: *parent,
                name: name@,
                target: target@,
                values: values_view(values@),
            },
            TraceRow::End { ts, id } => RowModel::End { ts: *ts, id: *id },
            TraceRow::Enter { ts, id, thread_id } => RowModel::Enter {
                ts: *ts,
                id: *id,
                thread_id: *thread_id,
            },
            TraceRow::Exit { ts, id, thread_id } => RowModel::Exit {
                ts: *ts,
                id: *id,
                thread_id: *thread_id,
            },
            TraceRow::Event { ts, parent, values } => RowModel::Event {
                ts: *ts,
                parent: *parent,
                values: values_view(values@),
            },
        }
    }
}

/// What a list of records holds.
pub open spec fn rows_view(rows: Seq<TraceRow>) -> Seq<RowModel> {
    rows.map_values(|r: TraceRow| r@)
}

/// The attribute value that a span keeps for a record's value: text stays,
/// booleans and integers are written out, a float stays a bit pattern.
pub open spec fn render(value: ValueModel) -> AttrModel {
    match value {
        ValueModel::String(s) => AttrModel::Text(s),
        ValueModel::Bool(b) => AttrModel::Text(bool_text(b)),
        ValueModel::UInt(n) => AttrModel::Text(decimal(n as nat)),
        ValueModel::Int(i) => AttrModel::Text(signed_decimal(i as int)),
        ValueModel::Float(bits) => AttrModel::Float(bits),
    }
}

/// The attributes that a span keeps for a record's attributes.
pub open spec fn render_all(values: Seq<(Seq<char>, ValueModel)>) -> Seq<(Seq<char>, AttrModel)> {
    values.map_values(|p: (Seq<char>, ValueModel)| (p.0, render(p.1)))
}

/// Renders one attribute value for a span.
pub fn render_value(value: &TraceValue) -> (rendered: SpanValue)
    ensures
        rendered@ == render(value@),
{
    match value {
        TraceValue::String(s) => SpanValue::Text(s.clone()),
        TraceValue::Bool(b) => SpanValue::Text(bool_to_text(*b)),
        TraceValue::UInt(n) => SpanValue::Text(u64_to_text(*n)),
        TraceValue::Int(i) => SpanValue::Text(i64_to_text(*i)),
        TraceValue::Float(bits) => SpanValue::Float(*bits),
    }
}

/// Renders the attributes of a record for a span, keeping their order.
pub fn render_values(values: &Vec<(String, TraceValue)>) -> (rendered: Vec<(String, SpanValue)>)
    ensures
        attrs_view(rendered@) == render_all(values_view(values@)),
{
    let mut rendered: Vec<(String, SpanValue)> = Vec::new();
    let mut i: usize = 0;
    while i < values.len()
        invariant
            i <= values.len(),
            rendered.len() == i,
            forall|j: int|
                0 <= j < i ==> (#[trigger] rendered[j]).0@ == values[j].0@ && rendered[j].1@ == render(
                    values[j].1@,
                ),
        decreases values.len() - i,
    {
        let key = values[i].0.clone();
        let value = render_value(&values[i].1);
        rendered.push((key, value));
        i += 1;
    }
    assert(attrs_view(rendered@) =~= render_all(values_view(values@)));
    rendered
}

} // verus!
