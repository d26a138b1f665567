//! Spans, their attributes, and the mathematical values that stand for them
//! in contracts.

use vstd::prelude::*;

verus! {

/// Identifier of a span inside a store: its position in creation order.
pub type SpanId = usize;

/// An attribute value as a span keeps it.
///
/// Every value is kept as text, except a floating-point number, which is kept
/// as its IEEE 754 bit pattern for the viewer to render.
#[derive(Debug)]
pub enum SpanValue {
    Text(String),
    Float(u64),
}

/// What a [`SpanValue`] holds.
pub enum AttrModel {
    Text(Seq<char>),
    Float(u64),
}

impl View for SpanValue {
    type V = AttrModel;

    open spec fn view(&self) -> AttrModel {
        match self {
            SpanValue::Text(s) => AttrModel::Text(s@),
            SpanValue::Float(bits) => AttrModel::Float(*bits),
        }
    }
}

/// What a list of attributes holds, pair by pair.
pub open spec fn attrs_view(attrs: Seq<(String, SpanValue)>) -> Seq<(Seq<char>, AttrModel)> {
    attrs.map_values(|p: (String, SpanValue)| (p.0@, p.1@))
}

/// A point event attached to a span, or to the store when it has no parent.
#[derive(Debug)]
pub struct SpanEvent {
    pub ts: u64,
    pub values: Vec<(String, SpanValue)>,
}

/// What a [`SpanEvent`] holds.
pub struct EventModel {
    pub ts: u64,
    pub values: Seq<(Seq<char>, AttrModel)>,
}

impl View for SpanEvent {
    type V = EventModel;

    open spec fn view(&self) -> EventModel {
        EventModel { ts: self.ts, values: attrs_view(self.values@) }
    }
}

/// What a list of events holds.
pub open spec fn events_view(events: Seq<SpanEvent>) -> Seq<EventModel> {
    events.map_values(|e: SpanEvent| e@)
}

/// One timed scope.
#[derive(Debug)]
pub struct Span {
    /// The span this one was started under, if any.
    pub parent: Option<SpanId>,
    /// Start timestamp in nanoseconds.
    pub start: u64,
    pub target: String,
    pub name: String,
    /// Attributes in the order in which the record listed them.
    pub values: Vec<(String, SpanValue)>,
    /// Closed intervals `(start, end)` during which the span was innermost on
    /// some thread.
    pub self_time: Vec<(u64, u64)>,
    /// Children in creation order.
    pub children: Vec<SpanId>,
    pub events: Vec<SpanEvent>,
    /// Cached: total length of `self_time`.
    pub exclusive_time: u64,
    /// Cached: `exclusive_time` plus the inclusive time of every child.
    pub inclusive_time: u64,
    /// Cached: number of children.
    pub child_count: usize,
}

/// What a [`Span`] holds.
pub struct SpanModel {
    pub parent: Option<SpanId>,
    pub start: u64,
    pub target: Seq<char>,
    pub name: Seq<char>,
    pub values: Seq<(Seq<char>, AttrModel)>,
    pub self_time: Seq<(u64, u64)>,
    pub children: Seq<SpanId>,
    pub events: Seq<EventModel>,
    pub exclusive_time: u64,
    pub inclusive_time: u64,
    pub child_count: usize,
}

impl View for Span {
    type V = SpanModel;

    open spec fn view(&self) -> SpanModel {
        SpanModel {
            parent: self.parent,
            start: self.start,
            target: self.target@,
            name: self.name@,
            values: attrs_view(self.values@),
            self_time: self.self_time@,
            children: self.children@,
            events: events_view(self.events@),
            exclusive_time: self.exclusive_time,
            inclusive_time: self.inclusive_time,
            child_count: self.child_count,
        }
    }
}

/// What a list of spans holds.
pub open spec fn spans_view(spans: Seq<Span>) -> Seq<SpanModel> {
    spans.map_values(|s: Span| s@)
}

/// Length of one self-time interval; an interval that ends before it starts
/// counts as empty.
pub open spec fn interval_len(interval: (u64, u64)) -> nat {
    if interval.1 >= interval.0 {
        (interval.1 - interval.0) as nat
    } else {
        0
    }
}

/// Total length of a list of self-time intervals.
pub open spec fn intervals_total(intervals: Seq<(u64, u64)>) -> nat
    decreases intervals.len(),
{
    if intervals.len() == 0 {
        0
    } else {
        intervals_total(intervals.drop_last()) + interval_len(intervals.last())
    }
}

/// A duration as a 64-bit counter holds it: exact up to `u64::MAX`, and
/// `u64::MAX` beyond.
pub open spec fn clamp(total: nat) -> u64 {
    if total <= u64::MAX {
        total as u64
    } else {
        u64::MAX
    }
}

} // verus!
