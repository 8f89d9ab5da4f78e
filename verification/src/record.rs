//! The records of a transaction's trace, and their mathematical models.
//!
//! Text is modelled by its characters, numbers by integers, lists by sequences.

use vstd::prelude::*;

use crate::primitives::{Address, B256};

verus! {

/// One log of a canonical receipt.
#[derive(Clone, Debug, PartialEq, Eq)]
pub struct Log {
    pub address: Address,
    pub topics: Vec<B256>,
    pub data: Vec<u8>,
    /// The position of the log in its block, where the node reports it.
    pub log_index: Option<u64>,
}

/// The model of a [`Log`].
#[verifier::ext_equal]
pub struct LogModel {
    pub address: Seq<u8>,
    pub topics: Seq<Seq<u8>>,
    pub data: Seq<u8>,
    pub log_index: Option<u64>,
}

impl View for Log {
    type V = LogModel;

    open spec fn view(&self) -> LogModel {
        LogModel {
            address: self.address@,
            topics: Seq::new(self.topics@.len(), |i: int| self.topics@[i]@),
            data: self.data@,
            log_index: self.log_index,
        }
    }
}

/// The models of a list of logs.
pub open spec fn log_models(logs: Seq<Log>) -> Seq<LogModel> {
    Seq::new(logs.len(), |i: int| logs[i]@)
}

/// One call frame of a transaction.
///
/// `rest` carries whatever else is known of the frame; nothing here reads it.
#[derive(Clone, Debug, PartialEq, Eq)]
pub struct DebankTrace<T> {
    pub id: String,
    pub tx_id: String,
    pub parent_trace_id: String,
    pub pos_in_parent_trace: usize,
    /// The path of the frame from the root; the root's own path is empty.
    pub trace_address: Vec<usize>,
    pub storage_change: bool,
    pub rest: T,
}

/// The model of a [`DebankTrace`].
#[verifier::ext_equal]
pub struct TraceModel<T> {
    pub id: Seq<char>,
    pub tx_id: Seq<char>,
    pub parent_trace_id: Seq<char>,
    pub pos_in_parent_trace: int,
    pub trace_address: Seq<usize>,
    pub storage_change: bool,
    pub rest: T,
}

impl<T> View for DebankTrace<T> {
    type V = TraceModel<T>;

    open spec fn view(&self) -> TraceModel<T> {
        TraceModel {
            id: self.id@,
            tx_id: self.tx_id@,
            parent_trace_id: self.parent_trace_id@,
            pos_in_parent_trace: self.pos_in_parent_trace as int,
            trace_address: self.trace_address@,
            storage_change: self.storage_change,
            rest: self.rest,
        }
    }
}

impl<T: Default> Default for DebankTrace<T> {
    fn default() -> (trace: Self)
        ensures
            trace.id@.len() == 0,
            trace.tx_id@.len() == 0,
            trace.parent_trace_id@.len() == 0,
            trace.pos_in_parent_trace == 0,
            trace.trace_address@.len() == 0,
            !trace.storage_change,
            call_ensures(T::default, (), trace.rest),
    {
        DebankTrace {
            id: String::new(),
            tx_id: String::new(),
            parent_trace_id: String::new(),
            pos_in_parent_trace: 0,
            trace_address: Vec::new(),
            storage_change: false,
            rest: T::default(),
        }
    }
}

/// The models of a list of frames.
pub open spec fn trace_models<T>(traces: Seq<DebankTrace<T>>) -> Seq<TraceModel<T>> {
    Seq::new(traces.len(), |i: int| traces[i]@)
}

/// One event that a frame emitted.
#[derive(Clone, Debug, PartialEq, Eq)]
pub struct DebankEvent {
    pub id: String,
    pub contract_id: Address,
    pub selector: String,
    pub topics: Vec<String>,
    pub data: Vec<u8>,
    pub parent_trace_id: String,
    pub pos_in_parent_trace: usize,
    /// The position of the event among the logs of its block.
    pub idx: usize,
}

/// The model of a [`DebankEvent`].
#[verifier::ext_equal]
pub struct EventModel {
    pub id: Seq<char>,
    pub contract_id: Seq<u8>,
    pub selector: Seq<char>,
    pub topics: Seq<Seq<char>>,
    pub data: Seq<u8>,
    pub parent_trace_id: Seq<char>,
    pub pos_in_parent_trace: int,
    pub idx: int,
}

impl View for DebankEvent {
    type V = EventModel;

    open spec fn view(&self) -> EventModel {
        EventModel {
            id: self.id@,
            contract_id: self.contract_id@,
            selector: self.selector@,
            topics: text_models(self.topics@),
            data: self.data@,
            parent_trace_id: self.parent_trace_id@,
            pos_in_parent_trace: self.pos_in_parent_trace as int,
            idx: self.idx as int,
        }
    }
}

impl Default for DebankEvent {
    fn default() -> (event: Self)
        ensures
            event@ == (EventModel {
                id: Seq::empty(),
                contract_id: Seq::new(20, |i: int| 0u8),
                selector: Seq::empty(),
                topics: Seq::empty(),
                data: Seq::empty(),
                parent_trace_id: Seq::empty(),
                pos_in_parent_trace: 0,
                idx: 0,
            }),
    {
        DebankEvent {
            id: String::new(),
            contract_id: [0u8; 20],
            selector: String::new(),
            topics: Vec::new(),
            data: Vec::new(),
            parent_trace_id: String::new(),
            pos_in_parent_trace: 0,
            idx: 0,
        }
    }
}

/// The models of a list of texts.
pub open spec fn text_models(texts: Seq<String>) -> Seq<Seq<char>> {
    Seq::new(texts.len(), |i: int| texts[i]@)
}

/// The models of a list of events.
pub open spec fn event_models(events: Seq<DebankEvent>) -> Seq<EventModel> {
    Seq::new(events.len(), |i: int| events[i]@)
}

/// The trace of one transaction: its frames, its reverted frames, its events and its reverted
/// events.
pub type TraceEntry<T> = (
    Vec<DebankTrace<T>>,
    Vec<DebankTrace<T>>,
    Vec<DebankEvent>,
    Vec<DebankEvent>,
);

/// The model of a [`TraceEntry`].
#[verifier::ext_equal]
pub struct Entry<T> {
    pub traces: Seq<TraceModel<T>>,
    pub error_traces: Seq<TraceModel<T>>,
    pub events: Seq<EventModel>,
    pub error_events: Seq<EventModel>,
}

/// The model of a trace entry.
pub open spec fn entry_model<T>(entry: TraceEntry<T>) -> Entry<T> {
    Entry {
        traces: trace_models(entry.0@),
        error_traces: trace_models(entry.1@),
        events: event_models(entry.2@),
        error_events: event_models(entry.3@),
    }
}

impl<T> Entry<T> {
    /// All frames of the entry, the reverted ones last.
    pub open spec fn all_traces(self) -> Seq<TraceModel<T>> {
        self.traces + self.error_traces
    }
}

/// How many logs of a receipt stand before and behind those of the main execution.
#[derive(Clone, Copy, Debug, PartialEq, Eq)]
pub struct Cip64LogSplit {
    pub pre: usize,
    pub post: usize,
}

/// The identifiers of records, as functions of the records.
#[verifier::reject_recursive_types(T)]
pub struct Ids<T> {
    pub trace: spec_fn(TraceModel<T>) -> Seq<char>,
    pub event: spec_fn(EventModel) -> Seq<char>,
}

/// `trace_id` and `event_id` return the identifiers that `ids` describes.
pub open spec fn computes_ids<T, F, G>(trace_id: &F, event_id: &G, ids: Ids<T>) -> bool where
    F: Fn(&DebankTrace<T>) -> String,
    G: Fn(&DebankEvent) -> String,
 {
    &&& forall|trace: &DebankTrace<T>, id: String|
        call_ensures(trace_id, (trace,), id) ==> id@ == (ids.trace)(trace@)
    &&& forall|event: &DebankEvent, id: String|
        call_ensures(event_id, (event,), id) ==> id@ == (ids.event)(event@)
}

/// `trace_id` and `event_id` can be asked for the identifier of any record, and what they return
/// depends on the record alone.
pub open spec fn is_id_scheme<T, F, G>(trace_id: &F, event_id: &G) -> bool where
    F: Fn(&DebankTrace<T>) -> String,
    G: Fn(&DebankEvent) -> String,
 {
    &&& forall|trace: &DebankTrace<T>| call_requires(trace_id, (trace,))
    &&& forall|event: &DebankEvent| call_requires(event_id, (event,))
    &&& exists|ids: Ids<T>| computes_ids(trace_id, event_id, ids)
}

} // verus!
