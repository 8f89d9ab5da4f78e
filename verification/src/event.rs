//! Events and the receipt logs that they stand for.

use vstd::prelude::*;

use crate::primitives::{bytes_equal, hex_text, word_to_string};
use crate::record::{text_models, DebankEvent, EventModel, Log, LogModel};

verus! {

/// The selector of a log: its first topic as text, or nothing where it has no topics.
pub open spec fn selector_text(log: LogModel) -> Seq<char> {
    if log.topics.len() == 0 {
        Seq::empty()
    } else {
        hex_text(log.topics[0])
    }
}

/// The topics of a log behind its selector, as texts.
pub open spec fn topic_texts(log: LogModel) -> Seq<Seq<char>> {
    if log.topics.len() == 0 {
        Seq::empty()
    } else {
        Seq::new((log.topics.len() - 1) as nat, |i: int| hex_text(log.topics[i + 1]))
    }
}

/// The event and the log have the same emitter, selector, topics and data.
pub open spec fn matches_log(event: EventModel, log: LogModel) -> bool {
    &&& event.contract_id == log.address
    &&& event.selector == selector_text(log)
    &&& event.topics == topic_texts(log)
    &&& event.data == log.data
}

/// The comparison of the event with the log is defined: a log without topics has no list of
/// topics behind the selector, so the comparison must already fail at the emitter or the selector.
pub open spec fn comparable(event: EventModel, log: LogModel) -> bool {
    log.topics.len() == 0 ==> event.contract_id != log.address || event.selector.len() != 0
}

/// The index of a log in its block: the one that the node reports, else `fallback`.
pub open spec fn canonical_index(log: LogModel, fallback: int) -> int {
    match log.log_index {
        Some(index) => (index as usize) as int,
        None => fallback,
    }
}

/// The event for a log, without an identifier.
pub open spec fn log_event(
    log: LogModel,
    parent_trace_id: Seq<char>,
    pos_in_parent_trace: int,
    fallback_index: int,
) -> EventModel {
    EventModel {
        id: Seq::empty(),
        contract_id: log.address,
        selector: selector_text(log),
        topics: topic_texts(log),
        data: log.data,
        parent_trace_id,
        pos_in_parent_trace,
        idx: canonical_index(log, fallback_index),
    }
}

/// The first topic of a log as text, or nothing.
fn log_selector(log: &Log) -> (text: String)
    ensures
        text@ == selector_text(log@),
{
    if log.topics.len() == 0 {
        String::new()
    } else {
        word_to_string(&log.topics[0])
    }
}

/// The topics of a log behind its selector, as texts.
fn log_topics(log: &Log) -> (texts: Vec<String>)
    requires
        log.topics@.len() > 0,
    ensures
        text_models(texts@) == topic_texts(log@),
{
    let mut texts: Vec<String> = Vec::with_capacity(log.topics.len() - 1);
    let mut i: usize = 1;
    while i < log.topics.len()
        invariant
            1 <= i <= log.topics@.len(),
            texts@.len() == i - 1,
            forall|j: int| 0 <= j < i - 1 ==> (#[trigger] texts@[j])@ == hex_text(log@.topics[j + 1]),
        decreases log.topics@.len() - i,
    {
        texts.push(word_to_string(&log.topics[i]));
        i += 1;
    }
    assert(text_models(texts@) =~= topic_texts(log@));
    texts
}

/// Whether the topics behind the selector of a log are `texts`.
fn topics_equal(texts: &Vec<String>, log: &Log) -> (equal: bool)
    requires
        log.topics@.len() > 0,
    ensures
        equal == (text_models(texts@) == topic_texts(log@)),
{
    let expected = log_topics(log);
    let ghost left = text_models(texts@);
    let ghost right = text_models(expected@);
    if texts.len() != expected.len() {
        assert(left.len() != right.len());
        return false;
    }
    let mut i: usize = 0;
    while i < texts.len()
        invariant
            i <= texts@.len(),
            texts@.len() == expected@.len(),
            left == text_models(texts@),
            right == text_models(expected@),
            right == topic_texts(log@),
            forall|j: int| 0 <= j < i ==> left[j] == right[j],
        decreases texts@.len() - i,
    {
        if texts[i] != expected[i] {
            assert(left[i as int] != right[i as int]);
            return false;
        }
        i += 1;
    }
    assert(left =~= right);
    true
}

/// Whether the comparison of an event with a log is defined.
pub fn is_comparable(event: &DebankEvent, log: &Log) -> (defined: bool)
    ensures
        defined == comparable(event@, log@),
{
    log.topics.len() > 0 || !bytes_equal(&event.contract_id, &log.address)
        || !event.selector.as_str().is_empty()
}

/// Whether an event is the inspector's record of a receipt log.
pub fn event_matches_log(event: &DebankEvent, log: &Log) -> (matched: bool)
    requires
        comparable(event@, log@),
    ensures
        matched == matches_log(event@, log@),
{
    if !bytes_equal(&event.contract_id, &log.address) {
        return false;
    }
    if event.selector != log_selector(log) {
        return false;
    }
    assert(log@.topics.len() == 0 ==> event@.selector.len() == 0);
    topics_equal(&event.topics, log) && bytes_equal(&event.data, &log.data)
}

/// The event for a receipt log that no inspector saw. Its identifier is left empty.
pub fn receipt_log_to_event(
    log: &Log,
    parent_trace_id: String,
    pos_in_parent_trace: usize,
    fallback_index: usize,
) -> (event: DebankEvent)
    requires
        log.topics@.len() > 0,
    ensures
        event@ == log_event(
            log@,
            parent_trace_id@,
            pos_in_parent_trace as int,
            fallback_index as int,
        ),
{
    let idx: usize = match log.log_index {
        Some(index) => index as usize,
        None => fallback_index,
    };
    DebankEvent {
        id: String::new(),
        contract_id: log.address,
        selector: log_selector(log),
        topics: log_topics(log),
        data: log.data.clone(),
        parent_trace_id,
        pos_in_parent_trace,
        idx,
    }
}

} // verus!
