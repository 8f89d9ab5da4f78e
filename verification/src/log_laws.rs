//! What logs, events and texts say of each other, field by field.

use vstd::prelude::*;

use crate::event::{
    canonical_index, event_matches_log, log_event, matches_log, receipt_log_to_event,
    selector_text, topic_texts,
};
use crate::primitives::{bytes_equal, count_to_string, decimal_text, hex_digit, hex_text};
use crate::record::{DebankEvent, DebankTrace, EventModel, Log, LogModel};

verus! {

/// The value of a lower-case hexadecimal digit; negative for any other character.
pub open spec fn digit_value(digit: char) -> int {
    if '0' <= digit <= '9' {
        digit as int - '0' as int
    } else if 'a' <= digit <= 'f' {
        digit as int - 'a' as int + 10
    } else {
        -1
    }
}

/// The text is `0x` and then two digits for each byte, which together have the byte's value.
pub open spec fn writes_bytes(text: Seq<char>, bytes: Seq<u8>) -> bool {
    &&& text.len() == 2 + 2 * bytes.len()
    &&& text[0] == '0'
    &&& text[1] == 'x'
    &&& forall|k: int|
        0 <= k < bytes.len() ==> {
            &&& 0 <= digit_value(text[2 + 2 * k]) < 16
            &&& 0 <= digit_value(text[3 + 2 * k]) < 16
            &&& digit_value(text[2 + 2 * k]) * 16 + digit_value(text[3 + 2 * k])
                == #[trigger] bytes[k]
        }
}

/// Digits have the values that they are made for, and no two have one value.
proof fn lemma_digits(n: int)
    requires
        0 <= n < 16,
    ensures
        digit_value(hex_digit(n)) == n,
        forall|digit: char| #[trigger] digit_value(digit) == n ==> digit == hex_digit(n),
{
}

/// The text of a byte string is the only one that writes its bytes.
pub proof fn law_hex_text(bytes: Seq<u8>)
    ensures
        writes_bytes(hex_text(bytes), bytes),
        forall|text: Seq<char>| #[trigger] writes_bytes(text, bytes) ==> text == hex_text(bytes),
{
    let own = hex_text(bytes);
    assert forall|k: int| 0 <= k < bytes.len() implies {
        &&& 0 <= digit_value(own[2 + 2 * k]) < 16
        &&& 0 <= digit_value(own[3 + 2 * k]) < 16
        &&& digit_value(own[2 + 2 * k]) * 16 + digit_value(own[3 + 2 * k]) == #[trigger] bytes[k]
    } by {
        lemma_digits(bytes[k] as int / 16);
        lemma_digits(bytes[k] as int % 16);
        assert((2 + 2 * k - 2) / 2 == k);
        assert((3 + 2 * k - 2) / 2 == k);
    }
    assert forall|text: Seq<char>| #[trigger] writes_bytes(text, bytes) implies text == own by {
        assert forall|i: int| 0 <= i < text.len() implies text[i] == own[i] by {
            if i >= 2 {
                let k = (i - 2) / 2;
                let byte = bytes[k];
                lemma_digits(byte as int / 16);
                lemma_digits(byte as int % 16);
                let high = digit_value(text[2 + 2 * k]);
                let low = digit_value(text[3 + 2 * k]);
                assert(high == byte as int / 16 && low == byte as int % 16);
                assert(i == 2 + 2 * k || i == 3 + 2 * k);
            }
        }
        assert(text =~= own);
    }
}

/// The number that decimal digits write, the most significant first.
pub open spec fn decimal_value(digits: Seq<char>) -> int
    decreases digits.len(),
{
    if digits.len() == 0 {
        0
    } else {
        10 * decimal_value(digits.drop_last()) + digit_value(digits.last())
    }
}

/// The decimal text of a number is made of decimal digits, has no leading zero, and writes the
/// number.
pub proof fn law_decimal_text(n: nat)
    ensures
        decimal_text(n).len() > 0,
        decimal_text(n)[0] == '0' ==> decimal_text(n).len() == 1,
        forall|i: int|
            0 <= i < decimal_text(n).len() ==> '0' <= #[trigger] decimal_text(n)[i] <= '9',
        decimal_value(decimal_text(n)) == n,
    decreases n,
{
    reveal_with_fuel(decimal_value, 2);
    let text = decimal_text(n);
    if n < 10 {
        lemma_digits(n as int);
        assert(text.drop_last() =~= Seq::empty());
    } else {
        law_decimal_text(n / 10);
        let front = decimal_text(n / 10);
        lemma_digits(n as int % 10);
        assert(text.drop_last() =~= front);
        assert(forall|i: int| 0 <= i < front.len() ==> text[i] == #[trigger] front[i]);
        if front.len() == 1 && front[0] == '0' {
            assert(front.drop_last() =~= Seq::empty());
            assert(decimal_value(front) == 0);
        }
    }
}

/// `count_to_string` writes the number in decimal.
pub proof fn law_count_to_string(count: usize, text: String)
    requires
        call_ensures(count_to_string, (count,), text),
    ensures
        text@.len() > 0,
        text@[0] == '0' ==> text@.len() == 1,
        forall|i: int| 0 <= i < text@.len() ==> '0' <= #[trigger] text@[i] <= '9',
        decimal_value(text@) == count,
{
    law_decimal_text(count as nat);
}

/// `bytes_equal` holds of byte strings that have the same bytes at the same places.
pub proof fn law_bytes_equal(left: &[u8], right: &[u8], equal: bool)
    requires
        call_ensures(bytes_equal, (left, right), equal),
    ensures
        equal <==> left@.len() == right@.len() && forall|i: int|
            0 <= i < left@.len() ==> left@[i] == right@[i],
{
    assert(equal ==> left@ == right@);
    if left@.len() == right@.len() && forall|i: int|
        0 <= i < left@.len() ==> left@[i] == right@[i] {
        assert(left@ =~= right@);
    }
}

/// The event says what the log says: the same emitter, the first topic as its selector, the other
/// topics in their order, and the same data. A log without topics has an empty selector.
pub open spec fn stands_for(event: EventModel, log: LogModel) -> bool {
    let n = log.topics.len();
    &&& event.contract_id == log.address
    &&& if n == 0 {
        event.selector.len() == 0 && event.topics.len() == 0
    } else {
        &&& writes_bytes(event.selector, log.topics[0])
        &&& event.topics.len() == n - 1
        &&& forall|k: int|
            1 <= k < n ==> writes_bytes(event.topics[k - 1], #[trigger] log.topics[k])
    }
    &&& event.data == log.data
}

/// An event matches a log exactly where it says what the log says.
pub proof fn law_match_compares_everything(event: EventModel, log: LogModel)
    ensures
        matches_log(event, log) <==> stands_for(event, log),
{
    let n = log.topics.len();
    if n > 0 {
        law_hex_text(log.topics[0]);
        assert forall|k: int| 1 <= k < n implies (writes_bytes(
            event.topics[k - 1],
            #[trigger] log.topics[k],
        ) <==> event.topics[k - 1] == hex_text(log.topics[k])) by {
            law_hex_text(log.topics[k]);
        }
        let texts = topic_texts(log);
        if matches_log(event, log) {
            assert forall|k: int| 1 <= k < n implies writes_bytes(
                event.topics[k - 1],
                #[trigger] log.topics[k],
            ) by {
                assert(texts[k - 1] == hex_text(log.topics[k]));
            }
        }
        if stands_for(event, log) {
            assert forall|i: int| 0 <= i < texts.len() implies event.topics[i] == texts[i] by {
                assert(writes_bytes(event.topics[i + 1 - 1], log.topics[i + 1]));
            }
            assert(event.topics =~= texts);
        }
    } else {
        assert(selector_text(log) =~= Seq::empty());
        assert(topic_texts(log) =~= Seq::empty());
        if stands_for(event, log) {
            assert(event.selector =~= selector_text(log));
            assert(event.topics =~= topic_texts(log));
        }
    }
}

/// The index of a log: the one that the node reports, else its place behind `start`.
pub open spec fn index_of_log(log: LogModel, start: int, place: int) -> int {
    match log.log_index {
        Some(index) => (index as usize) as int,
        None => start + place,
    }
}

/// The event that is made for a log says what the log says. It has the parent and the position that
/// it is given, the index of the log, and no identifier yet.
pub proof fn law_event_made_for_log(log: LogModel, parent: Seq<char>, position: int, fallback: int)
    ensures
        ({
            let event = log_event(log, parent, position, fallback);
            &&& stands_for(event, log)
            &&& event.parent_trace_id == parent
            &&& event.pos_in_parent_trace == position
            &&& event.idx == index_of_log(log, fallback, 0)
            &&& event.id.len() == 0
        }),
{
    let event = log_event(log, parent, position, fallback);
    law_match_compares_everything(event, log);
    assert(matches_log(event, log));
}

/// A reported index counts, whatever the fallback is.
pub proof fn law_reported_index_counts(log: LogModel, start: int, place: int)
    ensures
        canonical_index(log, start + place) == index_of_log(log, start, place),
{
}

/// The model of a log has its fields.
pub proof fn law_log_model(log: Log)
    ensures
        log@.address == log.address@,
        log@.topics.len() == log.topics@.len(),
        forall|k: int| 0 <= k < log.topics@.len() ==> #[trigger] log@.topics[k] == log.topics@[k]@,
        log@.data == log.data@,
        log@.log_index == log.log_index,
{
}

/// The model of an event has its fields.
pub proof fn law_event_model(event: DebankEvent)
    ensures
        event@.id == event.id@,
        event@.contract_id == event.contract_id@,
        event@.selector == event.selector@,
        event@.topics.len() == event.topics@.len(),
        forall|k: int|
            0 <= k < event.topics@.len() ==> #[trigger] event@.topics[k] == event.topics@[k]@,
        event@.data == event.data@,
        event@.parent_trace_id == event.parent_trace_id@,
        event@.pos_in_parent_trace == event.pos_in_parent_trace,
        event@.idx == event.idx,
{
}

/// The model of a frame has its fields.
pub proof fn law_trace_model<T>(trace: DebankTrace<T>)
    ensures
        trace@.id == trace.id@,
        trace@.tx_id == trace.tx_id@,
        trace@.parent_trace_id == trace.parent_trace_id@,
        trace@.pos_in_parent_trace == trace.pos_in_parent_trace,
        trace@.trace_address == trace.trace_address@,
        trace@.storage_change == trace.storage_change,
        trace@.rest == trace.rest,
{
}

/// `event_matches_log` holds where emitter, selector, every topic behind the selector, and the data
/// agree, and nowhere else.
pub proof fn law_event_matches_log(event: &DebankEvent, log: &Log, matched: bool)
    requires
        call_ensures(event_matches_log, (event, log), matched),
        log.topics@.len() > 0,
    ensures
        matched <==> {
            &&& event.contract_id@ == log.address@
            &&& writes_bytes(event.selector@, log.topics@[0]@)
            &&& event.topics@.len() == log.topics@.len() - 1
            &&& forall|k: int|
                1 <= k < log.topics@.len() ==> writes_bytes(
                    event.topics@[k - 1]@,
                    #[trigger] log.topics@[k]@,
                )
            &&& event.data@ == log.data@
        },
{
    law_match_compares_everything(event@, log@);
    let n = log.topics@.len();
    assert(log@.topics[0] == log.topics@[0]@);
    if matched {
        assert forall|k: int| 1 <= k < n implies writes_bytes(
            event.topics@[k - 1]@,
            #[trigger] log.topics@[k]@,
        ) by {
            assert(writes_bytes(event@.topics[k - 1], log@.topics[k]));
            assert(event@.topics[k - 1] == event.topics@[k - 1]@);
        }
    }
    if event.topics@.len() == n - 1 && forall|k: int|
        1 <= k < n ==> writes_bytes(event.topics@[k - 1]@, #[trigger] log.topics@[k]@) {
        assert forall|k: int| 1 <= k < n implies writes_bytes(
            event@.topics[k - 1],
            #[trigger] log@.topics[k],
        ) by {
            assert(log@.topics[k] == log.topics@[k]@);
            assert(event@.topics[k - 1] == event.topics@[k - 1]@);
        }
    }
}

/// `receipt_log_to_event` keeps every field of the log: an event for a log with n topics has n - 1,
/// and each of them writes the log's next one.
pub proof fn law_receipt_log_to_event(
    log: &Log,
    parent_trace_id: String,
    pos_in_parent_trace: usize,
    fallback_index: usize,
    event: DebankEvent,
)
    requires
        call_ensures(
            receipt_log_to_event,
            (log, parent_trace_id, pos_in_parent_trace, fallback_index),
            event,
        ),
        log.topics@.len() > 0,
    ensures
        event.contract_id@ == log.address@,
        writes_bytes(event.selector@, log.topics@[0]@),
        event.topics@.len() == log.topics@.len() - 1,
        forall|k: int|
            1 <= k < log.topics@.len() ==> writes_bytes(
                event.topics@[k - 1]@,
                #[trigger] log.topics@[k]@,
            ),
        event.data@ == log.data@,
        event.parent_trace_id@ == parent_trace_id@,
        event.pos_in_parent_trace == pos_in_parent_trace,
        event.idx == match log.log_index {
            Some(index) => index as usize,
            None => fallback_index,
        },
        event.id@.len() == 0,
{
    law_event_made_for_log(
        log@,
        parent_trace_id@,
        pos_in_parent_trace as int,
        fallback_index as int,
    );
    let n = log.topics@.len();
    assert(event@.id.len() == 0);
    assert(log@.topics[0] == log.topics@[0]@);
    assert forall|k: int| 1 <= k < n implies writes_bytes(
        event.topics@[k - 1]@,
        #[trigger] log.topics@[k]@,
    ) by {
        assert(writes_bytes(event@.topics[k - 1], log@.topics[k]));
        assert(event@.topics[k - 1] == event.topics@[k - 1]@);
    }
}

/// A default event says nothing and stands nowhere.
pub proof fn law_default_event(event: DebankEvent)
    requires
        call_ensures(<DebankEvent as Default>::default, (), event),
    ensures
        event.id@.len() == 0,
        forall|k: int| 0 <= k < 20 ==> #[trigger] event.contract_id@[k] == 0,
        event.selector@.len() == 0,
        event.topics@.len() == 0,
        event.data@.len() == 0,
        event.parent_trace_id@.len() == 0,
        event.pos_in_parent_trace == 0,
        event.idx == 0,
{
    assert(event@.topics.len() == 0);
    assert(event@.contract_id.len() == 20);
    assert forall|k: int| 0 <= k < 20 implies #[trigger] event.contract_id@[k] == 0 by {
        assert(event@.contract_id[k] == 0);
    }
}

/// A default frame stands nowhere and changes no storage.
pub proof fn law_default_trace<T: Default>(trace: DebankTrace<T>)
    requires
        call_ensures(<DebankTrace<T> as Default>::default, (), trace),
    ensures
        trace.id@.len() == 0,
        trace.tx_id@.len() == 0,
        trace.parent_trace_id@.len() == 0,
        trace.pos_in_parent_trace == 0,
        trace.trace_address@.len() == 0,
        !trace.storage_change,
{
}

} // verus!
