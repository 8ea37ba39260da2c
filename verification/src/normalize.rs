//! Turns packed payloads into normalized states.

use serde_json::{Map as JsonMap, Value};
use vstd::prelude::*;
use vstd::string::*;

use crate::clock::{
    clock_offset, lemma_seconds_text_is_plain, offset_seconds, offset_seconds_text,
    offset_tells_which_clock_is_behind, plc_clock_millis, receipt_nanos, rounded_millis,
    seconds_text, ReceiptTime,
};
use crate::json::{
    bool_value, float_json, float_value, get_member, insert_member, integer_value, json_members,
    json_tree, new_object, no_members, text_value, Json,
};
use crate::layout::{
    field_at, has_field, is_valid_layout, stands_before, Field, IntFormat, Layout, TopicKind,
    TopicSpec, ValueType,
};
use crate::numeral;
use crate::numeral::parse_integer;
pub use crate::text::is_all_white;
use crate::text::{
    case_is_that_of_ascii_letters, comma_pieces, csv_values, is_white_space,
    lemma_comma_pieces_nonempty, lemma_trimmed_to_nothing, lower_text, lowered, spells, split_csv,
    text_eq, text_views, trimmed, trimmed_end, trimmed_start,
};
use crate::timestamp::{
    is_plc_timestamp, is_timestamp, timestamp_millis, timestamps_are_the_times_of_the_calendar,
    writes_a_time,
};

verus! {

/// The field that the offset of the PLC clock is published under.
pub const CLOCK_OFFSET_FIELD: &'static str = "Clock_Offset_Seconds";

/// The field that the PLC clock is published under.
pub const PLC_CLOCK_FIELD: &'static str = "PLC_Clock";

/// Why a payload is rejected.
#[derive(Debug)]
pub enum ParsePayloadError {
    CountMismatch { topic: String, expected: usize, actual: usize },
    InvalidBool { topic: String, field: String, value: String },
    InvalidInt { topic: String, field: String, value: String },
    InvalidFloat { topic: String, field: String, value: String },
    InvalidTimestamp { topic: String, field: String, value: String },
}

/// What a rejected payload got wrong.
#[verifier::ext_equal]
pub enum PayloadFault {
    /// The payload holds another number of values than the topic has fields.
    Count { topic: Seq<char>, expected: nat, actual: nat },
    /// A value is not of the type of its field.
    Value { value_type: ValueType, topic: Seq<char>, field: Seq<char>, value: Seq<char> },
}

impl View for ParsePayloadError {
    type V = PayloadFault;

    open spec fn view(&self) -> PayloadFault {
        match *self {
            ParsePayloadError::CountMismatch { topic, expected, actual } => PayloadFault::Count {
                topic: topic@,
                expected: expected as nat,
                actual: actual as nat,
            },
            ParsePayloadError::InvalidBool { topic, field, value } => PayloadFault::Value {
                value_type: ValueType::Bool,
                topic: topic@,
                field: field@,
                value: value@,
            },
            ParsePayloadError::InvalidInt { topic, field, value } => PayloadFault::Value {
                value_type: ValueType::Int,
                topic: topic@,
                field: field@,
                value: value@,
            },
            ParsePayloadError::InvalidFloat { topic, field, value } => PayloadFault::Value {
                value_type: ValueType::Float,
                topic: topic@,
                field: field@,
                value: value@,
            },
            ParsePayloadError::InvalidTimestamp { topic, field, value } => PayloadFault::Value {
                value_type: ValueType::Timestamp,
                topic: topic@,
                field: field@,
                value: value@,
            },
        }
    }
}

/// A normalized state, or what was wrong with the payload, as mathematical
/// values.
pub open spec fn outcome(
    result: Result<JsonMap<String, Value>, ParsePayloadError>,
) -> Result<Map<Seq<char>, Json>, PayloadFault> {
    match result {
        Ok(state) => Ok(json_members(state)),
        Err(error) => Err(error@),
    }
}

/// The boolean that a packed value stands for: `1`, `true` and `on`, or `0`,
/// `false` and `off`, in upper or lower case.
pub open spec fn bool_of(value: Seq<char>) -> Option<bool> {
    let word = lowered(value);
    if word == "1"@ || word == "true"@ || word == "on"@ {
        Some(true)
    } else if word == "0"@ || word == "false"@ || word == "off"@ {
        Some(false)
    } else {
        None
    }
}

/// Reads a packed boolean.
pub fn parse_bool(value: &str) -> (flag: Option<bool>)
    ensures
        flag == bool_of(value@),
{
    let word = lower_text(value);
    let word = word.as_str();
    if text_eq(word, "1") || text_eq(word, "true") || text_eq(word, "on") {
        Some(true)
    } else if text_eq(word, "0") || text_eq(word, "false") || text_eq(word, "off") {
        Some(false)
    } else {
        None
    }
}

/// The base of an integer format.
pub open spec fn format_base(format: IntFormat) -> nat {
    match format {
        IntFormat::Decimal => 10,
        IntFormat::Hexadecimal => 16,
    }
}

/// The raw level that means active: high unless the layout says otherwise.
pub open spec fn active_level(field: Field) -> bool {
    match field.active_when {
        Some(level) => level,
        None => true,
    }
}

/// What a packed value becomes in the normalized state; `None` where it is not
/// of the field's type.
pub open spec fn normalized_value(field: Field, value: Seq<char>) -> Option<Json> {
    match field.value_type {
        ValueType::Bool => match bool_of(value) {
            Some(raw) => Some(Json::Bool(raw == active_level(field))),
            None => None,
        },
        ValueType::Float => float_json(value),
        ValueType::Int => match numeral::integer_value(value, format_base(field.int_format)) {
            Some(number) => Some(Json::Integer(number)),
            None => None,
        },
        ValueType::Timestamp => if is_timestamp(value) {
            Some(Json::Text(value))
        } else {
            None
        },
    }
}

/// The fault of a value that is not of its field's type.
pub open spec fn value_fault(topic: Seq<char>, field: Field, value: Seq<char>) -> PayloadFault {
    PayloadFault::Value { value_type: field.value_type, topic, field: field.source@, value }
}

/// Reads one packed value.
pub fn parse_value(topic: &str, field: &Field, value: &str) -> (result: Result<
    Value,
    ParsePayloadError,
>)
    ensures
        result is Ok <==> normalized_value(*field, value@) is Some,
        result matches Ok(parsed) ==> normalized_value(*field, value@) == Some(json_tree(parsed)),
        result matches Ok(parsed) ==> (json_tree(parsed) matches Json::Text(text) ==> is_timestamp(
            text,
        )),
        result matches Err(error) ==> error@ == value_fault(topic@, *field, value@),
{
    let topic = topic.to_owned();
    let source = field.source.clone();
    match field.value_type {
        ValueType::Bool => match parse_bool(value) {
            Some(raw) => {
                let active = match field.active_when {
                    Some(level) => level,
                    None => true,
                };
                Ok(bool_value(raw == active))
            },
            None => Err(
                ParsePayloadError::InvalidBool { topic, field: source, value: value.to_owned() },
            ),
        },
        ValueType::Float => match float_value(value) {
            Some(number) => Ok(number),
            None => Err(
                ParsePayloadError::InvalidFloat { topic, field: source, value: value.to_owned() },
            ),
        },
        ValueType::Int => {
            let base: u32 = match field.int_format {
                IntFormat::Decimal => 10,
                IntFormat::Hexadecimal => 16,
            };
            match parse_integer(value, base) {
                Some(number) => Ok(integer_value(number)),
                None => Err(
                    ParsePayloadError::InvalidInt { topic, field: source, value: value.to_owned() },
                ),
            }
        },
        ValueType::Timestamp => if is_plc_timestamp(value) {
            Ok(text_value(value.to_owned()))
        } else {
            Err(
                ParsePayloadError::InvalidTimestamp {
                    topic,
                    field: source,
                    value: value.to_owned(),
                },
            )
        },
    }
}

/// The values of a payload; one empty value at the end is left out, so that a
/// trailing comma is accepted.
pub open spec fn payload_values(payload: Seq<char>) -> Seq<Seq<char>> {
    let values = csv_values(payload);
    if values.last().len() == 0 {
        values.drop_last()
    } else {
        values
    }
}

/// The state that the first `n` values give, or the first fault among them.
pub open spec fn state_of(spec: TopicSpec, values: Seq<Seq<char>>, n: int) -> Result<
    Map<Seq<char>, Json>,
    PayloadFault,
>
    decreases n,
{
    if n <= 0 {
        Ok(no_members())
    } else {
        match state_of(spec, values, n - 1) {
            Ok(state) => {
                let field = spec.fields@[n - 1];
                match normalized_value(field, values[n - 1]) {
                    Some(value) => Ok(state.insert(field.source@, value)),
                    None => Err(value_fault(spec.source_topic@, field, values[n - 1])),
                }
            },
            Err(fault) => Err(fault),
        }
    }
}

/// The state that a payload gives: one member for each field, under the
/// field's source.
pub open spec fn parsed_state(spec: TopicSpec, payload: Seq<char>) -> Result<
    Map<Seq<char>, Json>,
    PayloadFault,
> {
    let values = payload_values(payload);
    if values.len() != spec.fields@.len() {
        Err(
            PayloadFault::Count {
                topic: spec.source_topic@,
                expected: spec.fields@.len(),
                actual: values.len(),
            },
        )
    } else {
        state_of(spec, values, values.len() as int)
    }
}

/// The first fault stays the fault of the whole payload.
proof fn lemma_fault_stays(spec: TopicSpec, values: Seq<Seq<char>>, n: int, end: int)
    requires
        n <= end,
        state_of(spec, values, n) is Err,
    ensures
        state_of(spec, values, end) == state_of(spec, values, n),
    decreases end - n,
{
    if n < end {
        lemma_fault_stays(spec, values, n, end - 1);
        if end <= 0 {
            assert(state_of(spec, values, n) is Ok);
        }
    }
}

/// Whether every text in a state is a timestamp.
pub open spec fn texts_are_timestamps(state: Map<Seq<char>, Json>) -> bool {
    forall|key: Seq<char>| #[trigger]
        state.contains_key(key) ==> (state[key] matches Json::Text(text) ==> is_timestamp(text))
}

/// Parses the payload of a packed topic.
pub fn parse_payload(spec: &TopicSpec, payload: &str) -> (result: Result<
    JsonMap<String, Value>,
    ParsePayloadError,
>)
    ensures
        outcome(result) == parsed_state(*spec, payload@),
        result matches Ok(state) ==> texts_are_timestamps(json_members(state)),
{
    let mut values = split_csv(payload);
    proof {
        lemma_comma_pieces_nonempty(payload@);
    }
    let ghost all = values@;
    assert(text_views(all).last() == all.last()@);
    let last_is_empty = values[values.len() - 1].as_str().is_empty();
    if last_is_empty {
        let _ = values.pop();
        assert(text_views(values@) =~= text_views(all).drop_last());
    }
    assert(text_views(values@) == payload_values(payload@));
    if values.len() != spec.fields.len() {
        return Err(
            ParsePayloadError::CountMismatch {
                topic: spec.source_topic.clone(),
                expected: spec.fields.len(),
                actual: values.len(),
            },
        );
    }
    let mut state = new_object();
    let mut i: usize = 0;
    while i < spec.fields.len()
        invariant
            i <= spec.fields@.len(),
            values@.len() == spec.fields@.len(),
            text_views(values@) == payload_values(payload@),
            state_of(*spec, payload_values(payload@), i as int) == Ok::<
                Map<Seq<char>, Json>,
                PayloadFault,
            >(json_members(state)),
            texts_are_timestamps(json_members(state)),
        decreases spec.fields@.len() - i,
    {
        let field = &spec.fields[i];
        assert(payload_values(payload@)[i as int] == values@[i as int]@);
        match parse_value(spec.source_topic.as_str(), field, values[i].as_str()) {
            Ok(parsed) => {
                insert_member(&mut state, field.source.as_str(), parsed);
            },
            Err(error) => {
                proof {
                    lemma_fault_stays(
                        *spec,
                        payload_values(payload@),
                        i + 1,
                        spec.fields@.len() as int,
                    );
                }
                return Err(error);
            },
        }
        i += 1;
    }
    Ok(state)
}

/// A clock state with the offset of the PLC clock added; a fault where it
/// holds no PLC clock.
pub open spec fn with_clock_offset(
    topic: Seq<char>,
    state: Map<Seq<char>, Json>,
    received: ReceiptTime,
) -> Result<Map<Seq<char>, Json>, PayloadFault> {
    if state.contains_key(PLC_CLOCK_FIELD@) && state[PLC_CLOCK_FIELD@] is Text {
        let clock = state[PLC_CLOCK_FIELD@]->Text_0;
        let offset = seconds_text(offset_seconds(received, timestamp_millis(clock)));
        Ok(state.insert(CLOCK_OFFSET_FIELD@, float_json(offset)->0))
    } else {
        Err(
            PayloadFault::Value {
                value_type: ValueType::Timestamp,
                topic,
                field: PLC_CLOCK_FIELD@,
                value: Seq::empty(),
            },
        )
    }
}

/// The normalized state of a payload received at the given time: the parsed
/// state, with the clock offset added on the clock topic.
pub open spec fn normalized_state(
    spec: TopicSpec,
    payload: Seq<char>,
    received: ReceiptTime,
) -> Result<Map<Seq<char>, Json>, PayloadFault> {
    match parsed_state(spec, payload) {
        Ok(state) => if spec.kind == TopicKind::Clock {
            with_clock_offset(spec.source_topic@, state, received)
        } else {
            Ok(state)
        },
        Err(fault) => Err(fault),
    }
}

/// Normalizes the payload of a packed topic. On the clock topic the state also
/// tells how far the PLC clock is behind the receipt time, in seconds.
pub fn normalize_payload(
    spec: &TopicSpec,
    payload: &str,
    received_at: ReceiptTime,
) -> (result: Result<JsonMap<String, Value>, ParsePayloadError>)
    ensures
        outcome(result) == normalized_state(*spec, payload@, received_at),
{
    let mut state = match parse_payload(spec, payload) {
        Ok(state) => state,
        Err(error) => {
            return Err(error);
        },
    };
    if spec.kind == TopicKind::Clock {
        let plc_millis = {
            let clock = match get_member(&state, PLC_CLOCK_FIELD) {
                Some(member) => member.as_str(),
                None => None,
            };
            let millis = match clock {
                Some(text) => plc_clock_millis(text),
                None => None,
            };
            match millis {
                Some(millis) => millis,
                None => {
                    return Err(
                        ParsePayloadError::InvalidTimestamp {
                            topic: spec.source_topic.clone(),
                            field: PLC_CLOCK_FIELD.to_owned(),
                            value: String::new(),
                        },
                    );
                },
            }
        };
        let offset = clock_offset(&received_at, plc_millis);
        let text = offset_seconds_text(&offset);
        proof {
            lemma_seconds_text_is_plain(offset@);
        }
        match float_value(text.as_str()) {
            Some(seconds) => {
                insert_member(&mut state, CLOCK_OFFSET_FIELD, seconds);
            },
            None => {},
        }
    }
    Ok(state)
}

proof fn lemma_comma_adds_empty_value(payload: Seq<char>)
    ensures
        csv_values(payload.push(',')) == csv_values(payload).push(Seq::empty()),
        csv_values(payload).len() > 0,
{
    lemma_comma_pieces_nonempty(payload);
    assert(payload.push(',').drop_last() =~= payload);
    assert(csv_values(payload.push(',')) =~= csv_values(payload).push(trimmed(Seq::empty())));
}

/// One trailing comma changes nothing: where the last value of a payload is
/// not empty, the payload with a comma behind it gives the same state or the
/// same fault.
pub proof fn one_trailing_comma_is_accepted(
    spec: TopicSpec,
    payload: Seq<char>,
    received: ReceiptTime,
)
    requires
        csv_values(payload).last().len() > 0,
    ensures
        parsed_state(spec, payload.push(',')) == parsed_state(spec, payload),
        normalized_state(spec, payload.push(','), received) == normalized_state(
            spec,
            payload,
            received,
        ),
{
    lemma_comma_adds_empty_value(payload);
    assert(payload_values(payload.push(',')) =~= payload_values(payload));
}

/// A second trailing comma is not accepted: a payload with the right number of
/// values is rejected for its count once two commas stand behind it.
pub proof fn second_trailing_comma_is_rejected(spec: TopicSpec, payload: Seq<char>)
    requires
        csv_values(payload).last().len() > 0,
        csv_values(payload).len() == spec.fields@.len(),
    ensures
        parsed_state(spec, payload.push(',').push(',')) == Err::<Map<Seq<char>, Json>, _>(
            PayloadFault::Count {
                topic: spec.source_topic@,
                expected: spec.fields@.len(),
                actual: spec.fields@.len() + 1,
            },
        ),
{
    lemma_comma_adds_empty_value(payload);
    lemma_comma_adds_empty_value(payload.push(','));
}

proof fn lemma_trimmed_ends(text: Seq<char>)
    ensures
        trimmed(text).len() > 0 ==> !is_white_space(trimmed(text).first()) && !is_white_space(
            trimmed(text).last(),
        ),
{
    lemma_trimmed_start_first(text);
    lemma_trimmed_end_keeps(trimmed_start(text));
}

proof fn lemma_trimmed_start_first(text: Seq<char>)
    ensures
        trimmed_start(text).len() > 0 ==> !is_white_space(trimmed_start(text).first()),
    decreases text.len(),
{
    if text.len() > 0 && is_white_space(text.first()) {
        lemma_trimmed_start_first(text.drop_first());
    }
}

proof fn lemma_trimmed_end_keeps(text: Seq<char>)
    ensures
        trimmed_end(text).len() > 0 ==> trimmed_end(text).first() == text.first()
            && !is_white_space(trimmed_end(text).last()),
    decreases text.len(),
{
    if text.len() > 0 && is_white_space(text.last()) {
        lemma_trimmed_end_keeps(text.drop_last());
    }
}

/// No value of a payload has white space around it.
pub proof fn values_are_trimmed(payload: Seq<char>)
    ensures
        forall|i: int|
            0 <= i < payload_values(payload).len() && payload_values(payload)[i].len() > 0
                ==> !is_white_space((#[trigger] payload_values(payload)[i]).first())
                && !is_white_space(payload_values(payload)[i].last()),
{
    lemma_comma_pieces_nonempty(payload);
    assert forall|i: int|
        0 <= i < payload_values(payload).len() && payload_values(payload)[i].len()
            > 0 implies !is_white_space((#[trigger] payload_values(payload)[i]).first())
        && !is_white_space(payload_values(payload)[i].last()) by {
        assert(payload_values(payload)[i] == trimmed(comma_pieces(payload)[i]));
        lemma_trimmed_ends(comma_pieces(payload)[i]);
    }
}

/// Whether the fields of a topic have distinct sources.
pub open spec fn has_distinct_sources(spec: TopicSpec) -> bool {
    forall|i: int, j: int|
        0 <= i < j < spec.fields@.len() ==> (#[trigger] spec.fields@[i]).source@ != (
        #[trigger] spec.fields@[j]).source@
}

proof fn lemma_state_members(spec: TopicSpec, values: Seq<Seq<char>>, n: int)
    requires
        has_distinct_sources(spec),
        0 <= n <= spec.fields@.len(),
        state_of(spec, values, n) is Ok,
    ensures
        forall|key: Seq<char>| #[trigger]
            state_of(spec, values, n)->Ok_0.contains_key(key) <==> exists|i: int|
                0 <= i < n && (#[trigger] spec.fields@[i]).source@ == key,
        forall|i: int|
            0 <= i < n ==> normalized_value(#[trigger] spec.fields@[i], values[i]) == Some(
                state_of(spec, values, n)->Ok_0[spec.fields@[i].source@],
            ),
    decreases n,
{
    if n > 0 {
        lemma_state_members(spec, values, n - 1);
        let before = state_of(spec, values, n - 1)->Ok_0;
        let after = state_of(spec, values, n)->Ok_0;
        let last = spec.fields@[n - 1];
        assert forall|key: Seq<char>| #[trigger] after.contains_key(key) <==> exists|i: int|
            0 <= i < n && (#[trigger] spec.fields@[i]).source@ == key by {
            if after.contains_key(key) {
                if key != last.source@ {
                    assert(before.contains_key(key));
                }
            }
            if exists|i: int| 0 <= i < n && (#[trigger] spec.fields@[i]).source@ == key {
                let i = choose|i: int| 0 <= i < n && (#[trigger] spec.fields@[i]).source@ == key;
                if i < n - 1 {
                    assert(before.contains_key(key));
                }
            }
        }
    }
}

/// A parsed state has one member for each field, under the field's source and
/// with the field's normalized value, and no other member.
pub proof fn state_has_one_member_per_field(spec: TopicSpec, payload: Seq<char>)
    requires
        has_distinct_sources(spec),
        parsed_state(spec, payload) is Ok,
    ensures
        payload_values(payload).len() == spec.fields@.len(),
        forall|key: Seq<char>| #[trigger]
            parsed_state(spec, payload)->Ok_0.contains_key(key) <==> exists|i: int|
                0 <= i < spec.fields@.len() && (#[trigger] spec.fields@[i]).source@ == key,
        forall|i: int|
            0 <= i < spec.fields@.len() ==> normalized_value(
                #[trigger] spec.fields@[i],
                payload_values(payload)[i],
            ) == Some(parsed_state(spec, payload)->Ok_0[spec.fields@[i].source@]),
{
    lemma_state_members(spec, payload_values(payload), spec.fields@.len() as int);
}

/// A boolean field with the opposite active level reads every value the other
/// way round, and accepts the same values.
pub proof fn active_level_inverts(field: Field, inverted: Field, value: Seq<char>)
    requires
        field.value_type == ValueType::Bool,
        inverted.value_type == ValueType::Bool,
        active_level(inverted) == !active_level(field),
    ensures
        match normalized_value(field, value) {
            Some(Json::Bool(flag)) => normalized_value(inverted, value) == Some(Json::Bool(!flag)),
            Some(_) => false,
            None => normalized_value(inverted, value) is None,
        },
{
}

proof fn lemma_first_fault(spec: TopicSpec, values: Seq<Seq<char>>, n: int)
    requires
        0 <= n,
    ensures
        state_of(spec, values, n) is Ok <==> forall|i: int|
            0 <= i < n ==> normalized_value(#[trigger] spec.fields@[i], values[i]) is Some,
        state_of(spec, values, n) matches Err(fault) ==> exists|i: int|
            0 <= i < n && is_first_fault(spec, values, i) && fault == value_fault(
                spec.source_topic@,
                #[trigger] spec.fields@[i],
                values[i],
            ),
    decreases n,
{
    if n > 0 {
        lemma_first_fault(spec, values, n - 1);
        if state_of(spec, values, n - 1) is Ok {
            assert(normalized_value(spec.fields@[n - 1], values[n - 1]) is Some || is_first_fault(
                spec,
                values,
                n - 1,
            ));
        }
    }
}

/// Whether the value at `i` is the first one that its field does not accept.
pub open spec fn is_first_fault(spec: TopicSpec, values: Seq<Seq<char>>, i: int) -> bool {
    &&& normalized_value(spec.fields@[i], values[i]) is None
    &&& forall|j: int|
        0 <= j < i ==> normalized_value(#[trigger] spec.fields@[j], values[j]) is Some
}

/// A payload is accepted exactly when it has one value for each field and every
/// field accepts its value. Otherwise the wrong count is reported, or else the
/// first value that its field does not accept.
pub proof fn payload_is_accepted_exactly_when_every_value_fits(spec: TopicSpec, payload: Seq<char>)
    ensures
        parsed_state(spec, payload) is Ok <==> (payload_values(payload).len() == spec.fields@.len()
            && forall|i: int|
            0 <= i < spec.fields@.len() ==> normalized_value(
                #[trigger] spec.fields@[i],
                payload_values(payload)[i],
            ) is Some),
        parsed_state(spec, payload) matches Err(fault) ==> {
            ||| payload_values(payload).len() != spec.fields@.len() && fault
                == (PayloadFault::Count {
                topic: spec.source_topic@,
                expected: spec.fields@.len(),
                actual: payload_values(payload).len(),
            })
            ||| payload_values(payload).len() == spec.fields@.len() && exists|i: int|
                0 <= i < spec.fields@.len() && is_first_fault(spec, payload_values(payload), i)
                    && fault == (PayloadFault::Value {
                    value_type: (#[trigger] spec.fields@[i]).value_type,
                    topic: spec.source_topic@,
                    field: spec.fields@[i].source@,
                    value: payload_values(payload)[i],
                })
        },
{
    lemma_first_fault(spec, payload_values(payload), spec.fields@.len() as int);
}

/// On the clock topic the offset is added and everything else stays, the PLC
/// clock above all. On any other topic the state is the parsed one.
pub proof fn clock_state_keeps_what_was_parsed(
    spec: TopicSpec,
    payload: Seq<char>,
    received: ReceiptTime,
)
    requires
        normalized_state(spec, payload, received) is Ok,
    ensures
        spec.kind != TopicKind::Clock ==> normalized_state(spec, payload, received) == parsed_state(
            spec,
            payload,
        ),
        spec.kind == TopicKind::Clock ==> {
            let state = normalized_state(spec, payload, received)->Ok_0;
            let parsed = parsed_state(spec, payload)->Ok_0;
            &&& parsed_state(spec, payload) is Ok
            &&& state.dom() == parsed.dom().insert(CLOCK_OFFSET_FIELD@)
            &&& forall|key: Seq<char>|
                key != CLOCK_OFFSET_FIELD@ && parsed.contains_key(key) ==> #[trigger] state[key]
                    == parsed[key]
            &&& parsed.contains_key(PLC_CLOCK_FIELD@)
            &&& state[PLC_CLOCK_FIELD@] == parsed[PLC_CLOCK_FIELD@]
        },
{
    reveal_strlit("Clock_Offset_Seconds");
    reveal_strlit("PLC_Clock");
    assert(CLOCK_OFFSET_FIELD@.len() == 20);
    assert(PLC_CLOCK_FIELD@.len() == 9);
}

/// In a layout that passed validation the fields of every topic have distinct
/// sources.
pub proof fn valid_topics_have_distinct_sources(layout: Layout, t: int)
    requires
        is_valid_layout(layout),
        0 <= t < layout.topics@.len(),
    ensures
        has_distinct_sources(layout.topics@[t]),
{
    let spec = layout.topics@[t];
    assert forall|i: int, j: int| 0 <= i < j < spec.fields@.len() implies (
    #[trigger] spec.fields@[i]).source@ != (#[trigger] spec.fields@[j]).source@ by {
        assert(has_field(layout, t, i) && has_field(layout, t, j));
        assert(stands_before(t, i, t, j));
        assert(field_at(layout, t, i).source@ != field_at(layout, t, j).source@);
    }
}

proof fn lemma_white_in_front(space: Seq<char>, text: Seq<char>)
    requires
        is_all_white(space),
    ensures
        trimmed_start(space + text) == trimmed_start(text),
    decreases space.len(),
{
    if space.len() == 0 {
        assert(space + text =~= text);
    } else {
        let rest = space.drop_first();
        assert(is_white_space(space[0]));
        assert forall|i: int| 0 <= i < rest.len() implies is_white_space(#[trigger] rest[i]) by {
            assert(rest[i] == space[i + 1]);
        }
        lemma_white_in_front(rest, text);
        assert((space + text).drop_first() =~= rest + text);
    }
}

proof fn lemma_white_behind(text: Seq<char>, space: Seq<char>)
    requires
        is_all_white(space),
    ensures
        trimmed_end(text + space) == trimmed_end(text),
    decreases space.len(),
{
    if space.len() == 0 {
        assert(text + space =~= text);
    } else {
        let rest = space.drop_last();
        assert(is_white_space(space[space.len() - 1]));
        assert forall|i: int| 0 <= i < rest.len() implies is_white_space(#[trigger] rest[i]) by {
            assert(rest[i] == space[i]);
        }
        lemma_white_behind(text, rest);
        assert((text + space).drop_last() =~= text + rest);
    }
}

/// The start of a text is trimmed the same with white space behind it, unless
/// nothing is left of the text.
proof fn lemma_start_with_white_behind(text: Seq<char>, space: Seq<char>)
    requires
        is_all_white(space),
    ensures
        trimmed_start(text).len() > 0 ==> trimmed_start(text + space) == trimmed_start(text) + space,
        trimmed_start(text).len() == 0 ==> trimmed_start(text + space).len() == 0,
    decreases text.len(),
{
    if text.len() == 0 {
        lemma_white_in_front(space, Seq::empty());
        assert(text + space =~= space + Seq::<char>::empty());
    } else if is_white_space(text.first()) {
        lemma_start_with_white_behind(text.drop_first(), space);
        assert((text + space).drop_first() =~= text.drop_first() + space);
    }
}

proof fn lemma_white_around(front: Seq<char>, text: Seq<char>, behind: Seq<char>)
    requires
        is_all_white(front),
        is_all_white(behind),
    ensures
        trimmed(front + text + behind) == trimmed(text),
{
    lemma_white_in_front(front, text + behind);
    assert(front + text + behind =~= front + (text + behind));
    lemma_start_with_white_behind(text, behind);
    lemma_white_behind(trimmed_start(text), behind);
    if trimmed_start(text).len() == 0 {
        assert(trimmed_start(text + behind) =~= trimmed_start(text));
    }
}

proof fn lemma_pieces_joined(head: Seq<char>, tail: Seq<char>)
    ensures
        comma_pieces(head).len() > 0,
        comma_pieces(tail).len() > 0,
        comma_pieces(head + tail) == comma_pieces(head).drop_last().push(
            comma_pieces(head).last() + comma_pieces(tail).first(),
        ) + comma_pieces(tail).drop_first(),
    decreases tail.len(),
{
    lemma_comma_pieces_nonempty(head);
    lemma_comma_pieces_nonempty(tail);
    let front = comma_pieces(head);
    if tail.len() == 0 {
        assert(head + tail =~= head);
        assert(front.last() + Seq::<char>::empty() =~= front.last());
        assert(front =~= front.drop_last().push(front.last()) + comma_pieces(tail).drop_first());
    } else {
        let rest = tail.drop_last();
        let c = tail.last();
        lemma_pieces_joined(head, rest);
        lemma_comma_pieces_nonempty(rest);
        assert((head + tail).drop_last() =~= head + rest);
        assert((head + tail).last() == c);
        let back = comma_pieces(rest);
        let before = comma_pieces(head + rest);
        let wanted = front.drop_last().push(front.last() + comma_pieces(tail).first())
            + comma_pieces(tail).drop_first();
        if c == ',' {
            assert(before.push(Seq::<char>::empty()) =~= wanted);
        } else {
            let grown = back.last().push(c);
            if back.len() == 1 {
                assert(back.first() == back.last());
                assert((front.last() + back.first()).push(c) =~= front.last() + grown);
            }
            assert(before.drop_last().push(before.last().push(c)) =~= wanted);
        }
    }
}

proof fn lemma_white_is_one_piece(space: Seq<char>)
    requires
        is_all_white(space),
    ensures
        comma_pieces(space) == seq![space],
    decreases space.len(),
{
    if space.len() == 0 {
        assert(space =~= Seq::empty());
    } else {
        let rest = space.drop_last();
        assert(is_white_space(space[space.len() - 1]));
        assert forall|i: int| 0 <= i < rest.len() implies is_white_space(#[trigger] rest[i]) by {
            assert(rest[i] == space[i]);
        }
        lemma_white_is_one_piece(rest);
        assert(rest.push(space.last()) =~= space);
        assert(comma_pieces(space) =~= seq![space]);
    }
}

/// White space around values changes nothing: put before or behind a value,
/// next to a comma or at either end of the payload, it leaves the state or the
/// fault as it is.
pub proof fn white_space_around_values_changes_nothing(
    spec: TopicSpec,
    head: Seq<char>,
    space: Seq<char>,
    tail: Seq<char>,
    received: ReceiptTime,
)
    requires
        is_all_white(space),
        is_all_white(comma_pieces(head).last()) || is_all_white(comma_pieces(tail).first()),
    ensures
        parsed_state(spec, head + space + tail) == parsed_state(spec, head + tail),
        normalized_state(spec, head + space + tail, received) == normalized_state(
            spec,
            head + tail,
            received,
        ),
{
    let front = comma_pieces(head);
    let back = comma_pieces(tail);
    let left = front.last();
    let right = back.first();
    lemma_pieces_joined(head, tail);
    lemma_white_is_one_piece(space);
    lemma_pieces_joined(head, space);
    lemma_pieces_joined(head + space, tail);
    let spaced = comma_pieces(head + space);
    assert(spaced =~= front.drop_last().push(left + space));
    assert(spaced.drop_last() =~= front.drop_last());
    let none = Seq::<char>::empty();
    if is_all_white(left) {
        assert(is_all_white(left + space));
        lemma_white_around(left + space, right, none);
        lemma_white_around(left, right, none);
        assert(left + space + right + none =~= left + space + right);
        assert(left + right + none =~= left + right);
    } else {
        assert(is_all_white(space + right));
        lemma_white_around(none, left, space + right);
        lemma_white_around(none, left, right);
        assert(none + left + (space + right) =~= left + space + right);
        assert(none + left + right =~= left + right);
    }
    assert(csv_values(head + space + tail) =~= csv_values(head + tail));
}

/// Whether a value means high: `1`, or `true` or `on` in any case.
pub open spec fn is_high(value: Seq<char>) -> bool {
    value == seq!['1'] || spells(value, seq!['t', 'r', 'u', 'e']) || spells(value, seq!['o', 'n'])
}

/// Whether a value means low: `0`, or `false` or `off` in any case.
pub open spec fn is_low(value: Seq<char>) -> bool {
    value == seq!['0'] || spells(value, seq!['f', 'a', 'l', 's', 'e']) || spells(
        value,
        seq!['o', 'f', 'f'],
    )
}

/// A boolean is read from its six words, in any case, and from nothing else.
pub proof fn booleans_are_read_from_their_words(value: Seq<char>)
    ensures
        bool_of(value) == Some(true) <==> is_high(value),
        bool_of(value) == Some(false) <==> is_low(value),
{
    reveal_strlit("1");
    reveal_strlit("0");
    reveal_strlit("true");
    reveal_strlit("on");
    reveal_strlit("false");
    reveal_strlit("off");
    assert("1"@ =~= seq!['1']);
    assert("0"@ =~= seq!['0']);
    assert("true"@ =~= seq!['t', 'r', 'u', 'e']);
    assert("on"@ =~= seq!['o', 'n']);
    assert("false"@ =~= seq!['f', 'a', 'l', 's', 'e']);
    assert("off"@ =~= seq!['o', 'f', 'f']);
    case_is_that_of_ascii_letters(value, seq!['1'], seq!['1']);
    case_is_that_of_ascii_letters(value, seq!['0'], seq!['0']);
    case_is_that_of_ascii_letters(value, seq!['t', 'r', 'u', 'e'], seq!['T', 'R', 'U', 'E']);
    case_is_that_of_ascii_letters(value, seq!['o', 'n'], seq!['O', 'N']);
    case_is_that_of_ascii_letters(
        value,
        seq!['f', 'a', 'l', 's', 'e'],
        seq!['F', 'A', 'L', 'S', 'E'],
    );
    case_is_that_of_ascii_letters(value, seq!['o', 'f', 'f'], seq!['O', 'F', 'F']);
    if spells(value, seq!['1']) {
        assert(value =~= seq!['1']);
    }
    if spells(value, seq!['0']) {
        assert(value =~= seq!['0']);
    }
    assert("1"@.len() == 1 && "0"@.len() == 1 && "true"@.len() == 4 && "on"@.len() == 2);
    assert("false"@.len() == 5 && "off"@.len() == 3);
    assert("1"@[0] != "0"@[0]);
}

/// Every value is read by the type of its field. A boolean is true where the
/// value means the level that counts as active, which is the high one unless the
/// layout names another. An integer is read in base sixteen where the layout
/// says so, else in base ten. A timestamp is kept as it is written, where it
/// writes a time of the calendar. A float is the double that its numeral stands
/// for.
pub proof fn values_are_read_by_their_type(field: Field, value: Seq<char>)
    ensures
        field.value_type is Bool ==> normalized_value(field, value) == (if is_high(value) {
            Some(Json::Bool(field.active_when != Some(false)))
        } else if is_low(value) {
            Some(Json::Bool(field.active_when == Some(false)))
        } else {
            None
        }),
        field.value_type is Int ==> {
            let base: nat = if field.int_format is Hexadecimal {
                16
            } else {
                10
            };
            let number = numeral::integer_value(value, base);
            &&& number is None ==> normalized_value(field, value) is None
            &&& number is Some ==> normalized_value(field, value) == Some(Json::Integer(number->0))
        },
        field.value_type is Timestamp ==> normalized_value(field, value) == (if writes_a_time(
            value,
        ) {
            Some(Json::Text(value))
        } else {
            None
        }),
        field.value_type is Float ==> normalized_value(field, value) == float_json(value),
{
    booleans_are_read_from_their_words(value);
    timestamps_are_the_times_of_the_calendar(value);
}

/// The values of a payload are what stands between its commas, without the white
/// space around it, in order. Only where nothing but white space stands behind
/// the last comma is that last value left out.
pub proof fn only_an_empty_last_value_is_left_out(payload: Seq<char>)
    ensures
        ({
            let pieces = comma_pieces(payload);
            let values = payload_values(payload);
            &&& values.len() == (if is_all_white(pieces.last()) {
                pieces.len() - 1
            } else {
                pieces.len() as int
            })
            &&& forall|i: int| 0 <= i < values.len() ==> #[trigger] values[i] == trimmed(pieces[i])
        }),
{
    let pieces = comma_pieces(payload);
    lemma_comma_pieces_nonempty(payload);
    lemma_trimmed_to_nothing(pieces.last());
    assert(csv_values(payload).last() == trimmed(pieces.last()));
}

/// What the clock's state adds to what was parsed, and when it cannot: the
/// member `Clock_Offset_Seconds` holds the double of a decimal of seconds with
/// three places, positive where the PLC clock is behind the receipt time. It is
/// at most three quarters of a millisecond off the exact offset while the
/// receipt lies within some eight thousand years of 1970. A clock payload
/// without a timestamp for `PLC_Clock` is refused as one with an invalid clock.
pub proof fn clock_states_tell_the_offset(
    spec: TopicSpec,
    payload: Seq<char>,
    received: ReceiptTime,
)
    requires
        spec.kind is Clock,
        parsed_state(spec, payload) is Ok,
    ensures
        ({
            let parsed = parsed_state(spec, payload)->Ok_0;
            let state = normalized_state(spec, payload, received);
            let told = parsed.contains_key("PLC_Clock"@) && parsed["PLC_Clock"@] is Text;
            let clock = parsed["PLC_Clock"@]->Text_0;
            &&& told <==> state is Ok
            &&& !told ==> state == Err::<Map<Seq<char>, Json>, PayloadFault>(
                PayloadFault::Value {
                    value_type: ValueType::Timestamp,
                    topic: spec.source_topic@,
                    field: "PLC_Clock"@,
                    value: Seq::empty(),
                },
            )
            &&& told ==> state->Ok_0.contains_key("Clock_Offset_Seconds"@)
            &&& told && is_timestamp(clock) ==> exists|offset: int|
                {
                    let text = #[trigger] seconds_text(offset);
                    let millis: int = if offset < 0 {
                        -rounded_millis(offset)
                    } else {
                        rounded_millis(offset) as int
                    };
                    let behind = receipt_nanos(received) - 1_000_000 * timestamp_millis(clock);
                    &&& state->Ok_0["Clock_Offset_Seconds"@] == float_json(text)->0
                    &&& millis > 0 ==> behind > 0
                    &&& millis < 0 ==> behind < 0
                    &&& received.seconds <= 0x40_0000_0000 ==> -750_000 <= 1_000_000 * millis
                        - behind <= 750_000
                }
        }),
{
    let parsed = parsed_state(spec, payload)->Ok_0;
    if parsed.contains_key("PLC_Clock"@) && parsed["PLC_Clock"@] is Text {
        let clock = parsed["PLC_Clock"@]->Text_0;
        let offset = offset_seconds(received, timestamp_millis(clock));
        if is_timestamp(clock) {
            offset_tells_which_clock_is_behind(received, clock);
            assert(seconds_text(offset) == seconds_text(offset));
        }
    }
}

/// Only the clock's state has anything added to it: on every other topic the
/// state is the parsed one, and a payload that cannot be parsed is refused for
/// the same reason on every topic, whenever it was received.
pub proof fn states_are_the_parsed_ones(spec: TopicSpec, payload: Seq<char>, received: ReceiptTime)
    ensures
        !(spec.kind is Clock) ==> normalized_state(spec, payload, received) == parsed_state(
            spec,
            payload,
        ),
        parsed_state(spec, payload) is Err ==> normalized_state(spec, payload, received)
            == parsed_state(spec, payload),
{
}

} // verus!
