//! Commands for the GMP40 pump: validated, encoded, queued, and sent one at a
//! time as the PLC confirms them.

use serde_json::{Map as JsonMap, Value};
use vstd::prelude::*;
use vstd::string::*;
use vstd::utf8::{decode_utf8, valid_utf8};

use crate::json::{get_member, json_members, Json};
use crate::layout::{Domain, Field, FieldDiscovery, Layout, TopicSpec, ValueName};
use crate::numeral::{integer_value, parse_integer, signed_decimal, signed_decimal_text};
use crate::text::{
    case_is_that_of_ascii_letters, concat3, has_suffix, read_utf8, spells, text_eq, trimmed,
    upper_text, uppered, utf8_error_text,
};

verus! {

/// The version byte of an encoded command.
pub const VERSION: u8 = 1;

/// The field that counts the commands the PLC has received.
pub const RECEIVE_COUNTER: &'static str = "GMP40_1_Authority.MQTTReceivedLast";

/// The field that tells whether the PLC is still working on a command.
pub const COMMAND_PENDING: &'static str = "GMP40_1_Data.Command.Pending";

/// The field that tells whether the pump can be controlled.
pub const CONTROL_READY: &'static str = "GMP40_1_Control_Ready";

/// The field that tells whether remote control is enabled.
pub const REMOTE_CONTROL_ENABLED: &'static str = "GMP40_1_Authority.RemoteControlEnable";

/// A command as the PLC takes it: a version byte, a mask with one bit, and five
/// data bytes of which the mask picks one.
#[derive(Debug, Clone, PartialEq, Eq)]
pub struct EncodedCommand {
    pub raw_topic: String,
    pub payload: [u8; 7],
}

impl View for EncodedCommand {
    type V = (Seq<char>, Seq<u8>);

    open spec fn view(&self) -> (Seq<char>, Seq<u8>) {
        (self.raw_topic@, self.payload@)
    }
}

/// Why a command is rejected.
#[derive(Debug, Clone, Copy, PartialEq, Eq, Structural)]
pub enum CommandError {
    NoReceiveCounter,
    NotReady,
    UnknownTopic,
    NotEncoded,
    NoRawTopic,
    InvalidUtf8,
    ExpectedOnOrOff,
    InvalidOption,
    ExpectedInteger,
    UnsupportedDomain,
    BelowMinimum(i64),
    AboveMaximum(i64),
    ExceedsByte,
    UnsupportedMask(u8),
}

/// Whether a field takes commands on the given topic.
pub open spec fn is_commanded_on(field: Field, topic: Seq<char>) -> bool {
    field.discovery.command_topic matches Some(own) && own@ == topic
}

/// The first field from `f` on that takes commands on the given topic.
pub open spec fn commanded_field_from(spec: TopicSpec, topic: Seq<char>, f: int) -> Option<int>
    decreases spec.fields@.len() - f,
{
    if 0 <= f < spec.fields@.len() {
        if is_commanded_on(spec.fields@[f], topic) {
            Some(f)
        } else {
            commanded_field_from(spec, topic, f + 1)
        }
    } else {
        None
    }
}

/// The first field, in the topics from `t` on, that takes commands on the given
/// topic.
pub open spec fn commanded_position_from(layout: Layout, topic: Seq<char>, t: int) -> Option<
    (int, int),
>
    decreases layout.topics@.len() - t,
{
    if 0 <= t < layout.topics@.len() {
        match commanded_field_from(layout.topics@[t], topic, 0) {
            Some(f) => Some((t, f)),
            None => commanded_position_from(layout, topic, t + 1),
        }
    } else {
        None
    }
}

/// The value that a name stands for, in the names from `i` on.
pub open spec fn named_value_from(names: Seq<ValueName>, name: Seq<char>, i: int) -> Option<i64>
    decreases names.len() - i,
{
    if 0 <= i < names.len() {
        if names[i].name@ == name {
            Some(names[i].value)
        } else {
            named_value_from(names, name, i + 1)
        }
    } else {
        None
    }
}

/// The number that a decimal numeral requests.
pub open spec fn requested_integer(text: Seq<char>) -> Result<int, CommandError> {
    match integer_value(text, 10) {
        Some(number) => Ok(number),
        None => Err(CommandError::ExpectedInteger),
    }
}

/// The number that a text requests of an entity: on or off, a named option or
/// an integer, by its domain.
pub open spec fn requested_number(discovery: FieldDiscovery, text: Seq<char>) -> Result<
    int,
    CommandError,
> {
    match discovery.domain {
        Domain::Switch => if uppered(text) == "ON"@ {
            Ok(1)
        } else if uppered(text) == "OFF"@ {
            Ok(0)
        } else {
            Err(CommandError::ExpectedOnOrOff)
        },
        Domain::Select => match discovery.value_map {
            Some(names) => match named_value_from(names@, text, 0) {
                Some(number) => Ok(number as int),
                None => Err(CommandError::InvalidOption),
            },
            None => requested_integer(text),
        },
        Domain::Number => requested_integer(text),
        _ => Err(CommandError::UnsupportedDomain),
    }
}

/// Whether a text is one of an entity's options, where it has options.
pub open spec fn is_offered(discovery: FieldDiscovery, text: Seq<char>) -> bool {
    discovery.options matches Some(options) ==> exists|i: int|
        0 <= i < options@.len() && (#[trigger] options@[i])@ == text
}

/// The number that a text requests, where it lies within the entity's limits
/// and options.
pub open spec fn accepted_number(discovery: FieldDiscovery, text: Seq<char>) -> Result<
    int,
    CommandError,
> {
    match requested_number(discovery, text) {
        Ok(number) => if discovery.min is Some && number < discovery.min->0 {
            Err(CommandError::BelowMinimum(discovery.min->0))
        } else if discovery.max is Some && number > discovery.max->0 {
            Err(CommandError::AboveMaximum(discovery.max->0))
        } else if !is_offered(discovery, text) {
            Err(CommandError::InvalidOption)
        } else {
            Ok(number)
        },
        Err(error) => Err(error),
    }
}

/// The data byte that a mask picks.
pub open spec fn mask_index(mask: u8) -> Option<int> {
    if mask == 1 {
        Some(2)
    } else if mask == 2 {
        Some(3)
    } else if mask == 4 {
        Some(4)
    } else if mask == 8 {
        Some(5)
    } else if mask == 16 {
        Some(6)
    } else {
        None
    }
}

/// The payload that sets one data byte.
pub open spec fn masked_payload(mask: u8, index: int, byte: u8) -> Seq<u8> {
    seq![VERSION, mask, 0, 0, 0, 0, 0].update(index, byte)
}

/// The command that a request stands for, or why it is rejected.
pub open spec fn encoded(layout: Layout, topic: Seq<char>, request: Seq<u8>) -> Result<
    (Seq<char>, Seq<u8>),
    CommandError,
> {
    match commanded_position_from(layout, topic, 0) {
        None => Err(CommandError::UnknownTopic),
        Some((t, f)) => {
            let spec = layout.topics@[t];
            let discovery = spec.fields@[f].discovery;
            let text = trimmed(decode_utf8(request));
            if discovery.command_mask is None {
                Err(CommandError::NotEncoded)
            } else if spec.raw_command_topic is None {
                Err(CommandError::NoRawTopic)
            } else if !valid_utf8(request) {
                Err(CommandError::InvalidUtf8)
            } else {
                match accepted_number(discovery, text) {
                    Err(error) => Err(error),
                    Ok(number) => if !(0 <= number <= 255) {
                        Err(CommandError::ExceedsByte)
                    } else {
                        let mask = discovery.command_mask->0;
                        match mask_index(mask) {
                            None => Err(CommandError::UnsupportedMask(mask)),
                            Some(index) => Ok(
                                (
                                    spec.raw_command_topic->0@,
                                    masked_payload(mask, index, number as u8),
                                ),
                            ),
                        }
                    },
                }
            }
        },
    }
}

/// Finds the field that takes commands on a topic.
pub fn find_commanded(layout: &Layout, topic: &str) -> (position: Option<(usize, usize)>)
    ensures
        position matches Some((t, f)) ==> commanded_position_from(*layout, topic@, 0) == Some(
            (t as int, f as int),
        ) && t < layout.topics@.len() && f < layout.topics@[t as int].fields@.len(),
        position is None ==> commanded_position_from(*layout, topic@, 0) is None,
{
    let mut t: usize = 0;
    while t < layout.topics.len()
        invariant
            t <= layout.topics@.len(),
            commanded_position_from(*layout, topic@, 0) == commanded_position_from(
                *layout,
                topic@,
                t as int,
            ),
        decreases layout.topics@.len() - t,
    {
        let spec = &layout.topics[t];
        let mut f: usize = 0;
        while f < spec.fields.len()
            invariant
                t < layout.topics@.len(),
                *spec == layout.topics@[t as int],
                f <= spec.fields@.len(),
                commanded_position_from(*layout, topic@, 0) == commanded_position_from(
                    *layout,
                    topic@,
                    t as int,
                ),
                commanded_field_from(*spec, topic@, 0) == commanded_field_from(
                    *spec,
                    topic@,
                    f as int,
                ),
            decreases spec.fields@.len() - f,
        {
            let found = match &spec.fields[f].discovery.command_topic {
                Some(own) => text_eq(own.as_str(), topic),
                None => false,
            };
            if found {
                return Some((t, f));
            }
            f += 1;
        }
        t += 1;
    }
    None
}

fn named_value(names: &Vec<ValueName>, name: &str) -> (value: Option<i64>)
    ensures
        value == named_value_from(names@, name@, 0),
{
    let mut i: usize = 0;
    while i < names.len()
        invariant
            i <= names@.len(),
            named_value_from(names@, name@, 0) == named_value_from(names@, name@, i as int),
        decreases names@.len() - i,
    {
        if text_eq(names[i].name.as_str(), name) {
            return Some(names[i].value);
        }
        i += 1;
    }
    None
}

fn read_integer(text: &str) -> (result: Result<i64, CommandError>)
    ensures
        result matches Ok(number) ==> requested_integer(text@) == Ok::<int, CommandError>(
            number as int,
        ),
        result matches Err(error) ==> requested_integer(text@) == Err::<int, CommandError>(error),
{
    match parse_integer(text, 10) {
        Some(number) => Ok(number),
        None => Err(CommandError::ExpectedInteger),
    }
}

fn read_number(discovery: &FieldDiscovery, text: &str) -> (result: Result<i64, CommandError>)
    ensures
        result matches Ok(number) ==> requested_number(*discovery, text@) == Ok::<
            int,
            CommandError,
        >(number as int),
        result matches Err(error) ==> requested_number(*discovery, text@) == Err::<
            int,
            CommandError,
        >(error),
{
    match discovery.domain {
        Domain::Switch => {
            let word = upper_text(text);
            if text_eq(word.as_str(), "ON") {
                Ok(1)
            } else if text_eq(word.as_str(), "OFF") {
                Ok(0)
            } else {
                Err(CommandError::ExpectedOnOrOff)
            }
        },
        Domain::Select => match &discovery.value_map {
            Some(names) => match named_value(names, text) {
                Some(number) => Ok(number),
                None => Err(CommandError::InvalidOption),
            },
            None => read_integer(text),
        },
        Domain::Number => read_integer(text),
        _ => Err(CommandError::UnsupportedDomain),
    }
}

fn offers(discovery: &FieldDiscovery, text: &str) -> (offered: bool)
    ensures
        offered == is_offered(*discovery, text@),
{
    match &discovery.options {
        Some(options) => {
            let mut i: usize = 0;
            while i < options.len()
                invariant
                    discovery.options == Some(*options),
                    i <= options@.len(),
                    forall|j: int| 0 <= j < i ==> (#[trigger] options@[j])@ != text@,
                decreases options@.len() - i,
            {
                if text_eq(options[i].as_str(), text) {
                    assert(discovery.options->0@[i as int]@ == text@);
                    return true;
                }
                i += 1;
            }
            false
        },
        None => true,
    }
}

/// Reads the number that a text requests and holds it to the entity's limits
/// and options.
pub fn accept_number(discovery: &FieldDiscovery, text: &str) -> (result: Result<i64, CommandError>)
    ensures
        result matches Ok(number) ==> accepted_number(*discovery, text@) == Ok::<int, CommandError>(
            number as int,
        ),
        result matches Err(error) ==> accepted_number(*discovery, text@) == Err::<
            int,
            CommandError,
        >(error),
{
    let number = match read_number(discovery, text) {
        Ok(number) => number,
        Err(error) => {
            return Err(error);
        },
    };
    if let Some(min) = discovery.min {
        if number < min {
            return Err(CommandError::BelowMinimum(min));
        }
    }
    if let Some(max) = discovery.max {
        if number > max {
            return Err(CommandError::AboveMaximum(max));
        }
    }
    if !offers(discovery, text) {
        return Err(CommandError::InvalidOption);
    }
    Ok(number)
}

/// Validates a request and encodes it as a command for the PLC.
pub fn encode_command(layout: &Layout, topic: &str, value: &[u8]) -> (result: Result<
    EncodedCommand,
    CommandError,
>)
    ensures
        result matches Ok(command) ==> encoded(*layout, topic@, value@) == Ok::<
            (Seq<char>, Seq<u8>),
            CommandError,
        >(command@),
        result matches Err(error) ==> encoded(*layout, topic@, value@) == Err::<
            (Seq<char>, Seq<u8>),
            CommandError,
        >(error),
{
    let (t, f) = match find_commanded(layout, topic) {
        Some(position) => position,
        None => {
            return Err(CommandError::UnknownTopic);
        },
    };
    let spec = &layout.topics[t];
    let discovery = &spec.fields[f].discovery;
    let mask = match discovery.command_mask {
        Some(mask) => mask,
        None => {
            return Err(CommandError::NotEncoded);
        },
    };
    let raw_topic = match &spec.raw_command_topic {
        Some(raw_topic) => raw_topic.clone(),
        None => {
            return Err(CommandError::NoRawTopic);
        },
    };
    let text = match read_utf8(value) {
        Ok(text) => text.trim(),
        Err(_) => {
            return Err(CommandError::InvalidUtf8);
        },
    };
    let number = match accept_number(discovery, text) {
        Ok(number) => number,
        Err(error) => {
            return Err(error);
        },
    };
    if number < 0 || number > 255 {
        return Err(CommandError::ExceedsByte);
    }
    let index: usize = match mask {
        1 => 2,
        2 => 3,
        4 => 4,
        8 => 5,
        16 => 6,
        _ => {
            return Err(CommandError::UnsupportedMask(mask));
        },
    };
    let mut payload: [u8; 7] = [0; 7];
    payload[0] = VERSION;
    payload[1] = mask;
    payload[index] = number as u8;
    assert(payload@ =~= masked_payload(mask, index as int, number as u8));
    Ok(EncodedCommand { raw_topic, payload })
}

/// A command that waits to be sent, under the topic that requested it.
#[derive(Debug)]
struct PendingCommand {
    topic: String,
    command: EncodedCommand,
}

/// The commands that wait, and what is known of the PLC.
#[derive(Debug)]
pub struct CommandQueue {
    counter: Option<i64>,
    in_flight_after: Option<i64>,
    control_ready: bool,
    pending: Vec<PendingCommand>,
}

/// What a command queue holds.
#[verifier::ext_equal]
pub struct QueueState {
    /// The receive counter that the PLC last reported.
    pub counter: Option<i64>,
    /// The receive counter at which the unconfirmed command was sent.
    pub in_flight_after: Option<i64>,
    /// Whether the PLC takes commands.
    pub control_ready: bool,
    /// The commands that wait, oldest first, each under the topic that
    /// requested it.
    pub pending: Seq<(Seq<char>, (Seq<char>, Seq<u8>))>,
}

impl View for CommandQueue {
    type V = QueueState;

    closed spec fn view(&self) -> QueueState {
        QueueState {
            counter: self.counter,
            in_flight_after: self.in_flight_after,
            control_ready: self.control_ready,
            pending: pending_view(self.pending@),
        }
    }
}

closed spec fn pending_view(pending: Seq<PendingCommand>) -> Seq<
    (Seq<char>, (Seq<char>, Seq<u8>)),
> {
    pending.map_values(|waiting: PendingCommand| (waiting.topic@, waiting.command@))
}

impl QueueState {
    /// Whether no topic has two commands waiting.
    pub open spec fn is_coalesced(self) -> bool {
        forall|i: int, j: int|
            0 <= i < j < self.pending.len() ==> (#[trigger] self.pending[i]).0 != (
            #[trigger] self.pending[j]).0
    }

    /// The queue without its commands, with nothing unconfirmed.
    pub open spec fn emptied(self) -> QueueState {
        QueueState { in_flight_after: None, pending: Seq::empty(), ..self }
    }
}

/// The queue of a connection on which the PLC has not reported yet.
pub open spec fn idle_queue() -> QueueState {
    QueueState {
        counter: None,
        in_flight_after: None,
        control_ready: false,
        pending: Seq::empty(),
    }
}

/// The place of the first waiting command of a topic, from `i` on.
pub open spec fn waiting_from(
    pending: Seq<(Seq<char>, (Seq<char>, Seq<u8>))>,
    topic: Seq<char>,
    i: int,
) -> Option<int>
    decreases pending.len() - i,
{
    if 0 <= i < pending.len() {
        if pending[i].0 == topic {
            Some(i)
        } else {
            waiting_from(pending, topic, i + 1)
        }
    } else {
        None
    }
}

/// The waiting commands with one more: in the place of the topic's earlier
/// command, or at the end.
pub open spec fn coalesced(
    pending: Seq<(Seq<char>, (Seq<char>, Seq<u8>))>,
    topic: Seq<char>,
    command: (Seq<char>, Seq<u8>),
) -> Seq<(Seq<char>, (Seq<char>, Seq<u8>))> {
    match waiting_from(pending, topic, 0) {
        Some(i) => pending.update(i, (topic, command)),
        None => pending.push((topic, command)),
    }
}

/// What a request does to the queue.
pub open spec fn enqueued(
    queue: QueueState,
    layout: Layout,
    topic: Seq<char>,
    request: Seq<u8>,
) -> Result<QueueState, CommandError> {
    if queue.counter is None {
        Err(CommandError::NoReceiveCounter)
    } else if !queue.control_ready {
        Err(CommandError::NotReady)
    } else {
        match encoded(layout, topic, request) {
            Ok(command) => Ok(
                QueueState { pending: coalesced(queue.pending, topic, command), ..queue },
            ),
            Err(error) => Err(error),
        }
    }
}

/// The integer that a state holds under a key.
pub open spec fn member_integer(state: Map<Seq<char>, Json>, key: Seq<char>) -> Option<i64> {
    if state.contains_key(key) {
        match state[key] {
            Json::Integer(number) if i64::MIN <= number <= i64::MAX => Some(number as i64),
            _ => None,
        }
    } else {
        None
    }
}

/// The boolean that a state holds under a key.
pub open spec fn member_bool(state: Map<Seq<char>, Json>, key: Seq<char>) -> Option<bool> {
    if state.contains_key(key) {
        match state[key] {
            Json::Bool(flag) => Some(flag),
            _ => None,
        }
    } else {
        None
    }
}

/// Whether a state says that the PLC takes commands.
pub open spec fn says_ready(state: Map<Seq<char>, Json>) -> bool {
    member_bool(state, CONTROL_READY@) == Some(true) && member_bool(state, REMOTE_CONTROL_ENABLED@)
        == Some(true)
}

/// Whether a state with the given receive counter confirms a command that was
/// sent at an earlier one: the counter moved on and no command is pending.
pub open spec fn confirms(state: Map<Seq<char>, Json>, counter: i64, sent_at: i64) -> bool {
    counter > sent_at && member_bool(state, COMMAND_PENDING@) == Some(false)
}

/// What a reported state does to the queue. A state without a receive counter
/// changes nothing. A counter that went back means a restarted PLC, and one
/// that is not ready takes nothing: either way the commands are dropped.
pub open spec fn observed(queue: QueueState, state: Map<Seq<char>, Json>) -> QueueState {
    match member_integer(state, RECEIVE_COUNTER@) {
        None => queue,
        Some(counter) => {
            let reported = QueueState { counter: Some(counter), ..queue };
            if queue.counter matches Some(previous) && counter < previous {
                reported.emptied()
            } else if !says_ready(state) {
                QueueState { control_ready: false, ..reported.emptied() }
            } else {
                QueueState {
                    control_ready: true,
                    in_flight_after: match queue.in_flight_after {
                        Some(sent_at) => if confirms(state, counter, sent_at) {
                            None
                        } else {
                            Some(sent_at)
                        },
                        None => None,
                    },
                    ..reported
                }
            }
        },
    }
}

/// Whether the queue hands out its oldest command.
pub open spec fn can_send(queue: QueueState) -> bool {
    queue.in_flight_after is None && queue.counter is Some && queue.pending.len() > 0
}

/// The queue after its oldest command was handed out.
pub open spec fn sent(queue: QueueState) -> QueueState {
    QueueState {
        in_flight_after: queue.counter,
        pending: queue.pending.drop_first(),
        ..queue
    }
}

fn state_integer(state: &JsonMap<String, Value>, key: &str) -> (number: Option<i64>)
    ensures
        number == member_integer(json_members(*state), key@),
{
    match get_member(state, key) {
        Some(member) => member.as_i64(),
        None => None,
    }
}

fn state_bool(state: &JsonMap<String, Value>, key: &str) -> (flag: Option<bool>)
    ensures
        flag == member_bool(json_members(*state), key@),
{
    match get_member(state, key) {
        Some(member) => member.as_bool(),
        None => None,
    }
}

proof fn lemma_coalesced(
    pending: Seq<(Seq<char>, (Seq<char>, Seq<u8>))>,
    topic: Seq<char>,
    i: int,
)
    requires
        0 <= i,
    ensures
        match waiting_from(pending, topic, i) {
            Some(found) => i <= found < pending.len() && pending[found].0 == topic && forall|
                j: int,
            |
                i <= j < found ==> (#[trigger] pending[j]).0 != topic,
            None => forall|j: int| i <= j < pending.len() ==> (#[trigger] pending[j]).0 != topic,
        },
    decreases pending.len() - i,
{
    if i < pending.len() && pending[i].0 != topic {
        lemma_coalesced(pending, topic, i + 1);
    }
}

impl CommandQueue {
    /// An empty queue on which the PLC has not reported yet.
    pub fn new() -> (queue: Self)
        ensures
            queue@ == idle_queue(),
            queue@.is_coalesced(),
    {
        let queue = CommandQueue {
            counter: None,
            in_flight_after: None,
            control_ready: false,
            pending: Vec::new(),
        };
        assert(queue@ =~= idle_queue());
        queue
    }

    /// Queues a request, in place of an earlier one for the same field. On an
    /// error the queue stays as it is.
    pub fn enqueue(&mut self, layout: &Layout, topic: &str, value: &[u8]) -> (result: Result<
        (),
        CommandError,
    >)
        requires
            old(self)@.is_coalesced(),
        ensures
            final(self)@.is_coalesced(),
            result is Ok ==> enqueued(old(self)@, *layout, topic@, value@) == Ok::<
                QueueState,
                CommandError,
            >(final(self)@),
            result matches Err(error) ==> enqueued(old(self)@, *layout, topic@, value@) == Err::<
                QueueState,
                CommandError,
            >(error) && final(self)@ == old(self)@,
    {
        if self.counter.is_none() {
            return Err(CommandError::NoReceiveCounter);
        }
        if !self.control_ready {
            return Err(CommandError::NotReady);
        }
        let command = match encode_command(layout, topic, value) {
            Ok(command) => command,
            Err(error) => {
                return Err(error);
            },
        };
        let ghost before = self.pending@;
        let ghost start = self@;
        proof {
            lemma_coalesced(pending_view(before), topic@, 0);
        }
        let mut i: usize = 0;
        while i < self.pending.len()
            invariant
                i <= self.pending@.len(),
                self.pending@ == before,
                start == old(self)@,
                self@ == start,
                waiting_from(pending_view(before), topic@, 0) == waiting_from(
                    pending_view(before),
                    topic@,
                    i as int,
                ),
            ensures
                self.pending@ == before,
                self@ == start,
                i <= self.pending@.len(),
                i < self.pending@.len() ==> waiting_from(pending_view(before), topic@, 0) == Some(
                    i as int,
                ),
                i == self.pending@.len() ==> waiting_from(pending_view(before), topic@, 0) is None,
            decreases self.pending@.len() - i,
        {
            assert(pending_view(before)[i as int].0 == before[i as int].topic@);
            if text_eq(self.pending[i].topic.as_str(), topic) {
                break;
            }
            i += 1;
        }
        let waiting = PendingCommand { topic: topic.to_owned(), command };
        if i < self.pending.len() {
            self.pending[i] = waiting;
            assert(pending_view(self.pending@) =~= pending_view(before).update(
                i as int,
                (topic@, command@),
            ));
        } else {
            self.pending.push(waiting);
            assert(pending_view(self.pending@) =~= pending_view(before).push((topic@, command@)));
        }
        assert(self@.pending == coalesced(start.pending, topic@, command@));
        Ok(())
    }

    /// Takes note of the state that the PLC reported.
    pub fn observe_state(&mut self, state: &JsonMap<String, Value>)
        requires
            old(self)@.is_coalesced(),
        ensures
            final(self)@.is_coalesced(),
            final(self)@ == observed(old(self)@, json_members(*state)),
    {
        let counter = match state_integer(state, RECEIVE_COUNTER) {
            Some(counter) => counter,
            None => {
                return;
            },
        };
        let went_back = match self.counter {
            Some(previous) => counter < previous,
            None => false,
        };
        self.counter = Some(counter);
        if went_back {
            self.pending.clear();
            self.in_flight_after = None;
            assert(self@ =~= observed(old(self)@, json_members(*state)));
            return;
        }
        let command_pending = match state_bool(state, COMMAND_PENDING) {
            Some(flag) => flag,
            None => true,
        };
        let ready = match state_bool(state, CONTROL_READY) {
            Some(flag) => flag,
            None => false,
        };
        let enabled = match state_bool(state, REMOTE_CONTROL_ENABLED) {
            Some(flag) => flag,
            None => false,
        };
        self.control_ready = ready && enabled;
        if !self.control_ready {
            self.pending.clear();
            self.in_flight_after = None;
        }
        let confirmed = match self.in_flight_after {
            Some(sent_at) => counter > sent_at && !command_pending,
            None => false,
        };
        if confirmed {
            self.in_flight_after = None;
        }
        assert(self@ =~= observed(old(self)@, json_members(*state)));
    }

    /// Hands out the oldest command, unless one is unconfirmed or the PLC has
    /// not reported yet.
    pub fn take_ready(&mut self) -> (command: Option<EncodedCommand>)
        requires
            old(self)@.is_coalesced(),
        ensures
            final(self)@.is_coalesced(),
            command is Some <==> can_send(old(self)@),
            command matches Some(oldest) ==> oldest@ == old(self)@.pending[0].1 && final(self)@
                == sent(old(self)@),
            command is None ==> final(self)@ == old(self)@,
    {
        if self.in_flight_after.is_some() || self.counter.is_none() || self.pending.len() == 0 {
            return None;
        }
        let ghost before = self.pending@;
        let oldest = self.pending.remove(0);
        self.in_flight_after = self.counter;
        assert(pending_view(self.pending@) =~= pending_view(before).drop_first());
        assert(self@ =~= sent(old(self)@));
        Some(oldest.command)
    }

    /// Drops everything, for a new connection.
    pub fn reset_connection(&mut self)
        ensures
            final(self)@ == idle_queue(),
            final(self)@.is_coalesced(),
    {
        self.pending.clear();
        self.in_flight_after = None;
        self.counter = None;
        self.control_ready = false;
        assert(self@ =~= idle_queue());
    }
}

impl Default for CommandQueue {
    fn default() -> (queue: Self)
        ensures
            queue@ == idle_queue(),
            queue@.is_coalesced(),
    {
        CommandQueue::new()
    }
}

/// The text of the rejection of a request on a topic.
pub open spec fn command_message(error: CommandError, topic: Seq<char>, request: Seq<u8>) -> Seq<
    char,
> {
    match error {
        CommandError::NoReceiveCounter => "GMP40 telemetry has not established a receive counter"@,
        CommandError::NotReady => "GMP40 remote control is not ready"@,
        CommandError::UnknownTopic => "unknown command topic "@ + topic,
        CommandError::NotEncoded => "command topic "@ + topic
            + " is not encoded by the normalizer"@,
        CommandError::NoRawTopic => "command topic "@ + topic + " has no raw command topic"@,
        CommandError::InvalidUtf8 => utf8_error_text(request),
        CommandError::ExpectedOnOrOff => "expected ON or OFF"@,
        CommandError::InvalidOption => "value is not a valid option"@,
        CommandError::ExpectedInteger => "expected an integer"@,
        CommandError::UnsupportedDomain => "unsupported encoded command domain"@,
        CommandError::BelowMinimum(min) => "value below minimum "@ + signed_decimal(min as int),
        CommandError::AboveMaximum(max) => "value above maximum "@ + signed_decimal(max as int),
        CommandError::ExceedsByte => "value does not fit command byte"@,
        CommandError::UnsupportedMask(mask) => "unsupported command mask "@ + signed_decimal(
            mask as int,
        ),
    }
}

impl CommandError {
    /// The text of the rejection of a request on the given topic.
    pub fn message(&self, topic: &str, request: &[u8]) -> (text: String)
        requires
            *self == CommandError::InvalidUtf8 ==> !valid_utf8(request@),
        ensures
            text@ == command_message(*self, topic@, request@),
    {
        match *self {
            CommandError::NoReceiveCounter => {
                "GMP40 telemetry has not established a receive counter".to_owned()
            },
            CommandError::NotReady => "GMP40 remote control is not ready".to_owned(),
            CommandError::UnknownTopic => "unknown command topic ".to_owned().concat(topic),
            CommandError::NotEncoded => {
                concat3("command topic ", topic, " is not encoded by the normalizer")
            },
            CommandError::NoRawTopic => {
                concat3("command topic ", topic, " has no raw command topic")
            },
            CommandError::InvalidUtf8 => match read_utf8(request) {
                Ok(_) => String::new(),
                Err(message) => message,
            },
            CommandError::ExpectedOnOrOff => "expected ON or OFF".to_owned(),
            CommandError::InvalidOption => "value is not a valid option".to_owned(),
            CommandError::ExpectedInteger => "expected an integer".to_owned(),
            CommandError::UnsupportedDomain => "unsupported encoded command domain".to_owned(),
            CommandError::BelowMinimum(min) => {
                "value below minimum ".to_owned().concat(signed_decimal_text(min).as_str())
            },
            CommandError::AboveMaximum(max) => {
                "value above maximum ".to_owned().concat(signed_decimal_text(max).as_str())
            },
            CommandError::ExceedsByte => "value does not fit command byte".to_owned(),
            CommandError::UnsupportedMask(mask) => {
                "unsupported command mask ".to_owned().concat(
                    signed_decimal_text(mask as i64).as_str(),
                )
            },
        }
    }
}

/// An encoded command is seven bytes: the version, a mask with one bit, and
/// five data bytes of which only the one that the mask picks may differ from
/// zero.
pub proof fn command_sets_one_field(layout: Layout, topic: Seq<char>, request: Seq<u8>)
    requires
        encoded(layout, topic, request) is Ok,
    ensures
        ({
            let payload = encoded(layout, topic, request)->Ok_0.1;
            &&& payload.len() == 7
            &&& payload[0] == 1
            &&& payload[1] == 1 || payload[1] == 2 || payload[1] == 4 || payload[1] == 8
                || payload[1] == 16
            &&& payload[1] != 1 ==> payload[2] == 0
            &&& payload[1] != 2 ==> payload[3] == 0
            &&& payload[1] != 4 ==> payload[4] == 0
            &&& payload[1] != 8 ==> payload[5] == 0
            &&& payload[1] != 16 ==> payload[6] == 0
        }),
{
}

proof fn lemma_commanded_field(spec: TopicSpec, topic: Seq<char>, f: int)
    requires
        0 <= f,
    ensures
        commanded_field_from(spec, topic, f) matches Some(found) ==> f <= found < spec.fields@.len()
            && is_commanded_on(spec.fields@[found], topic),
    decreases spec.fields@.len() - f,
{
    if f < spec.fields@.len() {
        lemma_commanded_field(spec, topic, f + 1);
    }
}

/// The field found for a command topic takes commands on it.
pub proof fn lemma_commanded_position(layout: Layout, topic: Seq<char>, t: int)
    requires
        0 <= t,
    ensures
        commanded_position_from(layout, topic, t) matches Some((i, f)) ==> t <= i
            < layout.topics@.len() && 0 <= f < layout.topics@[i].fields@.len() && is_commanded_on(
            layout.topics@[i].fields@[f],
            topic,
        ),
    decreases layout.topics@.len() - t,
{
    if t < layout.topics@.len() {
        lemma_commanded_field(layout.topics@[t], topic, 0);
        lemma_commanded_position(layout, topic, t + 1);
    }
}

/// Only a valid request is encoded: its topic commands a field of the layout
/// that has a mask, its text names a number within the field's limits and
/// among its options, and that number is the byte sent.
pub proof fn only_valid_requests_are_encoded(layout: Layout, topic: Seq<char>, request: Seq<u8>)
    requires
        encoded(layout, topic, request) is Ok,
    ensures
        exists|t: int, f: int|
            #![trigger layout.topics@[t].fields@[f]]
            {
                let field = layout.topics@[t].fields@[f];
                let text = trimmed(decode_utf8(request));
                let (raw_topic, payload) = encoded(layout, topic, request)->Ok_0;
                let number = payload[mask_index(payload[1])->0] as int;
                &&& 0 <= t < layout.topics@.len()
                &&& 0 <= f < layout.topics@[t].fields@.len()
                &&& is_commanded_on(field, topic)
                &&& valid_utf8(request)
                &&& requested_number(field.discovery, text) == Ok::<int, CommandError>(number)
                &&& field.discovery.min matches Some(min) ==> min <= number
                &&& field.discovery.max matches Some(max) ==> number <= max
                &&& is_offered(field.discovery, text)
                &&& field.discovery.command_mask == Some(payload[1])
                &&& layout.topics@[t].raw_command_topic matches Some(own) && own@ == raw_topic
            },
{
    lemma_commanded_position(layout, topic, 0);
    let (t, f) = commanded_position_from(layout, topic, 0)->0;
    let field = layout.topics@[t].fields@[f];
    assert(is_commanded_on(field, topic));
}

/// Whether a field takes commands on a topic.
pub open spec fn listens_on(layout: Layout, t: int, f: int, topic: Seq<char>) -> bool {
    &&& 0 <= t < layout.topics@.len()
    &&& 0 <= f < layout.topics@[t].fields@.len()
    &&& layout.topics@[t].fields@[f].discovery.command_topic is Some
    &&& layout.topics@[t].fields@[f].discovery.command_topic->0@ == topic
}

/// Whether a field is the first of the layout that takes commands on a topic.
pub open spec fn listens_first_on(layout: Layout, t: int, f: int, topic: Seq<char>) -> bool {
    &&& listens_on(layout, t, f, topic)
    &&& forall|t1: int, f1: int| #[trigger]
        listens_on(layout, t1, f1, topic) ==> t < t1 || (t == t1 && f <= f1)
}

proof fn lemma_first_field(spec: TopicSpec, topic: Seq<char>, f: int)
    requires
        0 <= f,
    ensures
        match commanded_field_from(spec, topic, f) {
            Some(found) => forall|k: int|
                f <= k < found ==> !is_commanded_on(#[trigger] spec.fields@[k], topic),
            None => forall|k: int|
                f <= k < spec.fields@.len() ==> !is_commanded_on(#[trigger] spec.fields@[k], topic),
        },
    decreases spec.fields@.len() - f,
{
    if f < spec.fields@.len() {
        lemma_first_field(spec, topic, f + 1);
    }
}

proof fn lemma_first_position(layout: Layout, topic: Seq<char>, t: int)
    requires
        0 <= t,
    ensures
        match commanded_position_from(layout, topic, t) {
            Some((i, f)) => forall|t1: int, f1: int|
                t <= t1 && #[trigger] listens_on(layout, t1, f1, topic) ==> i < t1 || (i == t1 && f
                    <= f1),
            None => forall|t1: int, f1: int|
                t <= t1 ==> !#[trigger] listens_on(layout, t1, f1, topic),
        },
    decreases layout.topics@.len() - t,
{
    if t < layout.topics@.len() {
        let spec = layout.topics@[t];
        lemma_first_field(spec, topic, 0);
        lemma_commanded_field(spec, topic, 0);
        lemma_first_position(layout, topic, t + 1);
        lemma_commanded_position(layout, topic, t + 1);
        assert forall|f1: int| #[trigger] listens_on(layout, t, f1, topic) implies is_commanded_on(
            spec.fields@[f1],
            topic,
        ) by {}
    }
}

/// A request goes to the first field of the layout that takes commands on its
/// topic, and to none where no field does.
pub proof fn requests_go_to_the_first_listener(layout: Layout, topic: Seq<char>, t: int, f: int)
    ensures
        commanded_position_from(layout, topic, 0) == Some((t, f)) <==> listens_first_on(
            layout,
            t,
            f,
            topic,
        ),
        (forall|t1: int, f1: int| !#[trigger] listens_on(layout, t1, f1, topic)) <==> encoded(
            layout,
            topic,
            Seq::empty(),
        ) == Err::<(Seq<char>, Seq<u8>), CommandError>(CommandError::UnknownTopic),
{
    lemma_first_position(layout, topic, 0);
    lemma_commanded_position(layout, topic, 0);
    if let Some((i, k)) = commanded_position_from(layout, topic, 0) {
        assert(listens_on(layout, i, k, topic));
        lemma_no_other_unknown(layout, topic, i, k);
    }
}

/// Only an unknown topic is reported as one.
proof fn lemma_no_other_unknown(layout: Layout, topic: Seq<char>, t: int, f: int)
    requires
        commanded_position_from(layout, topic, 0) == Some((t, f)),
    ensures
        forall|request: Seq<u8>| #[trigger]
            encoded(layout, topic, request) != Err::<(Seq<char>, Seq<u8>), CommandError>(
                CommandError::UnknownTopic,
            ),
{
}

/// Whether a name stands for a value, where the first of several entries counts.
pub open spec fn is_named(names: Seq<ValueName>, name: Seq<char>, value: int) -> bool {
    exists|i: int|
        0 <= i < names.len() && (#[trigger] names[i]).name@ == name && names[i].value == value
            && forall|j: int| 0 <= j < i ==> (#[trigger] names[j]).name@ != name
}

proof fn lemma_named_value(names: Seq<ValueName>, name: Seq<char>, value: int, start: int)
    requires
        0 <= start <= names.len(),
        forall|j: int| 0 <= j < start ==> (#[trigger] names[j]).name@ != name,
    ensures
        (named_value_from(names, name, start) matches Some(found) && found == value) <==> is_named(
            names,
            name,
            value,
        ),
    decreases names.len() - start,
{
    if start < names.len() {
        if names[start].name@ != name {
            lemma_named_value(names, name, value, start + 1);
        }
    }
}

/// What a text requests: of a switch one for `ON` and zero for `OFF` in any
/// case, of a select with names the value of the name, and of any other select
/// and of a number the integer that the text writes in decimal. No other entity
/// takes a request.
pub open spec fn asks_for(discovery: FieldDiscovery, text: Seq<char>, number: int) -> bool {
    match discovery.domain {
        Domain::Switch => number == 1 && spells(text, seq!['o', 'n']) || number == 0 && spells(
            text,
            seq!['o', 'f', 'f'],
        ),
        Domain::Select => if discovery.value_map is Some {
            is_named(discovery.value_map->0@, text, number)
        } else {
            integer_value(text, 10) == Some(number)
        },
        Domain::Number => integer_value(text, 10) == Some(number),
        _ => false,
    }
}

/// A text requests exactly the number that it asks for.
pub proof fn requests_are_read_by_their_domain(
    discovery: FieldDiscovery,
    text: Seq<char>,
    number: int,
)
    ensures
        requested_number(discovery, text) == Ok::<int, CommandError>(number) <==> asks_for(
            discovery,
            text,
            number,
        ),
{
    reveal_strlit("ON");
    reveal_strlit("OFF");
    assert("ON"@ =~= seq!['O', 'N']);
    assert("OFF"@ =~= seq!['O', 'F', 'F']);
    case_is_that_of_ascii_letters(text, seq!['o', 'n'], "ON"@);
    case_is_that_of_ascii_letters(text, seq!['o', 'f', 'f'], "OFF"@);
    if let Some(names) = discovery.value_map {
        lemma_named_value(names@, text, number, 0);
    }
}

/// Whether a request is valid for a field, and asks it for a number: the field
/// has a mask with one of five bits and its topic takes encoded commands, and
/// the text asks for a number within the field's limits, both included, that
/// fits a byte, and is one of its options where it has any.
pub open spec fn is_valid_request(spec: TopicSpec, field: Field, request: Seq<u8>, number: int) -> bool {
    let discovery = field.discovery;
    let text = trimmed(decode_utf8(request));
    &&& discovery.command_mask is Some
    &&& discovery.command_mask->0 == 1 || discovery.command_mask->0 == 2
        || discovery.command_mask->0 == 4 || discovery.command_mask->0 == 8
        || discovery.command_mask->0 == 16
    &&& spec.raw_command_topic is Some
    &&& valid_utf8(request)
    &&& asks_for(discovery, text, number)
    &&& discovery.min is Some ==> discovery.min->0 <= number
    &&& discovery.max is Some ==> number <= discovery.max->0
    &&& 0 <= number <= 255
    &&& discovery.options is Some ==> exists|i: int|
        0 <= i < discovery.options->0@.len() && (#[trigger] discovery.options->0@[i])@ == text
}

/// The seven bytes that set one data byte: the version, the mask, and the
/// number in the place of its bit.
pub open spec fn one_field_bytes(mask: u8, number: int) -> Seq<u8> {
    seq![
        1u8,
        mask,
        if mask == 1 {
            number as u8
        } else {
            0
        },
        if mask == 2 {
            number as u8
        } else {
            0
        },
        if mask == 4 {
            number as u8
        } else {
            0
        },
        if mask == 8 {
            number as u8
        } else {
            0
        },
        if mask == 16 {
            number as u8
        } else {
            0
        },
    ]
}

/// A valid request is encoded, and no other: it becomes the bytes that set the
/// one field it asks for, on the topic of encoded commands.
pub proof fn exactly_the_valid_requests_are_encoded(
    layout: Layout,
    topic: Seq<char>,
    request: Seq<u8>,
    t: int,
    f: int,
)
    requires
        listens_first_on(layout, t, f, topic),
    ensures
        ({
            let spec = layout.topics@[t];
            let field = spec.fields@[f];
            &&& forall|number: int| #[trigger]
                is_valid_request(spec, field, request, number) ==> encoded(layout, topic, request)
                    == Ok::<(Seq<char>, Seq<u8>), CommandError>(
                    (
                        spec.raw_command_topic->0@,
                        one_field_bytes(field.discovery.command_mask->0, number),
                    ),
                )
            &&& encoded(layout, topic, request) is Ok ==> exists|number: int| #[trigger]
                is_valid_request(spec, field, request, number)
        }),
{
    let spec = layout.topics@[t];
    let field = spec.fields@[f];
    let discovery = field.discovery;
    let text = trimmed(decode_utf8(request));
    requests_go_to_the_first_listener(layout, topic, t, f);
    assert forall|number: int| #[trigger] is_valid_request(spec, field, request, number) implies
        encoded(layout, topic, request) == Ok::<(Seq<char>, Seq<u8>), CommandError>(
        (
            spec.raw_command_topic->0@,
            one_field_bytes(discovery.command_mask->0, number),
        ),
    ) by {
        requests_are_read_by_their_domain(discovery, text, number);
        let mask = discovery.command_mask->0;
        assert(accepted_number(discovery, text) == Ok::<int, CommandError>(number));
        assert(masked_payload(mask, mask_index(mask)->0, number as u8) =~= one_field_bytes(
            mask,
            number,
        ));
    }
    if encoded(layout, topic, request) is Ok {
        let number = accepted_number(discovery, text)->Ok_0;
        requests_are_read_by_their_domain(discovery, text, number);
        assert(is_valid_request(spec, field, request, number));
    }
}

/// Whether a number lies within an entity's limits, both included.
pub open spec fn keeps_limits(discovery: FieldDiscovery, number: int) -> bool {
    &&& discovery.min is Some ==> discovery.min->0 <= number
    &&& discovery.max is Some ==> number <= discovery.max->0
}

/// Whether a text is among an entity's options, where it has any.
pub open spec fn is_among_options(discovery: FieldDiscovery, text: Seq<char>) -> bool {
    discovery.options is Some ==> exists|i: int|
        0 <= i < discovery.options->0@.len() && (#[trigger] discovery.options->0@[i])@ == text
}

/// Every rejection has its reason: it names what the request, the field or the
/// layout lacks. Of several reasons the first one counts, in this order: no
/// encoded commands, no topic for them, no UTF-8, no number to ask for, the lower
/// limit, the upper one, the options, the byte, the mask.
pub proof fn rejections_have_their_reasons(
    layout: Layout,
    topic: Seq<char>,
    request: Seq<u8>,
    t: int,
    f: int,
)
    requires
        listens_first_on(layout, t, f, topic),
        encoded(layout, topic, request) is Err,
    ensures
        ({
            let spec = layout.topics@[t];
            let discovery = spec.fields@[f].discovery;
            let text = trimmed(decode_utf8(request));
            let encodes = discovery.command_mask is Some && spec.raw_command_topic is Some
                && valid_utf8(request);
            match encoded(layout, topic, request)->Err_0 {
                CommandError::NotEncoded => discovery.command_mask is None,
                CommandError::NoRawTopic => discovery.command_mask is Some
                    && spec.raw_command_topic is None,
                CommandError::InvalidUtf8 => discovery.command_mask is Some
                    && spec.raw_command_topic is Some && !valid_utf8(request),
                CommandError::ExpectedOnOrOff => encodes && discovery.domain is Switch && !spells(
                    text,
                    seq!['o', 'n'],
                ) && !spells(text, seq!['o', 'f', 'f']),
                CommandError::ExpectedInteger => encodes && (discovery.domain is Number
                    || discovery.domain is Select && discovery.value_map is None) && integer_value(
                    text,
                    10,
                ) is None,
                CommandError::UnsupportedDomain => encodes && !(discovery.domain is Switch
                    || discovery.domain is Select || discovery.domain is Number),
                CommandError::BelowMinimum(min) => encodes && discovery.min == Some(min) && exists|
                    number: int,
                | #[trigger]
                    asks_for(discovery, text, number) && number < min,
                CommandError::AboveMaximum(max) => encodes && discovery.max == Some(max) && exists|
                    number: int,
                | #[trigger]
                    asks_for(discovery, text, number) && number > max && (discovery.min is Some
                        ==> discovery.min->0 <= number),
                CommandError::InvalidOption => encodes && ((discovery.domain is Select
                    && discovery.value_map is Some && forall|number: int|
                    !#[trigger] is_named(discovery.value_map->0@, text, number)) || (
                !is_among_options(discovery, text) && exists|number: int| #[trigger]
                    asks_for(discovery, text, number) && keeps_limits(discovery, number))),
                CommandError::ExceedsByte => encodes && is_among_options(discovery, text) && exists|
                    number: int,
                | #[trigger]
                    asks_for(discovery, text, number) && keeps_limits(discovery, number) && !(0
                        <= number <= 255),
                CommandError::UnsupportedMask(mask) => encodes && discovery.command_mask == Some(
                    mask,
                ) && mask != 1 && mask != 2 && mask != 4 && mask != 8 && mask != 16
                    && is_among_options(discovery, text) && exists|number: int| #[trigger]
                    asks_for(discovery, text, number) && keeps_limits(discovery, number) && 0
                        <= number <= 255,
                _ => false,
            }
        }),
{
    let spec = layout.topics@[t];
    let discovery = spec.fields@[f].discovery;
    let text = trimmed(decode_utf8(request));
    requests_go_to_the_first_listener(layout, topic, t, f);
    assert forall|number: int| requested_number(discovery, text) == Ok::<int, CommandError>(number)
        <==> #[trigger] asks_for(discovery, text, number) by {
        requests_are_read_by_their_domain(discovery, text, number);
    }
    if let Ok(number) = requested_number(discovery, text) {
        assert(asks_for(discovery, text, number));
    }
    reveal_strlit("ON");
    reveal_strlit("OFF");
    assert("ON"@ =~= seq!['O', 'N']);
    assert("OFF"@ =~= seq!['O', 'F', 'F']);
    case_is_that_of_ascii_letters(text, seq!['o', 'n'], "ON"@);
    case_is_that_of_ascii_letters(text, seq!['o', 'f', 'f'], "OFF"@);
    if discovery.value_map is Some {
        assert forall|number: int| discovery.domain is Select implies (#[trigger] is_named(
            discovery.value_map->0@,
            text,
            number,
        ) <==> asks_for(discovery, text, number)) by {}
    }
}

/// A request is taken only once the PLC has reported a receive counter and says
/// that it takes commands, and only where it is encoded. It then waits in the
/// place of its topic's earlier request, or last, and nothing else changes.
pub proof fn valid_requests_wait_in_their_place(
    queue: QueueState,
    layout: Layout,
    topic: Seq<char>,
    request: Seq<u8>,
)
    requires
        queue.is_coalesced(),
    ensures
        queue.counter is None ==> enqueued(queue, layout, topic, request) == Err::<
            QueueState,
            CommandError,
        >(CommandError::NoReceiveCounter),
        queue.counter is Some && !queue.control_ready ==> enqueued(queue, layout, topic, request)
            == Err::<QueueState, CommandError>(CommandError::NotReady),
        queue.counter is Some && queue.control_ready ==> match encoded(layout, topic, request) {
            Err(error) => enqueued(queue, layout, topic, request) == Err::<QueueState, CommandError>(
                error,
            ),
            Ok(command) => {
                &&& enqueued(queue, layout, topic, request) is Ok
                &&& {
                    let after = enqueued(queue, layout, topic, request)->Ok_0;
                    &&& after.counter == queue.counter
                    &&& after.in_flight_after == queue.in_flight_after
                    &&& after.control_ready
                    &&& after.pending.contains((topic, command))
                    &&& forall|i: int|
                        0 <= i < queue.pending.len() ==> (#[trigger] after.pending[i]).0
                            == queue.pending[i].0 && (queue.pending[i].0 != topic
                            ==> after.pending[i] == queue.pending[i])
                    &&& (exists|i: int|
                        0 <= i < queue.pending.len() && (#[trigger] queue.pending[i]).0 == topic)
                        ==> after.pending.len() == queue.pending.len()
                    &&& (forall|i: int|
                        0 <= i < queue.pending.len() ==> (#[trigger] queue.pending[i]).0 != topic)
                        ==> after.pending.len() == queue.pending.len() + 1 && after.pending.last()
                        == (topic, command)
                }
            },
        },
{
    lemma_coalesced(queue.pending, topic, 0);
    if let Ok(command) = encoded(layout, topic, request) {
        let after = coalesced(queue.pending, topic, command);
        match waiting_from(queue.pending, topic, 0) {
            Some(i) => {
                assert(after[i] == (topic, command));
                assert forall|k: int| 0 <= k < queue.pending.len() && k != i implies (
                #[trigger] queue.pending[k]).0 != topic by {
                    assert(queue.pending[i].0 == topic);
                }
            },
            None => {
                assert(after[queue.pending.len() as int] == (topic, command));
            },
        }
    }
}

/// Whether a state holds a boolean under a key.
pub open spec fn says(state: Map<Seq<char>, Json>, key: Seq<char>, flag: bool) -> bool {
    state.contains_key(key) && state[key] == Json::Bool(flag)
}

/// What a reported state changes. Without a receive counter it changes nothing.
/// With one, the counter is taken over. A counter that went back drops every
/// command. Otherwise the PLC takes commands exactly where both flags say so;
/// where it does not, every command is dropped, and where it does, the commands
/// stay, and the unconfirmed one is confirmed exactly where the counter moved on
/// and no command is pending.
pub proof fn reports_drive_the_queue(queue: QueueState, state: Map<Seq<char>, Json>)
    ensures
        ({
            let key = "GMP40_1_Authority.MQTTReceivedLast"@;
            let counts = state.contains_key(key) && state[key] is Integer && i64::MIN
                <= state[key]->Integer_0 <= i64::MAX;
            let counter = state[key]->Integer_0;
            let ready = says(state, "GMP40_1_Control_Ready"@, true) && says(
                state,
                "GMP40_1_Authority.RemoteControlEnable"@,
                true,
            );
            let idle = says(state, "GMP40_1_Data.Command.Pending"@, false);
            let next = observed(queue, state);
            if !counts {
                next == queue
            } else if queue.counter is Some && counter < queue.counter->0 {
                &&& next.counter == Some(counter as i64)
                &&& next.pending.len() == 0
                &&& next.in_flight_after is None
                &&& next.control_ready == queue.control_ready
            } else if !ready {
                &&& next.counter == Some(counter as i64)
                &&& next.pending.len() == 0
                &&& next.in_flight_after is None
                &&& !next.control_ready
            } else {
                &&& next.counter == Some(counter as i64)
                &&& next.pending == queue.pending
                &&& next.control_ready
                &&& next.in_flight_after == (if queue.in_flight_after is Some && !(counter
                    > queue.in_flight_after->0 && idle) {
                    queue.in_flight_after
                } else {
                    None
                })
            }
        }),
{
}

/// The oldest command goes out exactly where the PLC has reported and nothing
/// is unconfirmed. It then counts as sent at the current receive counter, and
/// the others move up.
pub proof fn the_oldest_command_goes_out_first(queue: QueueState)
    ensures
        can_send(queue) <==> queue.pending.len() > 0 && queue.counter is Some
            && queue.in_flight_after is None,
        can_send(queue) ==> {
            let next = sent(queue);
            &&& next.in_flight_after == queue.counter
            &&& next.counter == queue.counter
            &&& next.control_ready == queue.control_ready
            &&& next.pending.len() == queue.pending.len() - 1
            &&& forall|i: int|
                0 <= i < next.pending.len() ==> #[trigger] next.pending[i] == queue.pending[i + 1]
        },
        idle_queue().counter is None && idle_queue().in_flight_after is None
            && !idle_queue().control_ready && idle_queue().pending.len() == 0,
{
}

/// A later request for the same field takes the place of the earlier one: what
/// waits is the same as if only the later one had been made, and no topic has
/// two commands waiting.
pub proof fn later_request_replaces_earlier(
    queue: QueueState,
    topic: Seq<char>,
    earlier: (Seq<char>, Seq<u8>),
    later: (Seq<char>, Seq<u8>),
)
    requires
        queue.is_coalesced(),
    ensures
        coalesced(coalesced(queue.pending, topic, earlier), topic, later) == coalesced(
            queue.pending,
            topic,
            later,
        ),
        (QueueState { pending: coalesced(queue.pending, topic, later), ..queue }).is_coalesced(),
{
    let once = coalesced(queue.pending, topic, earlier);
    lemma_coalesced(queue.pending, topic, 0);
    lemma_coalesced(once, topic, 0);
    let found = waiting_from(once, topic, 0);
    match waiting_from(queue.pending, topic, 0) {
        Some(i) => {
            assert(once[i].0 == topic);
            assert(found == Some(i)) by {
                assert forall|j: int| 0 <= j < i implies (#[trigger] once[j]).0 != topic by {
                    assert(once[j] == queue.pending[j]);
                }
            }
            assert(once.update(i, (topic, later)) =~= queue.pending.update(i, (topic, later)));
        },
        None => {
            let last = queue.pending.len() as int;
            assert(once[last].0 == topic);
            assert(found == Some(last)) by {
                assert forall|j: int| 0 <= j < last implies (#[trigger] once[j]).0 != topic by {
                    assert(once[j] == queue.pending[j]);
                }
            }
            assert(once.update(last, (topic, later)) =~= queue.pending.push((topic, later)));
        },
    }
}

/// While a command is unconfirmed no other one is handed out. Requests leave
/// it unconfirmed, and so does every reported state but three: one whose
/// receive counter moved on with no command pending, one whose counter went
/// back, and one that says the PLC takes no commands.
pub proof fn one_command_at_a_time(
    queue: QueueState,
    layout: Layout,
    topic: Seq<char>,
    request: Seq<u8>,
    state: Map<Seq<char>, Json>,
)
    requires
        queue.in_flight_after is Some,
    ensures
        !can_send(queue),
        enqueued(queue, layout, topic, request) matches Ok(after) ==> after.in_flight_after
            == queue.in_flight_after && !can_send(after),
        observed(queue, state).in_flight_after is None ==> {
            let counter = member_integer(state, RECEIVE_COUNTER@);
            &&& counter is Some
            &&& confirms(state, counter->0, queue.in_flight_after->0) || (
            queue.counter matches Some(previous) && counter->0 < previous) || !says_ready(state)
        },
        observed(queue, state).in_flight_after is Some ==> observed(queue, state).in_flight_after
            == queue.in_flight_after,
{
}

/// Handing out a command leaves it unconfirmed at the current receive counter.
pub proof fn sending_waits_for_confirmation(queue: QueueState)
    requires
        can_send(queue),
    ensures
        sent(queue).in_flight_after == queue.counter,
        sent(queue).in_flight_after is Some,
        !can_send(sent(queue)),
        sent(queue).pending == queue.pending.drop_first(),
{
}

/// After a reconnect nothing that was queued before is sent, whatever the PLC
/// then reports, and no request is taken until it has reported.
pub proof fn nothing_survives_a_reconnect(
    layout: Layout,
    topic: Seq<char>,
    request: Seq<u8>,
    states: Seq<Map<Seq<char>, Json>>,
)
    ensures
        enqueued(idle_queue(), layout, topic, request) == Err::<QueueState, CommandError>(
            CommandError::NoReceiveCounter,
        ),
        observed_all(idle_queue(), states).pending.len() == 0,
        !can_send(observed_all(idle_queue(), states)),
    decreases states.len(),
{
    if states.len() > 0 {
        nothing_survives_a_reconnect(layout, topic, request, states.drop_last());
    }
}

/// What a run of reported states does to the queue.
pub open spec fn observed_all(queue: QueueState, states: Seq<Map<Seq<char>, Json>>) -> QueueState
    decreases states.len(),
{
    if states.len() == 0 {
        queue
    } else {
        observed(observed_all(queue, states.drop_last()), states.last())
    }
}

/// The queue after a run of requests, one behind the other.
pub open spec fn enqueued_all(
    queue: QueueState,
    layout: Layout,
    requests: Seq<(Seq<char>, Seq<u8>)>,
) -> Result<QueueState, CommandError>
    decreases requests.len(),
{
    if requests.len() == 0 {
        Ok(queue)
    } else {
        match enqueued_all(queue, layout, requests.drop_last()) {
            Ok(before) => enqueued(before, layout, requests.last().0, requests.last().1),
            Err(error) => Err(error),
        }
    }
}

/// The topics of a run of requests, each once, in the order of their first
/// requests.
pub open spec fn requested_topics(requests: Seq<(Seq<char>, Seq<u8>)>) -> Seq<Seq<char>>
    decreases requests.len(),
{
    if requests.len() == 0 {
        Seq::empty()
    } else {
        let before = requested_topics(requests.drop_last());
        if before.contains(requests.last().0) {
            before
        } else {
            before.push(requests.last().0)
        }
    }
}

/// The last request of a run on a topic.
pub open spec fn last_request(requests: Seq<(Seq<char>, Seq<u8>)>, topic: Seq<char>) -> Seq<u8>
    decreases requests.len(),
{
    if requests.len() == 0 {
        Seq::empty()
    } else if requests.last().0 == topic {
        requests.last().1
    } else {
        last_request(requests.drop_last(), topic)
    }
}

/// The command that the last request of a run on a topic stands for.
pub open spec fn last_command(
    layout: Layout,
    requests: Seq<(Seq<char>, Seq<u8>)>,
    topic: Seq<char>,
) -> (Seq<char>, Seq<u8>) {
    encoded(layout, topic, last_request(requests, topic))->Ok_0
}

/// What is to be sent after a run of requests: for each topic, in the order of
/// first requests, the command of its last request.
pub open spec fn wanted_commands(layout: Layout, requests: Seq<(Seq<char>, Seq<u8>)>) -> Seq<
    (Seq<char>, Seq<u8>),
> {
    requested_topics(requests).map_values(
        |topic: Seq<char>| last_command(layout, requests, topic),
    )
}

/// Whether a state confirms the command that was sent last and says that the
/// PLC takes the next one.
pub open spec fn acknowledges(queue: QueueState, state: Map<Seq<char>, Json>) -> bool {
    &&& queue.in_flight_after is Some
    &&& member_integer(state, RECEIVE_COUNTER@) matches Some(counter) && confirms(
        state,
        counter,
        queue.in_flight_after->0,
    )
    &&& says_ready(state)
}

/// The commands that a queue hands out, one at a time, where each is answered
/// by the next of the given states.
pub open spec fn handed_out(queue: QueueState, states: Seq<Map<Seq<char>, Json>>) -> Seq<
    (Seq<char>, Seq<u8>),
>
    decreases states.len(),
{
    if can_send(queue) && states.len() > 0 {
        seq![queue.pending[0].1] + handed_out(
            observed(sent(queue), states.first()),
            states.drop_first(),
        )
    } else {
        Seq::empty()
    }
}

/// The queue after that.
pub open spec fn after_handing_out(queue: QueueState, states: Seq<Map<Seq<char>, Json>>) -> QueueState
    decreases states.len(),
{
    if can_send(queue) && states.len() > 0 {
        after_handing_out(observed(sent(queue), states.first()), states.drop_first())
    } else {
        queue
    }
}

/// Whether every command that is handed out is acknowledged by its state.
pub open spec fn all_acknowledged(queue: QueueState, states: Seq<Map<Seq<char>, Json>>) -> bool
    decreases states.len(),
{
    can_send(queue) && states.len() > 0 ==> {
        &&& acknowledges(sent(queue), states.first())
        &&& all_acknowledged(observed(sent(queue), states.first()), states.drop_first())
    }
}

/// Whether a queue hands out nothing between a command and the state that
/// answers it.
pub open spec fn waits_for_every_answer(queue: QueueState, states: Seq<Map<Seq<char>, Json>>) -> bool
    decreases states.len(),
{
    can_send(queue) && states.len() > 0 ==> {
        &&& !can_send(sent(queue))
        &&& waits_for_every_answer(observed(sent(queue), states.first()), states.drop_first())
    }
}

proof fn lemma_requested_topics(requests: Seq<(Seq<char>, Seq<u8>)>)
    ensures
        forall|i: int, j: int|
            0 <= i < j < requested_topics(requests).len() ==> (#[trigger] requested_topics(
                requests,
            )[i]) != (#[trigger] requested_topics(requests)[j]),
    decreases requests.len(),
{
    if requests.len() > 0 {
        let before = requested_topics(requests.drop_last());
        let topics = requested_topics(requests);
        lemma_requested_topics(requests.drop_last());
        assert forall|i: int, j: int| 0 <= i < j < topics.len() implies (#[trigger] topics[i]) != (
        #[trigger] topics[j]) by {
            if j == before.len() {
                assert(before.contains(before[i]));
            } else {
                assert(before[i] != before[j]);
            }
        }
    }
}

proof fn lemma_enqueued_all(
    queue: QueueState,
    layout: Layout,
    requests: Seq<(Seq<char>, Seq<u8>)>,
)
    requires
        queue.counter is Some,
        queue.control_ready,
        queue.pending.len() == 0,
        forall|i: int|
            0 <= i < requests.len() ==> encoded(
                layout,
                (#[trigger] requests[i]).0,
                requests[i].1,
            ) is Ok,
    ensures
        enqueued_all(queue, layout, requests) == Ok::<QueueState, CommandError>(
            QueueState {
                pending: requested_topics(requests).map_values(
                    |topic: Seq<char>| (topic, last_command(layout, requests, topic)),
                ),
                ..queue
            },
        ),
    decreases requests.len(),
{
    let topics = requested_topics(requests);
    let pending = topics.map_values(
        |topic: Seq<char>| (topic, last_command(layout, requests, topic)),
    );
    if requests.len() == 0 {
        assert(pending =~= queue.pending);
    } else {
        let earlier = requests.drop_last();
        let (topic, request) = requests.last();
        let known = requested_topics(earlier);
        assert forall|i: int| 0 <= i < earlier.len() implies encoded(
            layout,
            (#[trigger] earlier[i]).0,
            earlier[i].1,
        ) is Ok by {
            assert(earlier[i] == requests[i]);
        }
        lemma_enqueued_all(queue, layout, earlier);
        lemma_requested_topics(earlier);
        let before = known.map_values(
            |topic: Seq<char>| (topic, last_command(layout, earlier, topic)),
        );
        let command = encoded(layout, topic, request)->Ok_0;
        assert(requests[requests.len() - 1] == requests.last());
        lemma_coalesced(before, topic, 0);
        match waiting_from(before, topic, 0) {
            Some(i) => {
                assert(known[i] == topic);
                assert(known.contains(topic));
                assert forall|j: int| 0 <= j < topics.len() implies pending[j] == before.update(
                    i,
                    (topic, command),
                )[j] by {
                    if j != i {
                        assert(known[j] != topic);
                    }
                }
                assert(pending =~= before.update(i, (topic, command)));
            },
            None => {
                assert(!known.contains(topic)) by {
                    assert forall|j: int| 0 <= j < known.len() implies known[j] != topic by {
                        assert(before[j].0 != topic);
                    }
                }
                assert forall|j: int| 0 <= j < topics.len() implies pending[j] == before.push(
                    (topic, command),
                )[j] by {
                    if j < known.len() {
                        assert(before[j].0 != topic);
                    }
                }
                assert(pending =~= before.push((topic, command)));
            },
        }
    }
}

proof fn lemma_handed_out(queue: QueueState, states: Seq<Map<Seq<char>, Json>>)
    requires
        queue.counter is Some,
        queue.in_flight_after is None,
        states.len() >= queue.pending.len(),
        all_acknowledged(queue, states),
    ensures
        handed_out(queue, states) == queue.pending.map_values(
            |waiting: (Seq<char>, (Seq<char>, Seq<u8>))| waiting.1,
        ),
        after_handing_out(queue, states).pending.len() == 0,
        waits_for_every_answer(queue, states),
    decreases states.len(),
{
    let commands = queue.pending.map_values(
        |waiting: (Seq<char>, (Seq<char>, Seq<u8>))| waiting.1,
    );
    if queue.pending.len() > 0 {
        let next = observed(sent(queue), states.first());
        assert(next.pending == queue.pending.drop_first());
        lemma_handed_out(next, states.drop_first());
        assert(commands =~= seq![queue.pending[0].1] + next.pending.map_values(
            |waiting: (Seq<char>, (Seq<char>, Seq<u8>))| waiting.1,
        ));
    } else {
        assert(commands =~= Seq::empty());
    }
}

/// A run of valid requests on an empty queue is handed out as one command for
/// each topic, in the order of first requests, each with the last value
/// requested, and then nothing. Each command waits for the state that
/// acknowledges the one before it.
pub proof fn each_topic_is_sent_once_with_its_last_value(
    queue: QueueState,
    layout: Layout,
    requests: Seq<(Seq<char>, Seq<u8>)>,
    states: Seq<Map<Seq<char>, Json>>,
)
    requires
        queue.counter is Some,
        queue.in_flight_after is None,
        queue.control_ready,
        queue.pending.len() == 0,
        forall|i: int|
            0 <= i < requests.len() ==> encoded(
                layout,
                (#[trigger] requests[i]).0,
                requests[i].1,
            ) is Ok,
        enqueued_all(queue, layout, requests) matches Ok(filled) ==> all_acknowledged(
            filled,
            states,
        ),
        states.len() >= requested_topics(requests).len(),
    ensures
        enqueued_all(queue, layout, requests) is Ok,
        handed_out(enqueued_all(queue, layout, requests)->Ok_0, states) == wanted_commands(
            layout,
            requests,
        ),
        !can_send(after_handing_out(enqueued_all(queue, layout, requests)->Ok_0, states)),
        waits_for_every_answer(enqueued_all(queue, layout, requests)->Ok_0, states),
{
    lemma_enqueued_all(queue, layout, requests);
    let filled = enqueued_all(queue, layout, requests)->Ok_0;
    lemma_handed_out(filled, states);
    assert(filled.pending.map_values(|waiting: (Seq<char>, (Seq<char>, Seq<u8>))| waiting.1)
        =~= wanted_commands(layout, requests));
}

/// Whether the text of a rejection has the topic at `k`, whatever the topic is,
/// and is the same around it.
pub open spec fn names_topic_at(error: CommandError, request: Seq<u8>, k: int) -> bool {
    let around = command_message(error, Seq::empty(), request);
    &&& 0 <= k <= around.len()
    &&& forall|topic: Seq<char>| #[trigger]
        command_message(error, topic, request) == around.take(k) + topic + around.skip(k)
}

/// The text of a rejection names the topic where the topic is the reason, the
/// limit or the mask at its end where that is, and neither elsewhere. It depends
/// on the request only where the request is no UTF-8.
pub proof fn rejections_name_what_they_are_about(
    error: CommandError,
    topic: Seq<char>,
    request: Seq<u8>,
    limit: i64,
    mask: u8,
)
    ensures
        error is UnknownTopic || error is NotEncoded || error is NoRawTopic ==> exists|k: int|
            names_topic_at(error, request, k),
        !(error is UnknownTopic || error is NotEncoded || error is NoRawTopic) ==> command_message(
            error,
            topic,
            request,
        ) == command_message(error, Seq::empty(), request),
        !(error is InvalidUtf8) ==> command_message(error, topic, request) == command_message(
            error,
            topic,
            Seq::empty(),
        ),
        has_suffix(
            command_message(CommandError::BelowMinimum(limit), topic, request),
            " "@ + signed_decimal(limit as int),
        ),
        has_suffix(
            command_message(CommandError::AboveMaximum(limit), topic, request),
            " "@ + signed_decimal(limit as int),
        ),
        has_suffix(
            command_message(CommandError::UnsupportedMask(mask), topic, request),
            " "@ + signed_decimal(mask as int),
        ),
{
    if error is UnknownTopic || error is NotEncoded || error is NoRawTopic {
        let k: int = if error is UnknownTopic {
            "unknown command topic "@.len() as int
        } else {
            "command topic "@.len() as int
        };
        let around = command_message(error, Seq::empty(), request);
        assert forall|topic: Seq<char>| #[trigger]
            command_message(error, topic, request) == around.take(k) + topic + around.skip(k) by {
            assert(command_message(error, topic, request) =~= around.take(k) + topic + around.skip(
                k,
            ));
        }
        assert(names_topic_at(error, request, k));
    }
    reveal_strlit(" ");
    reveal_strlit("value below minimum ");
    reveal_strlit("value above maximum ");
    reveal_strlit("unsupported command mask ");
    let low = command_message(CommandError::BelowMinimum(limit), topic, request);
    let high = command_message(CommandError::AboveMaximum(limit), topic, request);
    let other = command_message(CommandError::UnsupportedMask(mask), topic, request);
    let number = " "@ + signed_decimal(limit as int);
    let bits = " "@ + signed_decimal(mask as int);
    assert(low.skip(low.len() - number.len()) =~= number);
    assert(high.skip(high.len() - number.len()) =~= number);
    assert(other.skip(other.len() - bits.len()) =~= bits);
}

} // verus!
