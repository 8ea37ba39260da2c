//! The session with the broker: what to subscribe and publish on each event.

use vstd::prelude::*;
use vstd::slice::slice_to_vec;
use vstd::string::*;
use vstd::utf8::{decode_utf8, encode_utf8, valid_utf8};

use crate::availability::{
    doubled_delay, exactly_the_fresh_states_are_replayed, fresh_cached_states, fresh_states,
    is_fresh, pair_views, CachedState, ReconnectBackoff, StateCache,
};
use crate::clock::ReceiptTime;
use crate::command::{
    can_send, commanded_position_from, enqueued, find_commanded, idle_queue,
    lemma_commanded_position, listens_first_on, listens_on, observed,
    requests_go_to_the_first_listener, sent, CommandError, CommandQueue, EncodedCommand,
    QueueState,
};
use crate::config::AppOptions;
use crate::discovery::{
    all_messages, discovery_messages, lights_have_commands, message_view, message_views,
    removed_discovery_topics, removed_topics,
};
use crate::json::{json_text, object_value, value_text, Json};
use crate::layout::{field_at, has_field, is_valid_layout, Field, Layout, TopicSpec};
use crate::normalize::{
    normalize_payload, normalized_state, outcome, ParsePayloadError, PayloadFault,
};
use crate::text::{text_eq, text_views, trimmed};
use crate::AVAILABILITY_TOPIC;

verus! {

/// The topic on which Home Assistant tells that it is up.
pub const HA_STATUS_TOPIC: &'static str = "homeassistant/status";

/// The delay before the first attempt to reconnect, in nanoseconds.
pub const MQTT_RECONNECT_INITIAL_DELAY: u128 = 1_000_000_000;

/// The longest delay before an attempt to reconnect, in nanoseconds.
pub const MQTT_RECONNECT_MAX_DELAY: u128 = 30_000_000_000;

/// The quality of service of delivery at least once.
pub const AT_LEAST_ONCE: u8 = 1;

/// Something to do on the connection, with the quality of service to ask for.
#[derive(Debug, PartialEq, Eq)]
pub enum Action {
    Subscribe { topic: String, qos: u8 },
    Publish { topic: String, qos: u8, retain: bool, payload: Vec<u8> },
}

/// What an action does.
#[verifier::ext_equal]
pub enum Step {
    Subscribe { topic: Seq<char>, qos: u8 },
    Publish { topic: Seq<char>, qos: u8, retain: bool, payload: Seq<u8> },
}

impl View for Action {
    type V = Step;

    open spec fn view(&self) -> Step {
        match *self {
            Action::Subscribe { topic, qos } => Step::Subscribe { topic: topic@, qos },
            Action::Publish { topic, qos, retain, payload } => Step::Publish {
                topic: topic@,
                qos,
                retain,
                payload: payload@,
            },
        }
    }
}

/// What a list of actions does.
pub open spec fn steps(actions: Seq<Action>) -> Seq<Step> {
    actions.map_values(|action: Action| action@)
}

/// The step that subscribes to a topic.
pub open spec fn subscription(topic: Seq<char>) -> Step {
    Step::Subscribe { topic, qos: AT_LEAST_ONCE }
}

/// The step that publishes bytes.
pub open spec fn publication(topic: Seq<char>, payload: Seq<u8>, retain: bool) -> Step {
    Step::Publish { topic, qos: AT_LEAST_ONCE, retain, payload }
}

/// The step that publishes a text.
pub open spec fn text_step(topic: Seq<char>, text: Seq<char>, retain: bool) -> Step {
    publication(topic, encode_utf8(text), retain)
}

/// The text that bytes stand for, with what is no UTF-8 replaced.
pub uninterp spec fn lossy_utf8(bytes: Seq<u8>) -> Seq<char>;

/// `String::from_utf8_lossy`: reads bytes as text. Valid UTF-8 is read as it
/// stands; what takes the place of an invalid sequence is left to the name.
#[verifier::external_body]
fn lossy_text(bytes: &[u8]) -> (text: String)
    ensures
        text@ == lossy_utf8(bytes@),
        valid_utf8(bytes@) ==> text@ == decode_utf8(bytes@),
{
    String::from_utf8_lossy(bytes).into_owned()
}

fn push_action(actions: &mut Vec<Action>, action: Action)
    ensures
        steps(final(actions)@) == steps(old(actions)@).push(action@),
{
    actions.push(action);
    assert(steps(actions@) =~= steps(old(actions)@).push(action@));
}

fn push_text(actions: &mut Vec<Action>, topic: &str, text: &str, retain: bool)
    ensures
        steps(final(actions)@) == steps(old(actions)@).push(text_step(topic@, text@, retain)),
{
    push_action(
        actions,
        Action::Publish {
            topic: topic.to_owned(),
            qos: AT_LEAST_ONCE,
            retain,
            payload: text.as_bytes_vec(),
        },
    );
}

/// Whether a field takes commands that the library encodes.
pub open spec fn takes_encoded_commands(field: Field) -> bool {
    field.discovery.command_mask is Some && field.discovery.command_topic is Some
}

/// The subscriptions to the commands of the first `n` fields of a topic.
pub open spec fn command_subscriptions(spec: TopicSpec, n: int) -> Seq<Step>
    decreases n,
{
    if n <= 0 {
        Seq::empty()
    } else {
        let before = command_subscriptions(spec, n - 1);
        let field = spec.fields@[n - 1];
        if takes_encoded_commands(field) {
            before.push(subscription(field.discovery.command_topic->0@))
        } else {
            before
        }
    }
}

/// The subscriptions to the commands of the first `n` topics.
pub open spec fn all_command_subscriptions(layout: Layout, n: int) -> Seq<Step>
    decreases n,
{
    if n <= 0 {
        Seq::empty()
    } else {
        let spec = layout.topics@[n - 1];
        all_command_subscriptions(layout, n - 1) + command_subscriptions(
            spec,
            spec.fields@.len() as int,
        )
    }
}

/// The subscriptions to what the PLC publishes on the first `n` topics.
pub open spec fn source_subscriptions(layout: Layout, n: int) -> Seq<Step> {
    Seq::new(n as nat, |t: int| subscription(layout.topics@[t].source_topic@))
}

/// All subscriptions: the PLC's topics, Home Assistant's status, and the
/// commands that the library encodes.
pub open spec fn subscriptions(layout: Layout) -> Seq<Step> {
    let count = layout.topics@.len() as int;
    source_subscriptions(layout, count).push(subscription(HA_STATUS_TOPIC@))
        + all_command_subscriptions(layout, count)
}

fn push_command_subscriptions(actions: &mut Vec<Action>, spec: &TopicSpec)
    ensures
        steps(final(actions)@) == steps(old(actions)@) + command_subscriptions(
            *spec,
            spec.fields@.len() as int,
        ),
{
    let ghost before = steps(actions@);
    let mut f: usize = 0;
    assert(before + command_subscriptions(*spec, 0) =~= before);
    while f < spec.fields.len()
        invariant
            f <= spec.fields@.len(),
            steps(actions@) == before + command_subscriptions(*spec, f as int),
        decreases spec.fields@.len() - f,
    {
        let discovery = &spec.fields[f].discovery;
        if discovery.command_mask.is_some() {
            if let Some(topic) = &discovery.command_topic {
                push_action(
                    actions,
                    Action::Subscribe { topic: topic.clone(), qos: AT_LEAST_ONCE },
                );
            }
        }
        f += 1;
        assert(steps(actions@) =~= before + command_subscriptions(*spec, f as int));
    }
}

/// Subscribes to the PLC's topics, to Home Assistant's status and to commands.
pub fn subscribe(layout: &Layout) -> (actions: Vec<Action>)
    ensures
        steps(actions@) == subscriptions(*layout),
{
    let mut actions: Vec<Action> = Vec::new();
    let mut t: usize = 0;
    assert(steps(actions@) =~= source_subscriptions(*layout, 0));
    while t < layout.topics.len()
        invariant
            t <= layout.topics@.len(),
            steps(actions@) == source_subscriptions(*layout, t as int),
        decreases layout.topics@.len() - t,
    {
        push_action(
            &mut actions,
            Action::Subscribe {
                topic: layout.topics[t].source_topic.clone(),
                qos: AT_LEAST_ONCE,
            },
        );
        t += 1;
        assert(steps(actions@) =~= source_subscriptions(*layout, t as int));
    }
    push_action(
        &mut actions,
        Action::Subscribe { topic: HA_STATUS_TOPIC.to_owned(), qos: AT_LEAST_ONCE },
    );
    let ghost before = steps(actions@);
    let mut t: usize = 0;
    assert(before + all_command_subscriptions(*layout, 0) =~= before);
    while t < layout.topics.len()
        invariant
            t <= layout.topics@.len(),
            steps(actions@) == before + all_command_subscriptions(*layout, t as int),
        decreases layout.topics@.len() - t,
    {
        push_command_subscriptions(&mut actions, &layout.topics[t]);
        t += 1;
        assert(steps(actions@) =~= before + all_command_subscriptions(*layout, t as int));
    }
    actions
}

/// The steps that remove discovery records: an empty retained payload each.
pub open spec fn removals(topics: Seq<Seq<char>>) -> Seq<Step> {
    topics.map_values(|topic: Seq<char>| publication(topic, Seq::empty(), true))
}

/// The steps that publish discovery records, retained.
pub open spec fn announcements(messages: Seq<(Seq<char>, Json)>) -> Seq<Step> {
    messages.map_values(
        |message: (Seq<char>, Json)| text_step(message.0, json_text(message.1), true),
    )
}

/// The steps that bring discovery up to date.
pub open spec fn discovery_steps(options: AppOptions, layout: Layout) -> Seq<Step> {
    removals(removed_topics(options, layout)) + announcements(all_messages(options, layout))
}

/// Removes the discovery records of former entities, then publishes those of
/// the present ones.
pub fn publish_discovery(options: &AppOptions, layout: &Layout) -> (actions: Vec<Action>)
    requires
        lights_have_commands(*options, *layout),
    ensures
        steps(actions@) == discovery_steps(*options, *layout),
{
    let removed = removed_discovery_topics(options, layout);
    let messages = discovery_messages(options, layout);
    let mut actions: Vec<Action> = Vec::new();
    let ghost gone = removals(text_views(removed@));
    let ghost told = announcements(message_views(messages@));
    let mut i: usize = 0;
    assert(steps(actions@) =~= gone.take(0));
    while i < removed.len()
        invariant
            i <= removed@.len(),
            gone == removals(text_views(removed@)),
            steps(actions@) == gone.take(i as int),
        decreases removed@.len() - i,
    {
        let payload: Vec<u8> = Vec::new();
        assert(payload@ =~= Seq::empty());
        push_action(
            &mut actions,
            Action::Publish {
                topic: removed[i].clone(),
                qos: AT_LEAST_ONCE,
                retain: true,
                payload,
            },
        );
        i += 1;
        assert(steps(actions@) =~= gone.take(i as int));
    }
    assert(gone.take(removed@.len() as int) =~= gone);
    let mut j: usize = 0;
    assert(gone + told.take(0) =~= gone);
    while j < messages.len()
        invariant
            j <= messages@.len(),
            told == announcements(message_views(messages@)),
            steps(actions@) == gone + told.take(j as int),
        decreases messages@.len() - j,
    {
        let message = &messages[j];
        let text = value_text(&message.1);
        push_text(&mut actions, message.0.as_str(), text.as_str(), true);
        assert(message_views(messages@)[j as int] == message_view(*message));
        j += 1;
        assert(steps(actions@) =~= gone + told.take(j as int));
    }
    assert(told.take(messages@.len() as int) =~= told);
    actions
}

/// The steps that replay states, not retained.
pub open spec fn replay_steps(states: Seq<(Seq<char>, Seq<char>)>) -> Seq<Step> {
    states.map_values(|state: (Seq<char>, Seq<char>)| text_step(state.0, state.1, false))
}

/// Replays the states that are recent enough, in the order of the layout.
pub fn republish_fresh_states(layout: &Layout, last_states: &StateCache, now: u128) -> (actions:
    Vec<Action>)
    requires
        last_states.is_well_formed(),
    ensures
        steps(actions@) == replay_steps(
            fresh_states(*layout, last_states@, now, layout.topics@.len() as int),
        ),
{
    let fresh = fresh_cached_states(layout, last_states, now);
    let mut actions: Vec<Action> = Vec::new();
    let ghost all = replay_steps(pair_views(fresh@));
    let mut i: usize = 0;
    assert(steps(actions@) =~= all.take(0));
    while i < fresh.len()
        invariant
            i <= fresh@.len(),
            all == replay_steps(pair_views(fresh@)),
            steps(actions@) == all.take(i as int),
        decreases fresh@.len() - i,
    {
        let (topic, payload) = fresh[i];
        push_text(&mut actions, topic, payload, false);
        i += 1;
        assert(steps(actions@) =~= all.take(i as int));
    }
    assert(all.take(fresh@.len() as int) =~= all);
    actions
}

/// The steps on a new connection.
pub open spec fn refresh_steps(
    options: AppOptions,
    layout: Layout,
    cached: Map<Seq<char>, (Seq<char>, u128)>,
    now: u128,
) -> Seq<Step> {
    seq![text_step(AVAILABILITY_TOPIC@, "online"@, true)] + subscriptions(layout)
        + discovery_steps(options, layout) + replay_steps(
        fresh_states(layout, cached, now, layout.topics@.len() as int),
    )
}

fn extend_actions(actions: &mut Vec<Action>, more: Vec<Action>)
    ensures
        steps(final(actions)@) == steps(old(actions)@) + steps(more@),
{
    let ghost before = actions@;
    let ghost added = more@;
    let mut more = more;
    actions.append(&mut more);
    assert(actions@ =~= before + added);
    assert(steps(actions@) =~= steps(before) + steps(added));
}

/// Sets up a new connection: the status, the subscriptions, discovery and the
/// recent states.
pub fn refresh_connection(
    options: &AppOptions,
    layout: &Layout,
    last_states: &StateCache,
    now: u128,
) -> (actions: Vec<Action>)
    requires
        lights_have_commands(*options, *layout),
        last_states.is_well_formed(),
    ensures
        steps(actions@) == refresh_steps(*options, *layout, last_states@, now),
{
    let mut actions: Vec<Action> = Vec::new();
    push_text(&mut actions, AVAILABILITY_TOPIC, "online", true);
    assert(steps(actions@) =~= seq![text_step(AVAILABILITY_TOPIC@, "online"@, true)]);
    extend_actions(&mut actions, subscribe(layout));
    extend_actions(&mut actions, publish_discovery(options, layout));
    extend_actions(&mut actions, republish_fresh_states(layout, last_states, now));
    actions
}

/// Why a message is rejected.
#[derive(Debug)]
pub enum Rejection {
    Payload(ParsePayloadError),
    Command(CommandError),
}

/// What was wrong with a rejected message.
pub enum Refusal {
    Payload(PayloadFault),
    Command(CommandError),
}

impl View for Rejection {
    type V = Refusal;

    open spec fn view(&self) -> Refusal {
        match *self {
            Rejection::Payload(error) => Refusal::Payload(error@),
            Rejection::Command(error) => Refusal::Command(error),
        }
    }
}

/// What a session keeps between events.
#[derive(Debug)]
pub struct Session {
    states: StateCache,
    backoff: ReconnectBackoff,
    commands: CommandQueue,
}

/// What a session holds.
#[verifier::ext_equal]
pub struct SessionState {
    /// The last state of each state topic, and when it was received.
    pub cached: Map<Seq<char>, (Seq<char>, u128)>,
    /// The delay before the next attempt to reconnect.
    pub delay: u128,
    /// The commands for the pump.
    pub queue: QueueState,
}

impl View for Session {
    type V = SessionState;

    closed spec fn view(&self) -> SessionState {
        SessionState {
            cached: self.states@,
            delay: self.backoff.current,
            queue: self.commands@,
        }
    }
}

/// The place of the first topic from `t` on that the PLC publishes under the
/// given name.
pub open spec fn source_from(layout: Layout, topic: Seq<char>, t: int) -> Option<int>
    decreases layout.topics@.len() - t,
{
    if 0 <= t < layout.topics@.len() {
        if layout.topics@[t].source_topic@ == topic {
            Some(t)
        } else {
            source_from(layout, topic, t + 1)
        }
    } else {
        None
    }
}

/// The state of a session that has not connected yet.
pub open spec fn new_session() -> SessionState {
    SessionState {
        cached: Map::empty(),
        delay: MQTT_RECONNECT_INITIAL_DELAY,
        queue: idle_queue(),
    }
}

/// A session on a new connection: the delay starts over, and no command is left
/// over from the old connection.
pub open spec fn reconnected(session: SessionState) -> SessionState {
    SessionState { delay: MQTT_RECONNECT_INITIAL_DELAY, queue: idle_queue(), ..session }
}

/// A session after another failed attempt to connect.
pub open spec fn disconnected(session: SessionState) -> SessionState {
    SessionState { delay: doubled_delay(session.delay, MQTT_RECONNECT_MAX_DELAY), ..session }
}

/// The step that sends an encoded command to the PLC, not retained.
pub open spec fn command_step(command: (Seq<char>, Seq<u8>)) -> Step {
    publication(command.0, command.1, false)
}

/// A session that sends its oldest command where it can, and the steps before
/// and with it.
pub open spec fn after_sending(session: SessionState, done: Seq<Step>) -> (
    SessionState,
    Seq<Step>,
) {
    if can_send(session.queue) {
        (
            SessionState { queue: sent(session.queue), ..session },
            done.push(command_step(session.queue.pending[0].1)),
        )
    } else {
        (session, done)
    }
}

/// What a payload of the PLC does: its normalized state is published and kept,
/// the command queue takes note of it, and the next command is sent where one
/// can be.
pub open spec fn after_payload(
    session: SessionState,
    spec: TopicSpec,
    payload: Seq<char>,
    now: u128,
    received_at: ReceiptTime,
) -> Result<(SessionState, Seq<Step>), Refusal> {
    match normalized_state(spec, payload, received_at) {
        Err(fault) => Err(Refusal::Payload(fault)),
        Ok(state) => {
            let text = json_text(Json::Object(state));
            let next = SessionState {
                cached: session.cached.insert(spec.state_topic@, (text, now)),
                queue: observed(session.queue, state),
                ..session
            };
            Ok(after_sending(next, seq![text_step(spec.state_topic@, text, false)]))
        },
    }
}

/// What a request for a command does: it is queued, and sent where it can be.
pub open spec fn after_request(
    session: SessionState,
    layout: Layout,
    topic: Seq<char>,
    request: Seq<u8>,
) -> Result<(SessionState, Seq<Step>), Refusal> {
    match enqueued(session.queue, layout, topic, request) {
        Err(error) => Err(Refusal::Command(error)),
        Ok(queue) => Ok(after_sending(SessionState { queue, ..session }, Seq::empty())),
    }
}

/// What Home Assistant's status does: once it is up, it is told of all entities
/// and their recent states.
pub open spec fn birth_steps(
    options: AppOptions,
    layout: Layout,
    cached: Map<Seq<char>, (Seq<char>, u128)>,
    status: Seq<char>,
    now: u128,
) -> Seq<Step> {
    if trimmed(status) == "online"@ {
        discovery_steps(options, layout) + replay_steps(
            fresh_states(layout, cached, now, layout.topics@.len() as int),
        )
    } else {
        Seq::empty()
    }
}

/// Whether a topic requests commands that the library encodes.
pub open spec fn is_encoded_topic(layout: Layout, topic: Seq<char>) -> bool {
    commanded_position_from(layout, topic, 0) matches Some((t, f)) && field_at(
        layout,
        t,
        f,
    ).discovery.command_mask is Some
}

/// What a message does: Home Assistant's status, a payload of the PLC, a
/// request for a command that the library encodes, or nothing on any other
/// topic.
pub open spec fn after_message(
    session: SessionState,
    options: AppOptions,
    layout: Layout,
    topic: Seq<char>,
    payload: Seq<u8>,
    now: u128,
    received_at: ReceiptTime,
) -> Result<(SessionState, Seq<Step>), Refusal> {
    if topic == HA_STATUS_TOPIC@ {
        let steps = birth_steps(options, layout, session.cached, lossy_utf8(payload), now);
        Ok((session, steps))
    } else {
        match source_from(layout, topic, 0) {
            Some(t) => after_payload(
                session,
                layout.topics@[t],
                lossy_utf8(payload),
                now,
                received_at,
            ),
            None => if is_encoded_topic(layout, topic) {
                after_request(session, layout, topic, payload)
            } else {
                Ok((session, Seq::empty()))
            },
        }
    }
}

fn find_source<'a>(layout: &'a Layout, topic: &str) -> (found: Option<&'a TopicSpec>)
    ensures
        found is Some <==> source_from(*layout, topic@, 0) is Some,
        found matches Some(spec) ==> *spec == layout.topics@[source_from(*layout, topic@, 0)->0],
{
    let mut t: usize = 0;
    while t < layout.topics.len()
        invariant
            t <= layout.topics@.len(),
            source_from(*layout, topic@, 0) == source_from(*layout, topic@, t as int),
        decreases layout.topics@.len() - t,
    {
        if text_eq(layout.topics[t].source_topic.as_str(), topic) {
            return Some(&layout.topics[t]);
        }
        t += 1;
    }
    None
}

fn command_action(command: EncodedCommand) -> (action: Action)
    ensures
        action@ == command_step(command@),
{
    let payload = slice_to_vec(command.payload.as_slice());
    Action::Publish { topic: command.raw_topic, qos: AT_LEAST_ONCE, retain: false, payload }
}

impl Session {
    /// Whether the parts of the session are well formed.
    pub closed spec fn is_well_formed(&self) -> bool {
        &&& self.states.is_well_formed()
        &&& self.commands@.is_coalesced()
        &&& self.backoff.initial == MQTT_RECONNECT_INITIAL_DELAY
        &&& self.backoff.max == MQTT_RECONNECT_MAX_DELAY
    }

    /// A session that has not connected yet.
    pub fn new() -> (session: Self)
        ensures
            session.is_well_formed(),
            session@ == new_session(),
    {
        Session {
            states: StateCache::new(),
            backoff: ReconnectBackoff::new(MQTT_RECONNECT_INITIAL_DELAY, MQTT_RECONNECT_MAX_DELAY),
            commands: CommandQueue::new(),
        }
    }

    /// What to do once a connection is established, at `now` on the monotonic
    /// clock.
    pub fn connected(&mut self, options: &AppOptions, layout: &Layout, now: u128) -> (actions: Vec<
        Action,
    >)
        requires
            old(self).is_well_formed(),
            lights_have_commands(*options, *layout),
        ensures
            final(self).is_well_formed(),
            final(self)@ == reconnected(old(self)@),
            steps(actions@) == refresh_steps(*options, *layout, old(self)@.cached, now),
    {
        self.backoff.reset();
        self.commands.reset_connection();
        refresh_connection(options, layout, &self.states, now)
    }

    /// How long to wait after the connection failed, in nanoseconds.
    pub fn connection_failed(&mut self) -> (delay: u128)
        requires
            old(self).is_well_formed(),
        ensures
            final(self).is_well_formed(),
            final(self)@ == disconnected(old(self)@),
            delay == old(self)@.delay,
    {
        self.backoff.next_delay()
    }

    /// Sends the oldest command where it can be sent.
    fn send_ready(&mut self, actions: &mut Vec<Action>)
        requires
            old(self).is_well_formed(),
        ensures
            final(self).is_well_formed(),
            (final(self)@, steps(final(actions)@)) == after_sending(
                old(self)@,
                steps(old(actions)@),
            ),
    {
        if let Some(command) = self.commands.take_ready() {
            push_action(actions, command_action(command));
        }
    }

    /// What to do on Home Assistant's status.
    pub fn status_received(
        &self,
        options: &AppOptions,
        layout: &Layout,
        status: &str,
        now: u128,
    ) -> (actions: Vec<Action>)
        requires
            self.is_well_formed(),
            lights_have_commands(*options, *layout),
        ensures
            steps(actions@) == birth_steps(*options, *layout, self@.cached, status@, now),
    {
        let mut actions: Vec<Action> = Vec::new();
        assert(steps(actions@) =~= Seq::empty());
        if text_eq(status.trim(), "online") {
            actions = publish_discovery(options, layout);
            extend_actions(&mut actions, republish_fresh_states(layout, &self.states, now));
        }
        actions
    }

    /// What to do on a payload of the PLC, received at `now` on the monotonic
    /// clock and at `received_at` on the wall clock.
    pub fn payload_received(
        &mut self,
        spec: &TopicSpec,
        payload: &str,
        now: u128,
        received_at: ReceiptTime,
    ) -> (result: Result<Vec<Action>, Rejection>)
        requires
            old(self).is_well_formed(),
        ensures
            final(self).is_well_formed(),
            result matches Ok(actions) ==> after_payload(
                old(self)@,
                *spec,
                payload@,
                now,
                received_at,
            ) == Ok::<(SessionState, Seq<Step>), Refusal>((final(self)@, steps(actions@))),
            result matches Err(rejection) ==> after_payload(
                old(self)@,
                *spec,
                payload@,
                now,
                received_at,
            ) == Err::<(SessionState, Seq<Step>), Refusal>(rejection@) && final(self)@ == old(
                self,
            )@,
    {
        let normalized = normalize_payload(spec, payload, received_at);
        let ghost wanted = normalized_state(*spec, payload@, received_at);
        assert(outcome(normalized) == wanted);
        match normalized {
            Ok(state) => {
                self.commands.observe_state(&state);
                let tree = object_value(state);
                let text = value_text(&tree);
                let mut actions: Vec<Action> = Vec::new();
                push_text(&mut actions, spec.state_topic.as_str(), text.as_str(), false);
                assert(steps(actions@) =~= seq![text_step(spec.state_topic@, text@, false)]);
                self.states.insert(
                    spec.state_topic.as_str(),
                    CachedState { payload: text, updated_at: now },
                );
                self.send_ready(&mut actions);
                Ok(actions)
            },
            Err(error) => Err(Rejection::Payload(error)),
        }
    }

    /// What to do on a request for a command.
    pub fn request_received(&mut self, layout: &Layout, topic: &str, request: &[u8]) -> (result: Result<
        Vec<Action>,
        Rejection,
    >)
        requires
            old(self).is_well_formed(),
        ensures
            final(self).is_well_formed(),
            result matches Ok(actions) ==> after_request(old(self)@, *layout, topic@, request@)
                == Ok::<(SessionState, Seq<Step>), Refusal>((final(self)@, steps(actions@))),
            result matches Err(rejection) ==> after_request(
                old(self)@,
                *layout,
                topic@,
                request@,
            ) == Err::<(SessionState, Seq<Step>), Refusal>(rejection@) && final(self)@ == old(
                self,
            )@,
    {
        match self.commands.enqueue(layout, topic, request) {
            Ok(()) => {
                let mut actions: Vec<Action> = Vec::new();
                assert(steps(actions@) =~= Seq::empty());
                self.send_ready(&mut actions);
                Ok(actions)
            },
            Err(error) => Err(Rejection::Command(error)),
        }
    }

    /// What to do on a message, received at `now` on the monotonic clock and at
    /// `received_at` on the wall clock. A message that is rejected changes
    /// nothing.
    pub fn message_received(
        &mut self,
        options: &AppOptions,
        layout: &Layout,
        topic: &str,
        payload: &[u8],
        now: u128,
        received_at: ReceiptTime,
    ) -> (result: Result<Vec<Action>, Rejection>)
        requires
            old(self).is_well_formed(),
            lights_have_commands(*options, *layout),
        ensures
            final(self).is_well_formed(),
            result matches Ok(actions) ==> after_message(
                old(self)@,
                *options,
                *layout,
                topic@,
                payload@,
                now,
                received_at,
            ) == Ok::<(SessionState, Seq<Step>), Refusal>((final(self)@, steps(actions@))),
            result matches Err(rejection) ==> after_message(
                old(self)@,
                *options,
                *layout,
                topic@,
                payload@,
                now,
                received_at,
            ) == Err::<(SessionState, Seq<Step>), Refusal>(rejection@) && final(self)@ == old(
                self,
            )@,
    {
        if text_eq(topic, HA_STATUS_TOPIC) {
            let status = lossy_text(payload);
            return Ok(self.status_received(options, layout, status.as_str(), now));
        }
        if let Some(spec) = find_source(layout, topic) {
            let text = lossy_text(payload);
            return self.payload_received(spec, text.as_str(), now, received_at);
        }
        if let Some((t, f)) = find_commanded(layout, topic) {
            if layout.topics[t].fields[f].discovery.command_mask.is_some() {
                return self.request_received(layout, topic, payload);
            }
        }
        let actions: Vec<Action> = Vec::new();
        assert(steps(actions@) =~= Seq::empty());
        Ok(actions)
    }
}

impl Default for Session {
    fn default() -> (session: Self)
        ensures
            session.is_well_formed(),
            session@ == new_session(),
    {
        Session::new()
    }
}

/// Records of former entities are removed before those of the present ones are
/// published, and all of it is retained.
pub proof fn removals_go_before_announcements(options: AppOptions, layout: Layout)
    ensures
        discovery_steps(options, layout).len() == removed_topics(options, layout).len()
            + all_messages(options, layout).len(),
        forall|i: int|
            0 <= i < removed_topics(options, layout).len() ==> #[trigger] discovery_steps(
                options,
                layout,
            )[i] == (Step::Publish {
                topic: removed_topics(options, layout)[i],
                qos: 1,
                retain: true,
                payload: Seq::empty(),
            }),
        forall|i: int|
            removed_topics(options, layout).len() <= i < discovery_steps(options, layout).len()
                ==> #[trigger] discovery_steps(options, layout)[i] == (Step::Publish {
                topic: all_messages(options, layout)[i - removed_topics(options, layout).len()].0,
                qos: 1,
                retain: true,
                payload: encode_utf8(
                    json_text(
                        all_messages(options, layout)[i - removed_topics(options, layout).len()].1,
                    ),
                ),
            }),
{
}

/// Whether a step asks the broker to retain a message.
pub open spec fn is_retained(step: Step) -> bool {
    step matches Step::Publish { retain, .. } && retain
}

/// Normalized states and commands are never retained.
pub proof fn states_and_commands_are_not_retained(
    session: SessionState,
    options: AppOptions,
    layout: Layout,
    topic: Seq<char>,
    payload: Seq<u8>,
    now: u128,
    received_at: ReceiptTime,
    i: int,
)
    ensures
        topic != "homeassistant/status"@ ==> (after_message(
            session,
            options,
            layout,
            topic,
            payload,
            now,
            received_at,
        ) matches Ok((next, done)) ==> (0 <= i < done.len() ==> !is_retained(done[i]))),
        0 <= i < replay_steps(
            fresh_states(layout, session.cached, now, layout.topics@.len() as int),
        ).len() ==> !is_retained(
            replay_steps(
                fresh_states(layout, session.cached, now, layout.topics@.len() as int),
            )[i],
        ),
{
}

/// A state that was published is published again, word for word, on a
/// connection that is established while it is fresh, unless another state of
/// its topic came in between.
pub proof fn recent_states_are_replayed(
    session: SessionState,
    options: AppOptions,
    layout: Layout,
    t: int,
    payload: Seq<char>,
    now: u128,
    received_at: ReceiptTime,
    later: u128,
)
    requires
        0 <= t < layout.topics@.len(),
        after_payload(session, layout.topics@[t], payload, now, received_at) is Ok,
        later <= now + 60_000_000_000,
    ensures
        ({
            let (next, done) = after_payload(
                session,
                layout.topics@[t],
                payload,
                now,
                received_at,
            )->Ok_0;
            &&& done.len() > 0
            &&& refresh_steps(options, layout, next.cached, later).contains(done[0])
        }),
{
    let spec = layout.topics@[t];
    let topic = spec.state_topic@;
    let (next, done) = after_payload(session, spec, payload, now, received_at)->Ok_0;
    let state = normalized_state(spec, payload, received_at)->Ok_0;
    let text = json_text(Json::Object(state));
    let count = layout.topics@.len() as int;
    let fresh = fresh_states(layout, next.cached, later, count);
    assert(next.cached[topic] == (text, now));
    assert(is_fresh(next.cached, topic, later));
    exactly_the_fresh_states_are_replayed(layout, next.cached, later, topic, text);
    let i = choose|i: int| 0 <= i < fresh.len() && fresh[i] == (topic, text);
    let all = refresh_steps(options, layout, next.cached, later);
    let before = all.len() - fresh.len();
    assert(all[before + i] == replay_steps(fresh)[i]);
    assert(done[0] == text_step(topic, text, false));
}

/// A command that can be sent never waits: after every event the queue has
/// nothing to hand out.
pub proof fn sendable_commands_never_wait(
    session: SessionState,
    options: AppOptions,
    layout: Layout,
    topic: Seq<char>,
    payload: Seq<u8>,
    now: u128,
    received_at: ReceiptTime,
)
    requires
        !can_send(session.queue),
    ensures
        !can_send(new_session().queue),
        !can_send(reconnected(session).queue),
        !can_send(disconnected(session).queue),
        after_message(session, options, layout, topic, payload, now, received_at) matches Ok(
            (next, done),
        ) ==> !can_send(next.queue),
{
}

/// The delay between attempts to reconnect stays between the first and the
/// longest one.
pub proof fn reconnect_delays_stay_bounded(
    session: SessionState,
    options: AppOptions,
    layout: Layout,
    topic: Seq<char>,
    payload: Seq<u8>,
    now: u128,
    received_at: ReceiptTime,
)
    requires
        1_000_000_000 <= session.delay <= 30_000_000_000,
    ensures
        new_session().delay == 1_000_000_000,
        reconnected(session).delay == 1_000_000_000,
        session.delay <= disconnected(session).delay <= 30_000_000_000,
        after_message(session, options, layout, topic, payload, now, received_at) matches Ok(
            (next, done),
        ) ==> next.delay == session.delay,
{
}

/// A message on a topic that is neither Home Assistant's status nor the PLC's
/// nor that of an encoded command does nothing.
pub proof fn unmatched_topics_are_ignored(
    session: SessionState,
    options: AppOptions,
    layout: Layout,
    topic: Seq<char>,
    payload: Seq<u8>,
    now: u128,
    received_at: ReceiptTime,
)
    requires
        topic != "homeassistant/status"@,
        forall|t: int|
            0 <= t < layout.topics@.len() ==> (#[trigger] layout.topics@[t]).source_topic@ != topic,
        forall|t: int, f: int| #[trigger]
            listens_on(layout, t, f, topic)
                ==> layout.topics@[t].fields@[f].discovery.command_mask is None,
    ensures
        after_message(session, options, layout, topic, payload, now, received_at) == Ok::<
            (SessionState, Seq<Step>),
            Refusal,
        >((session, Seq::empty())),
{
    lemma_source_from(layout, topic, 0);
    lemma_commanded_position(layout, topic, 0);
    if let Some((t, f)) = commanded_position_from(layout, topic, 0) {
        assert(listens_on(layout, t, f, topic));
    }
}

proof fn lemma_source_from(layout: Layout, topic: Seq<char>, start: int)
    requires
        0 <= start,
    ensures
        match source_from(layout, topic, start) {
            Some(t) => start <= t < layout.topics@.len() && layout.topics@[t].source_topic@ == topic,
            None => forall|t: int|
                start <= t < layout.topics@.len() ==> (#[trigger] layout.topics@[t]).source_topic@
                    != topic,
        },
    decreases layout.topics@.len() - start,
{
    if start < layout.topics@.len() {
        lemma_source_from(layout, topic, start + 1);
    }
}

proof fn lemma_command_subscriptions(spec: TopicSpec, n: int, topic: Seq<char>)
    requires
        0 <= n <= spec.fields@.len(),
    ensures
        command_subscriptions(spec, n).contains(subscription(topic)) <==> exists|f: int|
            0 <= f < n && takes_encoded_commands(#[trigger] spec.fields@[f])
                && spec.fields@[f].discovery.command_topic->0@ == topic,
    decreases n,
{
    if n > 0 {
        lemma_command_subscriptions(spec, n - 1, topic);
        let before = command_subscriptions(spec, n - 1);
        let all = command_subscriptions(spec, n);
        let wanted = subscription(topic);
        if all.contains(wanted) {
            let i = choose|i: int| 0 <= i < all.len() && all[i] == wanted;
            if i < before.len() {
                assert(before[i] == wanted);
            } else {
                assert(takes_encoded_commands(spec.fields@[n - 1]));
            }
        }
        if before.contains(wanted) {
            let i = choose|i: int| 0 <= i < before.len() && before[i] == wanted;
            assert(all[i] == wanted);
        }
        if takes_encoded_commands(spec.fields@[n - 1])
            && spec.fields@[n - 1].discovery.command_topic->0@ == topic {
            assert(all.last() == wanted);
        }
    }
}

proof fn lemma_all_command_subscriptions(layout: Layout, n: int, topic: Seq<char>)
    requires
        0 <= n <= layout.topics@.len(),
    ensures
        all_command_subscriptions(layout, n).contains(subscription(topic)) <==> exists|
            t: int,
            f: int,
        |
            t < n && #[trigger] has_field(layout, t, f) && takes_encoded_commands(
                field_at(layout, t, f),
            ) && field_at(layout, t, f).discovery.command_topic->0@ == topic,
    decreases n,
{
    if n > 0 {
        lemma_all_command_subscriptions(layout, n - 1, topic);
        let spec = layout.topics@[n - 1];
        let count = spec.fields@.len() as int;
        lemma_command_subscriptions(spec, count, topic);
        let before = all_command_subscriptions(layout, n - 1);
        let own = command_subscriptions(spec, count);
        let all = all_command_subscriptions(layout, n);
        let wanted = subscription(topic);
        if all.contains(wanted) {
            let i = choose|i: int| 0 <= i < all.len() && all[i] == wanted;
            if i < before.len() {
                assert(before[i] == wanted);
            } else {
                assert(own[i - before.len()] == wanted);
                let f = choose|f: int|
                    0 <= f < count && takes_encoded_commands(#[trigger] spec.fields@[f])
                        && spec.fields@[f].discovery.command_topic->0@ == topic;
                assert(has_field(layout, n - 1, f));
            }
        }
        if exists|t: int, f: int|
            t < n && #[trigger] has_field(layout, t, f) && takes_encoded_commands(
                field_at(layout, t, f),
            ) && field_at(layout, t, f).discovery.command_topic->0@ == topic {
            let (t, f) = choose|t: int, f: int|
                t < n && #[trigger] has_field(layout, t, f) && takes_encoded_commands(
                    field_at(layout, t, f),
                ) && field_at(layout, t, f).discovery.command_topic->0@ == topic;
            if t == n - 1 {
                assert(takes_encoded_commands(spec.fields@[f]));
                let i = choose|i: int| 0 <= i < own.len() && own[i] == wanted;
                assert(all[before.len() + i] == wanted);
            } else {
                let i = choose|i: int| 0 <= i < before.len() && before[i] == wanted;
                assert(all[i] == wanted);
            }
        }
    }
}

/// Exactly these topics are subscribed to: what the PLC publishes, Home
/// Assistant's status, and the command topics of the fields whose commands are
/// encoded.
pub proof fn exactly_the_needed_topics_are_subscribed(layout: Layout, topic: Seq<char>)
    ensures
        subscriptions(layout).contains(Step::Subscribe { topic, qos: 1 }) <==> (topic
            == "homeassistant/status"@ || (exists|t: int|
            0 <= t < layout.topics@.len() && (#[trigger] layout.topics@[t]).source_topic@ == topic)
            || (exists|t: int, f: int| #[trigger]
            listens_on(layout, t, f, topic)
                && layout.topics@[t].fields@[f].discovery.command_mask is Some)),
{
    assert((exists|t: int, f: int| #[trigger]
        listens_on(layout, t, f, topic)
            && layout.topics@[t].fields@[f].discovery.command_mask is Some) <==> (exists|
        t: int,
        f: int,
    | #[trigger]
        has_field(layout, t, f) && takes_encoded_commands(field_at(layout, t, f)) && field_at(
            layout,
            t,
            f,
        ).discovery.command_topic->0@ == topic)) by {
        assert forall|t: int, f: int| #[trigger] listens_on(layout, t, f, topic)
            && layout.topics@[t].fields@[f].discovery.command_mask is Some implies has_field(
            layout,
            t,
            f,
        ) && takes_encoded_commands(field_at(layout, t, f)) by {}
        assert forall|t: int, f: int| #[trigger] has_field(layout, t, f) && takes_encoded_commands(
            field_at(layout, t, f),
        ) && field_at(layout, t, f).discovery.command_topic->0@ == topic implies listens_on(
            layout,
            t,
            f,
            topic,
        ) by {}
    }
    let count = layout.topics@.len() as int;
    lemma_all_command_subscriptions(layout, count, topic);
    let sources = source_subscriptions(layout, count);
    let commands = all_command_subscriptions(layout, count);
    let all = subscriptions(layout);
    let wanted = subscription(topic);
    if all.contains(wanted) {
        let i = choose|i: int| 0 <= i < all.len() && all[i] == wanted;
        if i < count {
            assert(all[i] == sources[i]);
            assert(layout.topics@[i].source_topic@ == topic);
        } else if i > count {
            assert(all[i] == commands[i - count - 1]);
            assert(commands.contains(wanted));
        }
    }
    if topic == HA_STATUS_TOPIC@ {
        assert(all[count] == wanted);
    }
    if exists|t: int|
        0 <= t < layout.topics@.len() && (#[trigger] layout.topics@[t]).source_topic@ == topic {
        let t = choose|t: int|
            0 <= t < layout.topics@.len() && (#[trigger] layout.topics@[t]).source_topic@ == topic;
        assert(all[t] == sources[t]);
    }
    if commands.contains(wanted) {
        let i = choose|i: int| 0 <= i < commands.len() && commands[i] == wanted;
        assert(all[count + 1 + i] == wanted);
    }
}

/// The quality of service that a step asks for.
pub open spec fn asked_qos(step: Step) -> u8 {
    match step {
        Step::Subscribe { qos, .. } => qos,
        Step::Publish { qos, .. } => qos,
    }
}

/// Whether every step asks for delivery at least once.
pub open spec fn all_at_least_once(done: Seq<Step>) -> bool {
    forall|i: int| 0 <= i < done.len() ==> asked_qos(#[trigger] done[i]) == 1
}

proof fn lemma_joined_at_least_once(first: Seq<Step>, second: Seq<Step>)
    requires
        all_at_least_once(first),
        all_at_least_once(second),
    ensures
        all_at_least_once(first + second),
{
    let joined = first + second;
    assert forall|i: int| 0 <= i < joined.len() implies asked_qos(#[trigger] joined[i])
        == 1 by {
        if i < first.len() {
            assert(joined[i] == first[i]);
        } else {
            assert(joined[i] == second[i - first.len()]);
        }
    }
}

proof fn lemma_command_subscriptions_qos(spec: TopicSpec, n: int)
    ensures
        all_at_least_once(command_subscriptions(spec, n)),
    decreases n,
{
    if n > 0 {
        lemma_command_subscriptions_qos(spec, n - 1);
        let before = command_subscriptions(spec, n - 1);
        let own = subscription(spec.fields@[n - 1].discovery.command_topic->0@);
        lemma_joined_at_least_once(before, seq![own]);
        assert(before.push(own) =~= before + seq![own]);
    }
}

proof fn lemma_all_command_subscriptions_qos(layout: Layout, n: int)
    ensures
        all_at_least_once(all_command_subscriptions(layout, n)),
    decreases n,
{
    if n > 0 {
        let spec = layout.topics@[n - 1];
        let count = spec.fields@.len() as int;
        lemma_all_command_subscriptions_qos(layout, n - 1);
        lemma_command_subscriptions_qos(spec, count);
        lemma_joined_at_least_once(
            all_command_subscriptions(layout, n - 1),
            command_subscriptions(spec, count),
        );
    }
}

/// Every subscription and every message asks for delivery at least once.
pub proof fn everything_is_delivered_at_least_once(
    session: SessionState,
    options: AppOptions,
    layout: Layout,
    topic: Seq<char>,
    payload: Seq<u8>,
    now: u128,
    received_at: ReceiptTime,
)
    ensures
        all_at_least_once(refresh_steps(options, layout, session.cached, now)),
        after_message(session, options, layout, topic, payload, now, received_at) matches Ok(
            (next, done),
        ) ==> all_at_least_once(done),
{
    let count = layout.topics@.len() as int;
    let sources = source_subscriptions(layout, count);
    let listed = sources.push(subscription(HA_STATUS_TOPIC@));
    let commands = all_command_subscriptions(layout, count);
    lemma_all_command_subscriptions_qos(layout, count);
    lemma_joined_at_least_once(listed, commands);
    let gone = removals(removed_topics(options, layout));
    let told = announcements(all_messages(options, layout));
    lemma_joined_at_least_once(gone, told);
    let replayed = replay_steps(fresh_states(layout, session.cached, now, count));
    lemma_joined_at_least_once(gone + told, replayed);
    let online = seq![text_step(AVAILABILITY_TOPIC@, "online"@, true)];
    lemma_joined_at_least_once(online, listed + commands);
    lemma_joined_at_least_once(online + (listed + commands), gone + told);
    lemma_joined_at_least_once(online + (listed + commands) + (gone + told), replayed);
}

/// Whether a queue has a command that can go out now.
pub open spec fn has_ready_command(queue: QueueState) -> bool {
    queue.pending.len() > 0 && queue.counter is Some && queue.in_flight_after is None
}

/// Whether a queue is what is left of another once its oldest command went out.
pub open spec fn sent_the_oldest(before: QueueState, after: QueueState) -> bool {
    &&& after.pending.len() == before.pending.len() - 1
    &&& forall|i: int|
        0 <= i < after.pending.len() ==> #[trigger] after.pending[i] == before.pending[i + 1]
    &&& after.in_flight_after == before.counter
    &&& after.counter == before.counter
    &&& after.control_ready == before.control_ready
}

/// A message on the source topic of a topic of the layout is a payload of that
/// topic, whatever the options say and whatever the topic's kind. Where the
/// payload can be normalized, its state is published first, as JSON text to the
/// topic's state topic, not retained, and kept with the time of its receipt; the
/// queue takes note of the state, and the oldest command follows where one can
/// go out. Where it cannot, the message is refused for what is wrong with it.
pub proof fn payloads_become_states(
    session: SessionState,
    options: AppOptions,
    layout: Layout,
    t: int,
    payload: Seq<u8>,
    now: u128,
    received_at: ReceiptTime,
)
    requires
        0 <= t < layout.topics@.len(),
        layout.topics@[t].source_topic@ != "homeassistant/status"@,
        forall|u: int|
            0 <= u < t ==> (#[trigger] layout.topics@[u]).source_topic@
                != layout.topics@[t].source_topic@,
    ensures
        ({
            let spec = layout.topics@[t];
            let after = after_message(
                session,
                options,
                layout,
                spec.source_topic@,
                payload,
                now,
                received_at,
            );
            match normalized_state(spec, lossy_utf8(payload), received_at) {
                Err(fault) => after == Err::<(SessionState, Seq<Step>), Refusal>(
                    Refusal::Payload(fault),
                ),
                Ok(state) => {
                    let text = json_text(Json::Object(state));
                    let queue = observed(session.queue, state);
                    let (next, done) = after->Ok_0;
                    &&& after is Ok
                    &&& next.delay == session.delay
                    &&& next.cached == session.cached.insert(spec.state_topic@, (text, now))
                    &&& done.len() == (if has_ready_command(queue) {
                        2int
                    } else {
                        1
                    })
                    &&& done[0] == (Step::Publish {
                        topic: spec.state_topic@,
                        qos: 1,
                        retain: false,
                        payload: encode_utf8(text),
                    })
                    &&& !has_ready_command(queue) ==> next.queue == queue
                    &&& has_ready_command(queue) ==> sent_the_oldest(queue, next.queue) && done[1]
                        == (Step::Publish {
                        topic: queue.pending[0].1.0,
                        qos: 1,
                        retain: false,
                        payload: queue.pending[0].1.1,
                    })
                },
            }
        }),
{
    lemma_first_source(layout, t, 0);
}

proof fn lemma_first_source(layout: Layout, t: int, start: int)
    requires
        0 <= start <= t < layout.topics@.len(),
        forall|u: int|
            0 <= u < t ==> (#[trigger] layout.topics@[u]).source_topic@
                != layout.topics@[t].source_topic@,
    ensures
        source_from(layout, layout.topics@[t].source_topic@, start) == Some(t),
    decreases t - start,
{
    if start < t {
        lemma_first_source(layout, t, start + 1);
    }
}

/// In a layout that passed validation no two topics share a source topic, so
/// every topic's payloads become that topic's states.
pub proof fn every_topic_of_a_valid_layout_is_served(
    session: SessionState,
    options: AppOptions,
    layout: Layout,
    t: int,
    payload: Seq<u8>,
    now: u128,
    received_at: ReceiptTime,
)
    requires
        is_valid_layout(layout),
        0 <= t < layout.topics@.len(),
        layout.topics@[t].source_topic@ != "homeassistant/status"@,
        normalized_state(layout.topics@[t], lossy_utf8(payload), received_at) is Ok,
    ensures
        ({
            let spec = layout.topics@[t];
            let after = after_message(
                session,
                options,
                layout,
                spec.source_topic@,
                payload,
                now,
                received_at,
            );
            let state = normalized_state(spec, lossy_utf8(payload), received_at)->Ok_0;
            &&& after is Ok
            &&& after->Ok_0.1.len() > 0
            &&& after->Ok_0.1[0] == (Step::Publish {
                topic: spec.state_topic@,
                qos: 1,
                retain: false,
                payload: encode_utf8(json_text(Json::Object(state))),
            })
        }),
{
    payloads_become_states(session, options, layout, t, payload, now, received_at);
}

/// A message on a topic that takes encoded commands is a request to the first
/// field that listens there. Where the queue takes it, the oldest command goes
/// out where one can, not retained; nothing else changes. Where the queue does
/// not take it, the message is refused for the same reason. Where the first
/// listener's commands are not encoded, they go to the PLC without the
/// normalizer, and the message does nothing.
pub proof fn requests_are_queued_or_refused(
    session: SessionState,
    options: AppOptions,
    layout: Layout,
    t: int,
    f: int,
    topic: Seq<char>,
    request: Seq<u8>,
    now: u128,
    received_at: ReceiptTime,
)
    requires
        listens_first_on(layout, t, f, topic),
        topic != "homeassistant/status"@,
        forall|u: int|
            0 <= u < layout.topics@.len() ==> (#[trigger] layout.topics@[u]).source_topic@ != topic,
    ensures
        ({
            let after = after_message(session, options, layout, topic, request, now, received_at);
            if layout.topics@[t].fields@[f].discovery.command_mask is None {
                after is Ok && after->Ok_0.0 == session && after->Ok_0.1.len() == 0
            } else {
                match enqueued(session.queue, layout, topic, request) {
                    Err(error) => after == Err::<(SessionState, Seq<Step>), Refusal>(
                        Refusal::Command(error),
                    ),
                    Ok(queue) => {
                        let (next, done) = after->Ok_0;
                        &&& after is Ok
                        &&& next.delay == session.delay
                        &&& next.cached == session.cached
                        &&& !has_ready_command(queue) ==> next.queue == queue && done.len() == 0
                        &&& has_ready_command(queue) ==> sent_the_oldest(queue, next.queue)
                            && done.len() == 1 && done[0] == (Step::Publish {
                            topic: queue.pending[0].1.0,
                            qos: 1,
                            retain: false,
                            payload: queue.pending[0].1.1,
                        })
                    },
                }
            }
        }),
{
    lemma_source_from(layout, topic, 0);
    requests_go_to_the_first_listener(layout, topic, t, f);
}

/// Once Home Assistant is up, it is told of the removed entities, of the present
/// ones and of the recent states, in this order; any other status does nothing.
/// The session stays as it is.
pub proof fn home_assistant_is_told_once_it_is_up(
    session: SessionState,
    options: AppOptions,
    layout: Layout,
    payload: Seq<u8>,
    now: u128,
    received_at: ReceiptTime,
)
    ensures
        ({
            let after = after_message(
                session,
                options,
                layout,
                "homeassistant/status"@,
                payload,
                now,
                received_at,
            );
            let (next, done) = after->Ok_0;
            let told = discovery_steps(options, layout);
            let fresh = fresh_states(layout, session.cached, now, layout.topics@.len() as int);
            &&& after is Ok
            &&& next == session
            &&& trimmed(lossy_utf8(payload)) != "online"@ ==> done.len() == 0
            &&& trimmed(lossy_utf8(payload)) == "online"@ ==> {
                &&& done.len() == told.len() + fresh.len()
                &&& forall|i: int| 0 <= i < told.len() ==> #[trigger] done[i] == told[i]
                &&& forall|i: int|
                    told.len() <= i < done.len() ==> #[trigger] done[i] == (Step::Publish {
                        topic: fresh[i - told.len()].0,
                        qos: 1,
                        retain: false,
                        payload: encode_utf8(fresh[i - told.len()].1),
                    })
            }
        }),
{
}

/// On a new connection the normalizer is online, retained, before anything else;
/// then it subscribes, tells of all entities, and replays the recent states. No
/// command is left over from an earlier connection, the states are kept, and the
/// delay starts over at a second.
pub proof fn connections_start_over(
    session: SessionState,
    options: AppOptions,
    layout: Layout,
    now: u128,
)
    ensures
        ({
            let done = refresh_steps(options, layout, session.cached, now);
            let heard = subscriptions(layout);
            let told = discovery_steps(options, layout);
            let fresh = fresh_states(layout, session.cached, now, layout.topics@.len() as int);
            let start = 1 + heard.len() + told.len();
            &&& done.len() == start + fresh.len()
            &&& done[0] == (Step::Publish {
                topic: "reef/plc/status"@,
                qos: 1,
                retain: true,
                payload: encode_utf8("online"@),
            })
            &&& forall|i: int| 0 <= i < heard.len() ==> done[1 + i] == #[trigger] heard[i]
            &&& forall|i: int|
                0 <= i < told.len() ==> done[1 + heard.len() + i] == #[trigger] told[i]
            &&& forall|i: int|
                0 <= i < fresh.len() ==> done[start + i] == (Step::Publish {
                    topic: (#[trigger] fresh[i]).0,
                    qos: 1,
                    retain: false,
                    payload: encode_utf8(fresh[i].1),
                })
        }),
        reconnected(session).cached == session.cached,
        reconnected(session).delay == 1_000_000_000,
        reconnected(session).queue.pending.len() == 0,
        reconnected(session).queue.counter is None,
        reconnected(session).queue.in_flight_after is None,
        !reconnected(session).queue.control_ready,
        new_session().cached.dom() == Set::<Seq<char>>::empty(),
        new_session().delay == 1_000_000_000,
        new_session().queue == reconnected(session).queue,
{
    let done = refresh_steps(options, layout, session.cached, now);
    let heard = subscriptions(layout);
    let told = discovery_steps(options, layout);
    let fresh = fresh_states(layout, session.cached, now, layout.topics@.len() as int);
    let start = 1 + heard.len() + told.len();
    assert forall|i: int| 0 <= i < fresh.len() implies done[start + i] == (Step::Publish {
        topic: (#[trigger] fresh[i]).0,
        qos: 1,
        retain: false,
        payload: encode_utf8(fresh[i].1),
    }) by {
        assert(done[start + i] == replay_steps(fresh)[i]);
    }
    assert(new_session().cached.dom() =~= Set::<Seq<char>>::empty());
}

/// After a failed connection the next delay is twice as long, up to half a
/// minute; the states and the commands are kept.
pub proof fn failed_connections_wait_longer(session: SessionState)
    ensures
        disconnected(session).cached == session.cached,
        disconnected(session).queue == session.queue,
        2 * session.delay <= 30_000_000_000 ==> disconnected(session).delay == 2 * session.delay,
        2 * session.delay > 30_000_000_000 ==> disconnected(session).delay == 30_000_000_000,
{
}

/// The PLC's topics are subscribed to first, in the order of the layout, and
/// Home Assistant's status next. Subscribing does nothing else.
pub proof fn sources_are_subscribed_first(layout: Layout)
    ensures
        ({
            let heard = subscriptions(layout);
            let count = layout.topics@.len() as int;
            &&& heard.len() > count
            &&& forall|t: int|
                0 <= t < count ==> heard[t] == (Step::Subscribe {
                    topic: (#[trigger] layout.topics@[t]).source_topic@,
                    qos: 1,
                })
            &&& heard[count] == (Step::Subscribe { topic: "homeassistant/status"@, qos: 1 })
            &&& forall|i: int| 0 <= i < heard.len() ==> #[trigger] heard[i] is Subscribe
        }),
{
    let heard = subscriptions(layout);
    let count = layout.topics@.len() as int;
    let sources = source_subscriptions(layout, count);
    lemma_only_subscriptions(layout, count);
    assert forall|t: int| 0 <= t < count implies heard[t] == (Step::Subscribe {
        topic: (#[trigger] layout.topics@[t]).source_topic@,
        qos: 1,
    }) by {
        assert(heard[t] == sources[t]);
    }
    assert forall|i: int| 0 <= i < heard.len() implies #[trigger] heard[i] is Subscribe by {
        if i < count {
            assert(heard[i] == sources[i]);
        } else if i > count {
            assert(heard[i] == all_command_subscriptions(layout, count)[i - count - 1]);
        }
    }
}

proof fn lemma_only_field_subscriptions(spec: TopicSpec, n: int)
    ensures
        forall|i: int|
            0 <= i < command_subscriptions(spec, n).len() ==> #[trigger] command_subscriptions(
                spec,
                n,
            )[i] is Subscribe,
    decreases n,
{
    if n > 0 {
        lemma_only_field_subscriptions(spec, n - 1);
    }
}

proof fn lemma_only_subscriptions(layout: Layout, n: int)
    ensures
        forall|i: int|
            0 <= i < all_command_subscriptions(layout, n).len()
                ==> #[trigger] all_command_subscriptions(layout, n)[i] is Subscribe,
    decreases n,
{
    if n > 0 {
        let spec = layout.topics@[n - 1];
        lemma_only_subscriptions(layout, n - 1);
        lemma_only_field_subscriptions(spec, spec.fields@.len() as int);
    }
}

} // verus!
