//! What a session does on each event.

use reef_plc_normalizer::clock::ReceiptTime;
use reef_plc_normalizer::command::{
    CommandError, COMMAND_PENDING, CONTROL_READY, RECEIVE_COUNTER, REMOTE_CONTROL_ENABLED,
};
use reef_plc_normalizer::config::AppOptions;
use reef_plc_normalizer::discovery::{discovery_messages, removed_discovery_topics};
use reef_plc_normalizer::layout::{
    Domain, Field, FieldDiscovery, IntFormat, Layout, RemovedDiscovery, TopicKind, TopicSpec,
    ValueType,
};
use reef_plc_normalizer::normalize::ParsePayloadError;
use reef_plc_normalizer::session::{
    publish_discovery, subscribe, Action, Rejection, Session,
};

const SECOND: u128 = 1_000_000_000;

fn field(source: &str, value_type: ValueType) -> Field {
    let domain = match value_type {
        ValueType::Bool => Domain::BinarySensor,
        _ => Domain::Sensor,
    };
    Field {
        source: source.to_string(),
        plc_source: None,
        length: 1,
        value_type,
        int_format: IntFormat::Decimal,
        active_when: None,
        discovery: FieldDiscovery {
            domain,
            name: source.to_string(),
            component_id: None,
            default_entity_id: None,
            command_topic: None,
            command_mask: None,
            min: None,
            max: None,
            options: None,
            value_map: None,
            unit_of_measurement: None,
            device_class: None,
            state_class: None,
            suggested_display_precision: None,
            entity_category: None,
            enabled_by_default: true,
        },
    }
}

fn topic(kind: TopicKind, name: &str, fields: Vec<Field>) -> TopicSpec {
    TopicSpec {
        kind,
        source_topic: format!("plc/{name}"),
        state_topic: format!("state/{name}"),
        raw_command_topic: None,
        fields,
    }
}

fn commanded(source: &str, value_type: ValueType, domain: Domain, id: &str, mask: u8) -> Field {
    let mut field = field(source, value_type);
    field.discovery.domain = domain;
    field.discovery.command_topic = Some(format!("command/{id}"));
    field.discovery.command_mask = Some(mask);
    field
}

fn layout() -> Layout {
    let mut light = field("Light", ValueType::Bool);
    light.discovery.domain = Domain::Light;
    light.discovery.command_topic = Some("plc/command/light".to_string());
    let mut pump = topic(
        TopicKind::Gmp40,
        "pump",
        vec![
            field(RECEIVE_COUNTER, ValueType::Int),
            field(COMMAND_PENDING, ValueType::Bool),
            field(CONTROL_READY, ValueType::Bool),
            field(REMOTE_CONTROL_ENABLED, ValueType::Bool),
            commanded("Power", ValueType::Bool, Domain::Switch, "power", 1),
            commanded("Flow", ValueType::Int, Domain::Number, "flow", 4),
        ],
    );
    pump.raw_command_topic = Some("plc/command/pump".to_string());
    Layout {
        removed_discovery: vec![RemovedDiscovery {
            domain: Domain::Switch,
            object_id: "old".to_string(),
        }],
        topics: vec![
            topic(TopicKind::Do, "outputs", vec![light, field("Spare", ValueType::Int)]),
            pump,
            topic(
                TopicKind::Clock,
                "clock",
                vec![field("PLC_Clock", ValueType::Timestamp)],
            ),
        ],
    }
}

fn options() -> AppOptions {
    AppOptions {
        mqtt_host: "mqtt.example.test".to_string(),
        mqtt_port: 1883,
        mqtt_username: String::new(),
        mqtt_password: String::new(),
        discovery_prefix: "ha".to_string(),
        publish_diagnostic_ai: false,
        log_level: "info".to_string(),
    }
}

fn publish(topic: &str, payload: &[u8], retain: bool) -> Action {
    Action::Publish { topic: topic.to_string(), qos: 1, retain, payload: payload.to_vec() }
}

fn wanted(topic: &str) -> Action {
    Action::Subscribe { topic: topic.to_string(), qos: 1 }
}

struct Broker {
    layout: Layout,
    options: AppOptions,
    session: Session,
}

impl Broker {
    fn new() -> Self {
        Broker { layout: layout(), options: options(), session: Session::default() }
    }

    fn connect(&mut self, now: u128) -> Vec<Action> {
        self.session.connected(&self.options, &self.layout, now)
    }

    fn deliver(&mut self, topic: &str, payload: &[u8], now: u128) -> Result<Vec<Action>, Rejection> {
        let received_at = ReceiptTime { before_epoch: false, seconds: 100, nanos: 0 };
        self.session.message_received(
            &self.options,
            &self.layout,
            topic,
            payload,
            now,
            received_at,
        )
    }

    fn replayed(&mut self, now: u128) -> Vec<Action> {
        let mut actions = self.connect(now);
        let fixed = 1 + subscribe(&self.layout).len()
            + publish_discovery(&self.options, &self.layout).len();
        actions.split_off(fixed)
    }
}

#[test]
fn a_new_connection_is_set_up_in_order() {
    let mut broker = Broker::new();
    let actions = broker.connect(0);
    let mut expected = vec![
        publish("reef/plc/status", b"online", true),
        wanted("plc/outputs"),
        wanted("plc/pump"),
        wanted("plc/clock"),
        wanted("homeassistant/status"),
        wanted("command/power"),
        wanted("command/flow"),
        publish("ha/switch/old/config", b"", true),
    ];
    assert_eq!(
        removed_discovery_topics(&broker.options, &broker.layout),
        vec!["ha/switch/old/config"]
    );
    let messages = discovery_messages(&broker.options, &broker.layout);
    assert_eq!(messages.len(), 14);
    for (topic, record) in &messages {
        expected.push(publish(topic, record.to_string().as_bytes(), true));
    }
    assert_eq!(actions, expected);
}

#[test]
fn states_are_published_and_kept_for_replay() {
    let mut broker = Broker::new();
    let state = b"{\"Light\":true,\"Spare\":7}";
    assert_eq!(
        broker.deliver("plc/outputs", b" 1 ,7,", 5 * SECOND).unwrap(),
        vec![publish("state/outputs", state, false)]
    );
    assert_eq!(broker.replayed(5 * SECOND), vec![publish("state/outputs", state, false)]);
    assert_eq!(broker.replayed(65 * SECOND), vec![publish("state/outputs", state, false)]);
    assert_eq!(broker.replayed(65 * SECOND + 1), vec![]);
    assert_eq!(broker.replayed(SECOND), vec![publish("state/outputs", state, false)]);
}

#[test]
fn clock_states_carry_the_offset() {
    let mut broker = Broker::new();
    assert_eq!(
        broker.deliver("plc/clock", b"1970-01-01T00:01:38+00:00", 0).unwrap(),
        vec![publish(
            "state/clock",
            b"{\"Clock_Offset_Seconds\":2.0,\"PLC_Clock\":\"1970-01-01T00:01:38+00:00\"}",
            false
        )]
    );
}

#[test]
fn later_states_replace_earlier_ones_and_replay_follows_the_layout() {
    let mut broker = Broker::new();
    broker.deliver("plc/clock", b"1970-01-01T00:01:38+00:00", 0).unwrap();
    broker.deliver("plc/outputs", b"1,7", 0).unwrap();
    broker.deliver("plc/outputs", b"0,8", SECOND).unwrap();
    let replayed = broker.replayed(2 * SECOND);
    assert_eq!(replayed.len(), 2);
    assert_eq!(replayed[0], publish("state/outputs", b"{\"Light\":false,\"Spare\":8}", false));
    assert!(matches!(&replayed[1], Action::Publish { topic, .. } if topic == "state/clock"));
}

#[test]
fn a_rejected_payload_changes_nothing() {
    let mut broker = Broker::new();
    broker.deliver("plc/outputs", b"1,7", 0).unwrap();
    let rejection = broker.deliver("plc/outputs", b"1,x", SECOND).unwrap_err();
    assert!(matches!(
        rejection,
        Rejection::Payload(ParsePayloadError::InvalidInt { ref value, .. }) if value == "x"
    ));
    assert_eq!(
        broker.replayed(60 * SECOND),
        vec![publish("state/outputs", b"{\"Light\":true,\"Spare\":7}", false)]
    );
    assert_eq!(broker.replayed(60 * SECOND + 1), vec![]);
}

#[test]
fn bytes_that_are_no_text_are_replaced_before_they_are_rejected() {
    let mut broker = Broker::new();
    let rejection = broker.deliver("plc/outputs", b"\xff,7", 0).unwrap_err();
    assert!(matches!(
        rejection,
        Rejection::Payload(ParsePayloadError::InvalidBool { ref value, .. }) if value == "\u{fffd}"
    ));
}

#[test]
fn home_assistant_is_told_everything_once_it_is_up() {
    let mut broker = Broker::new();
    broker.deliver("plc/outputs", b"1,7", 0).unwrap();
    let mut expected = publish_discovery(&broker.options, &broker.layout);
    expected.push(publish("state/outputs", b"{\"Light\":true,\"Spare\":7}", false));
    assert_eq!(broker.deliver("homeassistant/status", b" online\n", SECOND).unwrap(), expected);
    assert_eq!(broker.deliver("homeassistant/status", b"offline", SECOND).unwrap(), vec![]);
    assert_eq!(broker.deliver("homeassistant/status", b"Online", SECOND).unwrap(), vec![]);
}

#[test]
fn topics_that_nobody_asked_for_are_ignored() {
    let mut broker = Broker::new();
    assert_eq!(broker.deliver("plc/other", b"1", 0).unwrap(), vec![]);
    assert_eq!(broker.deliver("plc/outputs/more", b"1,7", 0).unwrap(), vec![]);
    assert_eq!(broker.deliver("plc/command/light", b"ON", 0).unwrap(), vec![]);
    broker.deliver("plc/pump", b"4,0,1,1,0,50", 0).unwrap();
    assert_eq!(broker.deliver("plc/command/light", b"ON", 0).unwrap(), vec![]);
    broker = Broker::new();
    assert_eq!(broker.replayed(0), vec![]);
}

#[test]
fn commands_go_out_one_at_a_time_as_they_are_confirmed() {
    let mut broker = Broker::new();
    let rejection = broker.deliver("command/power", b"ON", 0).unwrap_err();
    assert!(matches!(rejection, Rejection::Command(CommandError::NoReceiveCounter)));

    broker.deliver("plc/pump", b"4,0,1,1,0,50", 0).unwrap();
    assert_eq!(
        broker.deliver("command/power", b"ON", 0).unwrap(),
        vec![publish("plc/command/pump", &[1, 1, 1, 0, 0, 0, 0], false)]
    );
    assert_eq!(broker.deliver("command/flow", b"20", 0).unwrap(), vec![]);
    assert_eq!(broker.deliver("command/flow", b"21", 0).unwrap(), vec![]);
    assert_eq!(broker.deliver("plc/pump", b"5,1,1,1,1,50", 0).unwrap().len(), 1);
    let actions = broker.deliver("plc/pump", b"5,0,1,1,1,50", 0).unwrap();
    assert_eq!(actions.len(), 2);
    assert!(matches!(&actions[0], Action::Publish { topic, .. } if topic == "state/pump"));
    assert_eq!(actions[1], publish("plc/command/pump", &[1, 4, 0, 0, 21, 0, 0], false));
    assert_eq!(broker.deliver("plc/pump", b"6,0,1,1,1,21", 0).unwrap().len(), 1);
}

#[test]
fn waiting_commands_are_dropped_with_the_connection() {
    let mut broker = Broker::new();
    broker.deliver("plc/pump", b"4,0,1,1,0,50", 0).unwrap();
    broker.deliver("command/power", b"ON", 0).unwrap();
    broker.deliver("command/flow", b"20", 0).unwrap();
    broker.connect(0);
    let rejection = broker.deliver("command/power", b"ON", 0).unwrap_err();
    assert!(matches!(rejection, Rejection::Command(CommandError::NoReceiveCounter)));
    assert_eq!(broker.deliver("plc/pump", b"9,0,1,1,1,50", 0).unwrap().len(), 1);
}

#[test]
fn rejected_requests_leave_the_queue_alone() {
    let mut broker = Broker::new();
    broker.deliver("plc/pump", b"4,0,1,1,0,50", 0).unwrap();
    let rejection = broker.deliver("command/flow", b"\xff", 0).unwrap_err();
    assert!(matches!(rejection, Rejection::Command(CommandError::InvalidUtf8)));
    assert_eq!(
        broker.deliver("command/flow", b" 7 ", 0).unwrap(),
        vec![publish("plc/command/pump", &[1, 4, 0, 0, 7, 0, 0], false)]
    );
}

#[test]
fn delays_double_up_to_half_a_minute_and_start_over() {
    let mut broker = Broker::new();
    for seconds in [1, 2, 4, 8, 16, 30, 30] {
        assert_eq!(broker.session.connection_failed(), seconds * SECOND);
    }
    broker.connect(0);
    assert_eq!(broker.session.connection_failed(), SECOND);
}

#[test]
fn the_parts_of_a_session_can_be_driven_one_by_one() {
    let layout = layout();
    let options = options();
    let mut session = Session::new();
    let received_at = ReceiptTime { before_epoch: false, seconds: 0, nanos: 0 };
    let state = publish("state/outputs", b"{\"Light\":false,\"Spare\":3}", false);
    let actions = session.payload_received(&layout.topics[0], "off,3", SECOND, received_at).unwrap();
    assert_eq!(actions, vec![publish("state/outputs", b"{\"Light\":false,\"Spare\":3}", false)]);
    assert_eq!(session.status_received(&options, &layout, "offline", SECOND), vec![]);
    let told = session.status_received(&options, &layout, "online", SECOND);
    assert_eq!(told.last(), Some(&state));
    assert!(session.request_received(&layout, "command/power", b"ON").is_err());
}

#[test]
fn a_run_of_requests_goes_out_once_per_topic() {
    let mut broker = Broker::new();
    broker.deliver("plc/pump", b"1,0,1,1,0,50", 0).unwrap();
    let mut sent = broker.deliver("command/flow", b"5", 0).unwrap();
    for (topic, request) in [
        ("command/power", "ON"),
        ("command/flow", "20"),
        ("command/power", "OFF"),
        ("command/flow", "21"),
        ("command/flow", "22"),
    ] {
        assert_eq!(broker.deliver(topic, request.as_bytes(), 0).unwrap(), vec![]);
    }
    for counter in 2..6 {
        let report = format!("{counter},0,1,1,0,50");
        sent.extend(broker.deliver("plc/pump", report.as_bytes(), 0).unwrap().into_iter().skip(1));
    }
    assert_eq!(
        sent,
        vec![
            publish("plc/command/pump", &[1, 4, 0, 0, 5, 0, 0], false),
            publish("plc/command/pump", &[1, 1, 0, 0, 0, 0, 0], false),
            publish("plc/command/pump", &[1, 4, 0, 0, 22, 0, 0], false),
        ]
    );
}
