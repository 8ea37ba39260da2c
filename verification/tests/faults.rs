//! Every reason to reject a layout, a contract or a command.

use reef_plc_normalizer::command::{
    encode_command, CommandError, CommandQueue, EncodedCommand, COMMAND_PENDING, CONTROL_READY,
    RECEIVE_COUNTER, REMOTE_CONTROL_ENABLED,
};
use reef_plc_normalizer::contract::{
    validate_layout_contract, ContractError, ContractSource, LastWill, MqttContract, MqttMapping,
    PackedField, PackedPayload, PlcContract, Publisher, Subscriber,
};
use reef_plc_normalizer::layout::{
    validate_layout, Domain, Field, FieldDiscovery, IntFormat, Layout, LayoutFault,
    RemovedDiscovery, TopicKind, TopicSpec, ValueName, ValueType,
};
use serde_json::Value;

fn field(source: &str, value_type: ValueType, domain: Domain) -> Field {
    Field {
        source: source.to_string(),
        plc_source: None,
        length: 3,
        value_type,
        int_format: IntFormat::Decimal,
        active_when: None,
        discovery: FieldDiscovery {
            domain,
            name: source.to_string(),
            component_id: None,
            default_entity_id: None,
            command_topic: None,
            command_mask: None,
            min: None,
            max: None,
            options: None,
            value_map: None,
            unit_of_measurement: None,
            device_class: None,
            state_class: None,
            suggested_display_precision: None,
            entity_category: None,
            enabled_by_default: true,
        },
    }
}

fn commanded(source: &str, value_type: ValueType, domain: Domain, mask: u8) -> Field {
    let mut field = field(source, value_type, domain);
    field.discovery.command_topic = Some(format!("command/{source}"));
    field.discovery.command_mask = Some(mask);
    field
}

fn layout() -> Layout {
    let mut light = field("light", ValueType::Bool, Domain::Light);
    light.discovery.command_topic = Some("command/light".to_string());
    let mut mode = commanded("mode", ValueType::Int, Domain::Select, 2);
    mode.discovery.options = Some(vec!["slow".to_string(), "fast".to_string()]);
    mode.discovery.value_map = Some(vec![
        ValueName { name: "fast".to_string(), value: 9 },
        ValueName { name: "slow".to_string(), value: 1 },
        ValueName { name: "hidden".to_string(), value: 5 },
    ]);
    let mut flow = commanded("flow", ValueType::Int, Domain::Number, 4);
    flow.discovery.min = Some(10);
    flow.discovery.max = Some(300);
    Layout {
        removed_discovery: vec![
            RemovedDiscovery { domain: Domain::Sensor, object_id: "old".to_string() },
            RemovedDiscovery { domain: Domain::Light, object_id: "old".to_string() },
        ],
        topics: vec![
            TopicSpec {
                kind: TopicKind::Do,
                source_topic: "plc/outputs".to_string(),
                state_topic: "state/outputs".to_string(),
                raw_command_topic: None,
                fields: vec![light, field("level", ValueType::Float, Domain::Sensor)],
            },
            TopicSpec {
                kind: TopicKind::Gmp40,
                source_topic: "plc/gmp40_1".to_string(),
                state_topic: "state/gmp40_1".to_string(),
                raw_command_topic: Some("command/raw".to_string()),
                fields: vec![
                    commanded("power", ValueType::Bool, Domain::Switch, 1),
                    mode,
                    flow,
                    commanded("speed", ValueType::Int, Domain::Select, 8),
                    commanded("feed", ValueType::Int, Domain::Number, 16),
                ],
            },
            TopicSpec {
                kind: TopicKind::Clock,
                source_topic: "plc/clock".to_string(),
                state_topic: "state/clock".to_string(),
                raw_command_topic: None,
                fields: vec![field("PLC_Clock", ValueType::Timestamp, Domain::Sensor)],
            },
        ],
    }
}

fn layout_fault(change: fn(&mut Layout)) -> (LayoutFault, String) {
    let mut layout = layout();
    change(&mut layout);
    let error = validate_layout(&layout).unwrap_err();
    (error.fault, error.message())
}

fn blank() -> String {
    " \t".to_string()
}

#[test]
fn a_sound_layout_passes() {
    assert!(validate_layout(&layout()).is_ok());
}

#[test]
fn topics_of_a_layout_are_checked() {
    let cases: Vec<(fn(&mut Layout), LayoutFault, &str)> = vec![
        (|l| l.topics.clear(), LayoutFault::NoTopics, "packed MQTT layout has no topics"),
        (
            |l| l.removed_discovery[1].object_id = blank(),
            LayoutFault::EmptyRemovedObjectId,
            "removed discovery object_id cannot be empty",
        ),
        (
            |l| l.removed_discovery[1].domain = Domain::Sensor,
            LayoutFault::DuplicateRemovedDiscovery(Domain::Sensor),
            "duplicate removed discovery topic: sensor/old",
        ),
        (
            |l| l.topics[1].source_topic = blank(),
            LayoutFault::EmptySourceTopic,
            "packed MQTT layout has an empty source topic",
        ),
        (
            |l| l.topics[1].state_topic = blank(),
            LayoutFault::EmptyStateTopic,
            "packed MQTT layout has an empty state topic",
        ),
        (
            |l| l.topics[1].source_topic = "plc/outputs".to_string(),
            LayoutFault::DuplicateSourceTopic,
            "duplicate source topic in packed MQTT layout: plc/outputs",
        ),
        (
            |l| l.topics[2].state_topic = "state/outputs".to_string(),
            LayoutFault::DuplicateStateTopic,
            "duplicate state topic in packed MQTT layout: state/outputs",
        ),
        (
            |l| l.topics[2].fields.clear(),
            LayoutFault::NoFields,
            "packed MQTT layout topic plc/clock has no fields",
        ),
    ];
    for (change, fault, message) in cases {
        assert_eq!(layout_fault(change), (fault, message.to_string()));
    }
}

#[test]
fn fields_of_a_layout_are_checked() {
    let cases: Vec<(fn(&mut Layout), LayoutFault, &str)> = vec![
        (
            |l| l.topics[0].fields[1].source = blank(),
            LayoutFault::EmptyFieldSource,
            "packed MQTT layout topic plc/outputs has an empty field source",
        ),
        (
            |l| l.topics[0].fields[1].length = 0,
            LayoutFault::InvalidLength,
            "packed MQTT layout field level has an invalid length",
        ),
        (
            |l| l.topics[1].fields[0].source = "level".to_string(),
            LayoutFault::DuplicateFieldSource,
            "duplicate field source in packed MQTT layout: level",
        ),
        (
            |l| l.topics[0].fields[1].discovery.name = blank(),
            LayoutFault::EmptyDiscoveryName,
            "packed MQTT layout field level has an empty discovery name",
        ),
        (
            |l| l.topics[0].fields[1].discovery.component_id = Some(blank()),
            LayoutFault::EmptyComponentId,
            "packed MQTT layout field level has an empty component_id",
        ),
        (
            |l| l.topics[1].fields[2].discovery.component_id = Some("level".to_string()),
            LayoutFault::DuplicateComponentId,
            "duplicate discovery component_id in packed MQTT layout: level",
        ),
        (
            |l| l.topics[0].fields[1].discovery.domain = Domain::BinarySensor,
            LayoutFault::IncompatibleDomain,
            "packed MQTT layout field level has incompatible value_type/domain",
        ),
        (
            |l| l.topics[0].fields[1].active_when = Some(false),
            LayoutFault::ActiveWhenOnNonBool,
            "packed MQTT layout field level uses active_when on a non-bool field",
        ),
        (
            |l| l.topics[0].fields[0].discovery.command_topic = Some(blank()),
            LayoutFault::MissingCommandTopic,
            "packed MQTT controllable field light requires command_topic",
        ),
        (
            |l| l.topics[0].fields[1].discovery.command_topic = Some("command/x".to_string()),
            LayoutFault::UnexpectedCommandTopic,
            "packed MQTT layout field level uses command_topic outside the light domain",
        ),
        (
            |l| l.topics[1].raw_command_topic = None,
            LayoutFault::MissingRawCommandTopic,
            "encoded command field power requires raw_command_topic",
        ),
        (
            |l| {
                l.topics[0].raw_command_topic = Some("command/raw".to_string());
                l.topics[0].fields[0].discovery.command_mask = Some(1);
            },
            LayoutFault::InvalidCommandDomain,
            "encoded command field light has invalid domain",
        ),
    ];
    for (change, fault, message) in cases {
        assert_eq!(layout_fault(change), (fault, message.to_string()));
    }
}

fn mapping(topic: &str, retain: Option<bool>) -> MqttMapping {
    MqttMapping { topic: topic.to_string(), retain }
}

fn packed(source: &str, wire_type: &str) -> PackedField {
    PackedField { source: source.to_string(), length: 3, wire_type: wire_type.to_string() }
}

fn contract() -> PlcContract {
    PlcContract {
        schema_version: 1,
        generated_by: "aquarium-controller-plc-mqtt-contract".to_string(),
        source: ContractSource {
            file: "aquarium_controller.adpro".to_string(),
            sha256: "aB".repeat(32),
        },
        mqtt: MqttContract {
            last_will: LastWill {
                enabled: true,
                qos: 1,
                retain: true,
                topic: "plc/aquarium/status".to_string(),
                payload: "offline".to_string(),
            },
            publishers: vec![
                Publisher {
                    interval_seconds: 10,
                    qos: 0,
                    mappings: vec![
                        mapping("plc/outputs", Some(false)),
                        mapping("plc/aquarium/status", Some(true)),
                    ],
                },
                Publisher {
                    interval_seconds: 1,
                    qos: 0,
                    mappings: vec![mapping("plc/gmp40_1", Some(false))],
                },
                Publisher {
                    interval_seconds: 300,
                    qos: 1,
                    mappings: vec![mapping("plc/clock", Some(false))],
                },
            ],
            subscribers: vec![
                Subscriber { qos: 1, mappings: vec![mapping("command/light", None)] },
                Subscriber { qos: 1, mappings: vec![mapping("command/raw", None)] },
            ],
        },
        packed_payloads: vec![
            PackedPayload {
                topic: "plc/outputs".to_string(),
                fields: vec![packed("light", "bool"), packed("level", "int")],
            },
            PackedPayload {
                topic: "plc/gmp40_1".to_string(),
                fields: vec![
                    packed("power", "bool"),
                    packed("mode", "int"),
                    packed("flow", "float"),
                    packed("speed", "int"),
                    packed("feed", "int"),
                ],
            },
        ],
    }
}

fn contract_error(change: fn(&mut PlcContract)) -> ContractError {
    let mut contract = contract();
    change(&mut contract);
    validate_layout_contract(&layout(), &contract).unwrap_err()
}

#[test]
fn a_matching_contract_passes() {
    assert!(validate_layout_contract(&layout(), &contract()).is_ok());
    let mut layout = layout();
    layout.topics[0].fields[1].plc_source = Some("PLC.Level".to_string());
    let mut contract = contract();
    assert!(validate_layout_contract(&layout, &contract).is_err());
    contract.packed_payloads[0].fields[1].source = "PLC.Level".to_string();
    assert!(validate_layout_contract(&layout, &contract).is_ok());
}

#[test]
fn contract_drift_is_named() {
    let cases: Vec<(fn(&mut PlcContract), &str)> = vec![
        (|c| c.schema_version = 2, "unsupported PLC contract schema"),
        (|c| c.generated_by.push('x'), "unexpected PLC contract generator"),
        (|c| c.source.file.clear(), "PLC contract has invalid source provenance"),
        (|c| c.source.sha256.push('0'), "PLC contract has invalid source provenance"),
        (
            |c| c.source.sha256.replace_range(0..1, "g"),
            "PLC contract has invalid source provenance",
        ),
        (
            |c| c.mqtt.last_will.retain = false,
            "PLC contract does not provide the required retained offline LWT",
        ),
        (
            |c| c.mqtt.last_will.qos = 0,
            "PLC contract does not provide the required retained offline LWT",
        ),
        (
            |c| c.mqtt.publishers[1].mappings.push(mapping("plc/outputs", Some(false))),
            "duplicate PLC publication topic: plc/outputs",
        ),
        (
            |c| c.mqtt.publishers[2].mappings.clear(),
            "layout topic missing from PLC contract: plc/clock",
        ),
        (
            |c| c.mqtt.publishers[2].interval_seconds = 301,
            "PLC publication metadata differs for plc/clock",
        ),
        (
            |c| c.mqtt.publishers[2].qos = 0,
            "PLC publication metadata differs for plc/clock",
        ),
        (
            |c| c.mqtt.publishers[1].interval_seconds = 10,
            "PLC publication metadata differs for plc/gmp40_1",
        ),
        (
            |c| c.mqtt.publishers[0].mappings[0].retain = None,
            "PLC publication metadata differs for plc/outputs",
        ),
        (
            |c| c.mqtt.publishers[0].mappings[1].retain = Some(false),
            "PLC online status publication must be retained",
        ),
        (|c| c.mqtt.subscribers[1].qos = 0, "PLC command subscription must use QoS 1"),
        (
            |c| c.mqtt.subscribers[0].mappings.clear(),
            "normalizer command topic missing from PLC contract: command/light",
        ),
        (
            |c| c.mqtt.subscribers[1].mappings.clear(),
            "normalizer command topic missing from PLC contract: command/raw",
        ),
        (
            |c| c.packed_payloads[0].topic.push('x'),
            "packed PLC contract missing plc/outputs",
        ),
        (
            |c| c.packed_payloads[0].fields.truncate(1),
            "packed field count differs for plc/outputs: PLC 1, normalizer 2",
        ),
        (
            |c| c.packed_payloads[0].fields.swap(0, 1),
            "packed field differs for plc/outputs: PLC level:3, normalizer light:3",
        ),
        (
            |c| c.packed_payloads[1].fields[0].length = 10,
            "packed field differs for plc/gmp40_1: PLC power:10, normalizer power:3",
        ),
        (
            |c| c.packed_payloads[0].fields[1].wire_type = "bool".to_string(),
            "packed field type differs for plc/outputs.level: PLC bool, normalizer float",
        ),
    ];
    for (change, message) in cases {
        assert_eq!(contract_error(change).message(), message);
    }
    assert!(matches!(
        contract_error(|c| c.packed_payloads[0].fields.truncate(1)),
        ContractError::FieldCountDiffers { plc: 1, normalizer: 2, .. }
    ));
}

#[test]
fn the_last_packed_payload_of_a_topic_counts() {
    let mut contract = contract();
    contract.packed_payloads.insert(
        0,
        PackedPayload { topic: "plc/outputs".to_string(), fields: vec![] },
    );
    assert!(validate_layout_contract(&layout(), &contract).is_ok());
}

#[test]
fn a_light_must_be_boolean_in_the_contract_too() {
    let mut layout = layout();
    layout.topics[0].fields[0].value_type = ValueType::Int;
    let mut contract = contract();
    contract.packed_payloads[0].fields[0].wire_type = "int".to_string();
    let error = validate_layout_contract(&layout, &contract).unwrap_err();
    assert!(matches!(error, ContractError::LightNotBool));
    assert_eq!(error.message(), "contract-backed light field must be boolean");
}

#[test]
fn requests_are_encoded_by_their_mask() {
    let layout = layout();
    for (topic, request, payload) in [
        ("command/power", "ON", [1, 1, 1, 0, 0, 0, 0]),
        ("command/power", " off ", [1, 1, 0, 0, 0, 0, 0]),
        ("command/mode", "fast", [1, 2, 0, 9, 0, 0, 0]),
        ("command/flow", "255", [1, 4, 0, 0, 255, 0, 0]),
        ("command/flow", "+10", [1, 4, 0, 0, 10, 0, 0]),
        ("command/speed", "3", [1, 8, 0, 0, 0, 3, 0]),
        ("command/feed", "0", [1, 16, 0, 0, 0, 0, 0]),
        ("command/feed", "7", [1, 16, 0, 0, 0, 0, 7]),
    ] {
        assert_eq!(
            encode_command(&layout, topic, request.as_bytes()).unwrap(),
            EncodedCommand { raw_topic: "command/raw".to_string(), payload },
            "{topic} {request}"
        );
    }
}

#[test]
fn bad_requests_are_named() {
    let layout = layout();
    for (topic, request, error, message) in [
        ("command/x", "1", CommandError::UnknownTopic, "unknown command topic command/x"),
        (
            "command/light",
            "ON",
            CommandError::NotEncoded,
            "command topic command/light is not encoded by the normalizer",
        ),
        ("command/power", "1", CommandError::ExpectedOnOrOff, "expected ON or OFF"),
        ("command/mode", "9", CommandError::InvalidOption, "value is not a valid option"),
        ("command/mode", "hidden", CommandError::InvalidOption, "value is not a valid option"),
        ("command/speed", "fast", CommandError::ExpectedInteger, "expected an integer"),
        ("command/flow", "1.5", CommandError::ExpectedInteger, "expected an integer"),
        ("command/flow", "9", CommandError::BelowMinimum(10), "value below minimum 10"),
        ("command/flow", "301", CommandError::AboveMaximum(300), "value above maximum 300"),
        ("command/flow", "256", CommandError::ExceedsByte, "value does not fit command byte"),
        ("command/feed", "-1", CommandError::ExceedsByte, "value does not fit command byte"),
    ] {
        let rejected = encode_command(&layout, topic, request.as_bytes()).unwrap_err();
        assert_eq!(rejected, error, "{topic} {request}");
        assert_eq!(rejected.message(topic, request.as_bytes()), message);
    }
    for (request, message) in [
        (b"1\xff".as_slice(), "invalid utf-8 sequence of 1 bytes from index 1"),
        (b"12\xe2\x82".as_slice(), "incomplete utf-8 byte sequence from index 2"),
    ] {
        let rejected = encode_command(&layout, "command/flow", request).unwrap_err();
        assert_eq!(rejected, CommandError::InvalidUtf8);
        assert_eq!(rejected.message("command/flow", request), message);
    }
}

#[test]
fn odd_layouts_encode_nothing() {
    let mut odd = layout();
    odd.topics[1].raw_command_topic = None;
    let rejected = encode_command(&odd, "command/power", b"ON").unwrap_err();
    assert_eq!(rejected, CommandError::NoRawTopic);
    assert_eq!(
        rejected.message("command/power", b"ON"),
        "command topic command/power has no raw command topic"
    );

    let mut odd = layout();
    odd.topics[1].fields[0].discovery.command_mask = Some(3);
    let rejected = encode_command(&odd, "command/power", b"ON").unwrap_err();
    assert_eq!(rejected, CommandError::UnsupportedMask(3));
    assert_eq!(rejected.message("command/power", b"ON"), "unsupported command mask 3");

    let mut odd = layout();
    odd.topics[1].fields[0].discovery.domain = Domain::Light;
    let rejected = encode_command(&odd, "command/power", b"ON").unwrap_err();
    assert_eq!(rejected, CommandError::UnsupportedDomain);
    assert_eq!(rejected.message("command/power", b"ON"), "unsupported encoded command domain");
}

fn report(counter: i64, pending: bool, ready: bool, enabled: bool) -> serde_json::Map<String, Value> {
    [
        (RECEIVE_COUNTER.to_string(), Value::from(counter)),
        (COMMAND_PENDING.to_string(), Value::from(pending)),
        (CONTROL_READY.to_string(), Value::from(ready)),
        (REMOTE_CONTROL_ENABLED.to_string(), Value::from(enabled)),
    ]
    .into_iter()
    .collect()
}

#[test]
fn the_queue_says_why_it_takes_nothing() {
    let layout = layout();
    let mut queue = CommandQueue::new();
    let rejected = queue.enqueue(&layout, "command/power", b"ON").unwrap_err();
    assert_eq!(rejected, CommandError::NoReceiveCounter);
    assert_eq!(
        rejected.message("command/power", b"ON"),
        "GMP40 telemetry has not established a receive counter"
    );
    queue.observe_state(&report(1, false, true, false));
    let rejected = queue.enqueue(&layout, "command/power", b"ON").unwrap_err();
    assert_eq!(rejected, CommandError::NotReady);
    assert_eq!(rejected.message("command/power", b"ON"), "GMP40 remote control is not ready");
}

#[test]
fn waiting_commands_keep_their_place() {
    let layout = layout();
    let mut queue = CommandQueue::new();
    queue.observe_state(&report(1, false, true, true));
    queue.enqueue(&layout, "command/feed", b"1").unwrap();
    queue.enqueue(&layout, "command/flow", b"20").unwrap();
    queue.enqueue(&layout, "command/feed", b"2").unwrap();
    assert_eq!(queue.take_ready().unwrap().payload, [1, 16, 0, 0, 0, 0, 2]);
    queue.observe_state(&report(1, false, true, true));
    assert!(queue.take_ready().is_none());
    queue.observe_state(&report(2, false, true, true));
    assert_eq!(queue.take_ready().unwrap().payload, [1, 4, 0, 0, 20, 0, 0]);
}

#[test]
fn a_restarted_or_locked_plc_drops_what_waits() {
    let layout = layout();
    let mut queue = CommandQueue::new();
    queue.observe_state(&report(9, false, true, true));
    queue.enqueue(&layout, "command/feed", b"1").unwrap();
    queue.observe_state(&report(3, false, true, true));
    assert!(queue.take_ready().is_none());
    queue.enqueue(&layout, "command/feed", b"1").unwrap();
    queue.observe_state(&report(4, false, false, true));
    queue.observe_state(&report(5, false, true, true));
    assert!(queue.take_ready().is_none());
    queue.enqueue(&layout, "command/feed", b"1").unwrap();
    queue.observe_state(&serde_json::Map::new());
    assert!(queue.take_ready().is_some());
}
