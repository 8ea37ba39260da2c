//! The reef tank's layout, from payloads to discovery.

use chrono::DateTime;
use reef_plc_normalizer::availability::{
    fresh_cached_states, CachedState, ReconnectBackoff, StateCache,
};
use reef_plc_normalizer::clock::ReceiptTime;
use reef_plc_normalizer::command::{
    CommandQueue, EncodedCommand, COMMAND_PENDING, CONTROL_READY, RECEIVE_COUNTER,
    REMOTE_CONTROL_ENABLED,
};
use reef_plc_normalizer::config::AppOptions;
use reef_plc_normalizer::contract::{
    validate_layout_contract, ContractSource, LastWill, MqttContract, MqttMapping, PackedField,
    PackedPayload, PlcContract, Publisher, Subscriber,
};
use reef_plc_normalizer::discovery::{discovery_messages, removed_discovery_topics};
use reef_plc_normalizer::layout::{
    field_component_id, validate_layout, Domain, Field, FieldDiscovery, IntFormat, Layout,
    RemovedDiscovery, TopicKind, TopicSpec, ValueName, ValueType,
};
use reef_plc_normalizer::normalize::{
    normalize_payload, parse_payload, ParsePayloadError, CLOCK_OFFSET_FIELD,
};
use reef_plc_normalizer::{APP_NAME, DEFAULT_TOPIC_HEALTH_EXPIRE_AFTER_SECONDS, DEVICE_ID};
use serde_json::Value;

const SECOND: u128 = 1_000_000_000;

fn text(text: &str) -> Option<String> {
    Some(text.to_string())
}

fn discovery(domain: Domain, name: &str) -> FieldDiscovery {
    FieldDiscovery {
        domain,
        name: name.to_string(),
        component_id: None,
        default_entity_id: None,
        command_topic: None,
        command_mask: None,
        min: None,
        max: None,
        options: None,
        value_map: None,
        unit_of_measurement: None,
        device_class: None,
        state_class: None,
        suggested_display_precision: None,
        entity_category: None,
        enabled_by_default: true,
    }
}

fn field(source: &str, length: usize, value_type: ValueType) -> Field {
    let domain = match value_type {
        ValueType::Bool => Domain::BinarySensor,
        _ => Domain::Sensor,
    };
    Field {
        source: source.to_string(),
        plc_source: None,
        length,
        value_type,
        int_format: IntFormat::Decimal,
        active_when: None,
        discovery: discovery(domain, source),
    }
}

fn flags(sources: &[&str]) -> Vec<Field> {
    sources.iter().map(|source| field(source, 1, ValueType::Bool)).collect()
}

fn topic(kind: TopicKind, name: &str, fields: Vec<Field>) -> TopicSpec {
    TopicSpec {
        kind,
        source_topic: format!("plc/aquarium/{name}"),
        state_topic: format!("reef/plc/state/{name}"),
        raw_command_topic: None,
        fields,
    }
}

fn di_topic() -> TopicSpec {
    let mut fields = flags(&[
        "DI_Water_Leak_1",
        "DI_Water_Leak_2",
        "DI_Return_Float_High",
        "DI_Return_Float_Low",
        "DI_Return_Float_LowLow",
        "DI_ATO_Float_High",
        "DI_ATO_Float_Low",
        "DI_Door_Left",
        "DI_Door_Right",
        "DI_Spare_10",
        "DI_Spare_11",
        "DI_Spare_12",
        "DI_Auto_Mode",
        "DI_Spare_14",
        "DI_Spare_15",
        "DI_Spare_16",
    ]);
    fields[0].active_when = Some(false);
    fields[1].active_when = Some(false);
    fields[1].discovery.enabled_by_default = false;
    topic(TopicKind::Di, "di", fields)
}

fn do_topic() -> TopicSpec {
    let mut fields = flags(&[
        "DO_Relay_AC_1",
        "DO_Relay_AC_2",
        "DO_Relay_AC_3",
        "DO_Relay_AC_4",
        "DO_Relay_DC_1",
        "DO_Relay_DC_2",
        "DO_Relay_DC_3",
        "DO_Relay_DC_4",
    ]);
    let light = &mut fields[7].discovery;
    light.domain = Domain::Light;
    light.name = "Cabinet Light".to_string();
    light.component_id = text("cabinet_light");
    light.default_entity_id = text("light.office_reef_cabinet");
    light.command_topic = text("plc/aquarium/command/cabinet_light");
    topic(TopicKind::Do, "do", fields)
}

fn ai_topic() -> TopicSpec {
    let sources = [
        "AI_CT_AC_Total",
        "AI_CT_DC_Wavemakers:1",
        "AI_CT_AC_Heater_1",
        "AI_CT_AC_Heater_1:1",
        "AI_CT_AC_Heater_2",
        "AI_CT_AC_Heater_2:1",
        "AI_CT_AC_Return",
        "AI_CT_AC_Return:1",
        "AI_CT_AC_Skimmer",
        "AI_CT_AC_Skimmer:1",
        "AI_Ph",
        "AI_Ph:1",
        "AI_Temp_1",
        "AI_Temp_1:1",
        "AI_Temp_2",
        "AI_Temp_2:1",
    ];
    let mut fields: Vec<Field> =
        sources.iter().map(|source| field(source, 4, ValueType::Int)).collect();
    for raw in &mut fields {
        raw.discovery.entity_category = text("diagnostic");
        raw.discovery.enabled_by_default = false;
    }
    topic(TopicKind::Ai, "ai", fields)
}

fn inputs_topic() -> TopicSpec {
    let mut fields = vec![
        field("Temp_Sump_1", 5, ValueType::Float),
        field("Temp_Sump_2", 5, ValueType::Float),
        field("Temp_Sump_Max", 5, ValueType::Float),
        field("Total_Amps", 4, ValueType::Float),
        field("Heater_1_Amps", 4, ValueType::Float),
        field("Heater_2_Amps", 4, ValueType::Float),
        field("Return_Amps", 4, ValueType::Float),
        field("Skimmer_Amps", 4, ValueType::Float),
        field("Light_Amps", 4, ValueType::Float),
        field("Wavemakers_Amps", 4, ValueType::Float),
        field("Heater_1_Running", 1, ValueType::Bool),
        field("Heater_2_Running", 1, ValueType::Bool),
        field("Return_Running", 1, ValueType::Bool),
        field("ATO_Amps", 4, ValueType::Float),
        field("ATO_Running", 1, ValueType::Bool),
        field("Ph_Transmitter", 4, ValueType::Float),
    ];
    for temperature in &mut fields[..3] {
        temperature.discovery.suggested_display_precision = Some(2);
    }
    fields[3].discovery.unit_of_measurement = text("A");
    fields[3].discovery.device_class = text("current");
    topic(TopicKind::Inputs, "inputs", fields)
}

fn alarms_topic() -> TopicSpec {
    let mut fields = flags(&[
        "Alarm_Heater_Not_On",
        "Alarm_Heater_On",
        "Alarm_Temp_High",
        "Alarm_Return_Pump_Not_Running",
        "Alarm_Temp_Low",
        "Alarm_Skimmer_Not_Running",
        "Alarm_Water_Leak",
        "Alarm_Return_Float_High",
        "Alarm_Return_Float_LowLow",
        "Alarm_Wavemakers_Not_Running",
        "Alarm_ATO_Empty",
        "Alarm_ATO_Runtime",
        "Alarm_Heater_1_On_Time",
        "Alarm_Ph",
        "Alarm_Return_Float_Low_Time",
        "Alarm_Not_Auto_Mode_Time",
        "Alarm_Cab_Light_Req_On_Time",
        "Alarm_Cab_Light_Door_On_Time",
        "Alarm_GMP40_1_Any",
        "Alarm_GMP40_1_Command_Failed",
        "Alarm_GMP40_1_Device_Fault",
        "Alarm_GMP40_1_Protocol_Fault",
        "Alarm_GMP40_1_Unavailable",
    ]);
    for alarm in &mut fields {
        alarm.discovery.device_class = text("problem");
    }
    topic(TopicKind::Alarms, "alarms", fields)
}

fn ato_topic() -> TopicSpec {
    let mut fields = vec![
        field("ATO_Timer.Current", 5, ValueType::Int),
        field("ATO_Timer.Done", 1, ValueType::Bool),
        field("ATO_Runtime_Today", 5, ValueType::Int),
        field("ATO_Runtime_Total", 5, ValueType::Int),
        field("ATO_Request", 1, ValueType::Bool),
        field("ATO_Enable", 1, ValueType::Bool),
        field("ATO_Lockout", 1, ValueType::Bool),
        field("ATO_Current_mL", 4, ValueType::Int),
        field("ATO_Acc_mL", 4, ValueType::Int),
    ];
    fields[0].discovery.unit_of_measurement = text("s");
    fields[0].discovery.device_class = text("duration");
    fields[0].discovery.state_class = text("measurement");
    topic(TopicKind::Ato, "ato", fields)
}

fn time_sync_topic() -> TopicSpec {
    let mut fields = vec![
        field("Alarm_Time_Sync", 1, ValueType::Bool),
        field("Battery Low Bit", 1, ValueType::Bool),
        field("Time_Sync_Error_Count.Counter", 5, ValueType::Int),
        field("Time_Sync_Success_Count.Counter", 5, ValueType::Int),
    ];
    fields[0].discovery.device_class = text("problem");
    for counter in &mut fields[2..] {
        counter.discovery.state_class = text("total_increasing");
        counter.discovery.entity_category = text("diagnostic");
    }
    topic(TopicKind::TimeSync, "time_sync", fields)
}

fn names(names: &[&str]) -> Vec<ValueName> {
    let mut values: Vec<ValueName> = names
        .iter()
        .enumerate()
        .map(|(value, name)| ValueName { name: name.to_string(), value: value as i64 })
        .collect();
    values.reverse();
    values
}

fn control(field: &mut Field, domain: Domain, id: &str, mask: u8) {
    field.discovery.domain = domain;
    field.discovery.component_id = Some(format!("gmp40_1_{id}"));
    field.discovery.command_topic = Some(format!("reef/plc/command/gmp40_1/{id}"));
    field.discovery.command_mask = Some(mask);
}

fn gmp40_topic() -> TopicSpec {
    let modes = [
        "pulse_wave",
        "sine_wave",
        "constant_flow",
        "random_wave",
        "tide",
        "nutrient_transport",
        "circulation",
        "feeding",
        "custom_wave",
    ];
    let linkages = ["independent", "primary", "synchronous_secondary", "asynchronous_secondary"];
    let mut fields = vec![
        field(CONTROL_READY, 1, ValueType::Bool),
        field(REMOTE_CONTROL_ENABLED, 1, ValueType::Bool),
        field("GMP40_1_Data.Status.Power", 1, ValueType::Bool),
        field("GMP40_1_Data.Status.Mode", 1, ValueType::Int),
        field("GMP40_1_Data.Status.Flow", 3, ValueType::Int),
        field("GMP40_1_Data.Status.Frequency", 3, ValueType::Int),
        field("GMP40_1_Data.Status.Temperature", 3, ValueType::Int),
        field("GMP40_1_Data.Status.FeedTime", 2, ValueType::Int),
        field("GMP40_1_Data.Status.Fault", 3, ValueType::Int),
        field("GMP40_1_Data.Online", 1, ValueType::Bool),
        field("GMP40_1_Data.Valid", 1, ValueType::Bool),
        field("GMP40_1_Data.Age", 2, ValueType::Int),
        field(COMMAND_PENDING, 1, ValueType::Bool),
        field("GMP40_1_Data.Command.Failed", 1, ValueType::Bool),
        field("GMP40_1_Data.Command.Done", 1, ValueType::Bool),
        field("GMP40_1_Data.Command.Retries", 1, ValueType::Int),
        field("GMP40_1_Data.Command.Mask", 1, ValueType::Int),
        field("GMP40_1_Data.Errors", 1, ValueType::Int),
        field("GMP40_1_Authority.Source", 1, ValueType::Int),
        field(RECEIVE_COUNTER, 5, ValueType::Int),
        field("GMP40_1_Data.Status.Linkage", 1, ValueType::Int),
    ];
    for hexadecimal in &mut fields[4..9] {
        hexadecimal.int_format = IntFormat::Hexadecimal;
    }
    control(&mut fields[2], Domain::Switch, "power", 1);
    control(&mut fields[3], Domain::Select, "mode", 2);
    fields[3].discovery.options = Some(modes.iter().map(|mode| mode.to_string()).collect());
    fields[3].discovery.value_map = Some(names(&modes));
    control(&mut fields[4], Domain::Number, "flow", 4);
    fields[4].discovery.min = Some(0);
    fields[4].discovery.max = Some(100);
    control(&mut fields[5], Domain::Number, "frequency", 8);
    fields[5].discovery.min = Some(0);
    fields[5].discovery.max = Some(100);
    control(&mut fields[7], Domain::Number, "feed_time", 16);
    fields[7].discovery.min = Some(1);
    fields[7].discovery.max = Some(60);
    fields[20].discovery.component_id = text("gmp40_1_linkage");
    fields[20].discovery.value_map = Some(names(&linkages));
    let mut spec = topic(TopicKind::Gmp40, "gmp40_1", fields);
    spec.raw_command_topic = text("plc/aquarium/command/gmp40_1");
    spec
}

fn clock_topic() -> TopicSpec {
    let mut fields = vec![field("PLC_Clock", 25, ValueType::Timestamp)];
    fields[0].discovery.device_class = text("timestamp");
    fields[0].discovery.entity_category = text("diagnostic");
    topic(TopicKind::Clock, "clock", fields)
}

fn reef_layout() -> Layout {
    Layout {
        removed_discovery: vec![RemovedDiscovery {
            domain: Domain::BinarySensor,
            object_id: "reef_plc_do_relay_dc_4".to_string(),
        }],
        topics: vec![
            di_topic(),
            do_topic(),
            ai_topic(),
            inputs_topic(),
            alarms_topic(),
            ato_topic(),
            time_sync_topic(),
            gmp40_topic(),
            clock_topic(),
        ],
    }
}

fn mapping(topic: &str, retain: Option<bool>) -> MqttMapping {
    MqttMapping { topic: topic.to_string(), retain }
}

fn publisher(interval_seconds: u64, qos: u8, mappings: Vec<MqttMapping>) -> Publisher {
    Publisher { interval_seconds, qos, mappings }
}

/// What the PLC packs into each topic: tag, width and type.
const PACKED: &[(&str, &[(&str, usize, &str)])] = &[
    (
        "plc/aquarium/di",
        &[
            ("DI_Water_Leak_1", 1, "bool"),
            ("DI_Water_Leak_2", 1, "bool"),
            ("DI_Return_Float_High", 1, "bool"),
            ("DI_Return_Float_Low", 1, "bool"),
            ("DI_Return_Float_LowLow", 1, "bool"),
            ("DI_ATO_Float_High", 1, "bool"),
            ("DI_ATO_Float_Low", 1, "bool"),
            ("DI_Door_Left", 1, "bool"),
            ("DI_Door_Right", 1, "bool"),
            ("DI_Spare_10", 1, "bool"),
            ("DI_Spare_11", 1, "bool"),
            ("DI_Spare_12", 1, "bool"),
            ("DI_Auto_Mode", 1, "bool"),
            ("DI_Spare_14", 1, "bool"),
            ("DI_Spare_15", 1, "bool"),
            ("DI_Spare_16", 1, "bool"),
        ],
    ),
    (
        "plc/aquarium/do",
        &[
            ("DO_Relay_AC_1", 1, "bool"),
            ("DO_Relay_AC_2", 1, "bool"),
            ("DO_Relay_AC_3", 1, "bool"),
            ("DO_Relay_AC_4", 1, "bool"),
            ("DO_Relay_DC_1", 1, "bool"),
            ("DO_Relay_DC_2", 1, "bool"),
            ("DO_Relay_DC_3", 1, "bool"),
            ("DO_Relay_DC_4", 1, "bool"),
        ],
    ),
    (
        "plc/aquarium/ai",
        &[
            ("AI_CT_AC_Total", 4, "int"),
            ("AI_CT_DC_Wavemakers:1", 4, "int"),
            ("AI_CT_AC_Heater_1", 4, "int"),
            ("AI_CT_AC_Heater_1:1", 4, "int"),
            ("AI_CT_AC_Heater_2", 4, "int"),
            ("AI_CT_AC_Heater_2:1", 4, "int"),
            ("AI_CT_AC_Return", 4, "int"),
            ("AI_CT_AC_Return:1", 4, "int"),
            ("AI_CT_AC_Skimmer", 4, "int"),
            ("AI_CT_AC_Skimmer:1", 4, "int"),
            ("AI_Ph", 4, "int"),
            ("AI_Ph:1", 4, "int"),
            ("AI_Temp_1", 4, "int"),
            ("AI_Temp_1:1", 4, "int"),
            ("AI_Temp_2", 4, "int"),
            ("AI_Temp_2:1", 4, "int"),
        ],
    ),
    (
        "plc/aquarium/inputs",
        &[
            ("Temp_Sump_1", 5, "float"),
            ("Temp_Sump_2", 5, "float"),
            ("Temp_Sump_Max", 5, "float"),
            ("Total_Amps", 4, "float"),
            ("Heater_1_Amps", 4, "float"),
            ("Heater_2_Amps", 4, "float"),
            ("Return_Amps", 4, "float"),
            ("Skimmer_Amps", 4, "float"),
            ("Light_Amps", 4, "float"),
            ("Wavemakers_Amps", 4, "float"),
            ("Heater_1_Running", 1, "bool"),
            ("Heater_2_Running", 1, "bool"),
            ("Return_Running", 1, "bool"),
            ("ATO_Amps", 4, "float"),
            ("ATO_Running", 1, "bool"),
            ("Ph_Transmitter", 4, "float"),
        ],
    ),
    (
        "plc/aquarium/alarms",
        &[
            ("Alarm_Heater_Not_On", 1, "bool"),
            ("Alarm_Heater_On", 1, "bool"),
            ("Alarm_Temp_High", 1, "bool"),
            ("Alarm_Return_Pump_Not_Running", 1, "bool"),
            ("Alarm_Temp_Low", 1, "bool"),
            ("Alarm_Skimmer_Not_Running", 1, "bool"),
            ("Alarm_Water_Leak", 1, "bool"),
            ("Alarm_Return_Float_High", 1, "bool"),
            ("Alarm_Return_Float_LowLow", 1, "bool"),
            ("Alarm_Wavemakers_Not_Running", 1, "bool"),
            ("Alarm_ATO_Empty", 1, "bool"),
            ("Alarm_ATO_Runtime", 1, "bool"),
            ("Alarm_Heater_1_On_Time", 1, "bool"),
            ("Alarm_Ph", 1, "bool"),
            ("Alarm_Return_Float_Low_Time", 1, "bool"),
            ("Alarm_Not_Auto_Mode_Time", 1, "bool"),
            ("Alarm_Cab_Light_Req_On_Time", 1, "bool"),
            ("Alarm_Cab_Light_Door_On_Time", 1, "bool"),
            ("Alarm_GMP40_1_Any", 1, "bool"),
            ("Alarm_GMP40_1_Command_Failed", 1, "bool"),
            ("Alarm_GMP40_1_Device_Fault", 1, "bool"),
            ("Alarm_GMP40_1_Protocol_Fault", 1, "bool"),
            ("Alarm_GMP40_1_Unavailable", 1, "bool"),
        ],
    ),
    (
        "plc/aquarium/ato",
        &[
            ("ATO_Timer.Current", 5, "int"),
            ("ATO_Timer.Done", 1, "bool"),
            ("ATO_Runtime_Today", 5, "int"),
            ("ATO_Runtime_Total", 5, "int"),
            ("ATO_Request", 1, "bool"),
            ("ATO_Enable", 1, "bool"),
            ("ATO_Lockout", 1, "bool"),
            ("ATO_Current_mL", 4, "int"),
            ("ATO_Acc_mL", 4, "int"),
        ],
    ),
    (
        "plc/aquarium/time_sync",
        &[
            ("Alarm_Time_Sync", 1, "bool"),
            ("Battery Low Bit", 1, "bool"),
            ("Time_Sync_Error_Count.Counter", 5, "int"),
            ("Time_Sync_Success_Count.Counter", 5, "int"),
        ],
    ),
    (
        "plc/aquarium/gmp40_1",
        &[
            ("GMP40_1_Control_Ready", 1, "bool"),
            ("GMP40_1_Authority.RemoteControlEnable", 1, "bool"),
            ("GMP40_1_Data.Status.Power", 1, "bool"),
            ("GMP40_1_Data.Status.Mode", 1, "int"),
            ("GMP40_1_Data.Status.Flow", 3, "int"),
            ("GMP40_1_Data.Status.Frequency", 3, "int"),
            ("GMP40_1_Data.Status.Temperature", 3, "int"),
            ("GMP40_1_Data.Status.FeedTime", 2, "int"),
            ("GMP40_1_Data.Status.Fault", 3, "int"),
            ("GMP40_1_Data.Online", 1, "bool"),
            ("GMP40_1_Data.Valid", 1, "bool"),
            ("GMP40_1_Data.Age", 2, "int"),
            ("GMP40_1_Data.Command.Pending", 1, "bool"),
            ("GMP40_1_Data.Command.Failed", 1, "bool"),
            ("GMP40_1_Data.Command.Done", 1, "bool"),
            ("GMP40_1_Data.Command.Retries", 1, "int"),
            ("GMP40_1_Data.Command.Mask", 1, "int"),
            ("GMP40_1_Data.Errors", 1, "int"),
            ("GMP40_1_Authority.Source", 1, "int"),
            ("GMP40_1_Authority.MQTTReceivedLast", 5, "int"),
            ("GMP40_1_Data.Status.Linkage", 1, "int"),
        ],
    ),
];

fn reef_contract() -> PlcContract {
    let telemetry = ["di", "do", "ai", "inputs", "alarms", "ato", "time_sync"]
        .iter()
        .map(|name| mapping(&format!("plc/aquarium/{name}"), Some(false)))
        .collect();
    PlcContract {
        schema_version: 1,
        generated_by: "aquarium-controller-plc-mqtt-contract".to_string(),
        source: ContractSource {
            file: "aquarium_controller.adpro".to_string(),
            sha256: "0123456789abcdefABCDEF0123456789abcdef0123456789abcdef0123456789".to_string(),
        },
        mqtt: MqttContract {
            last_will: LastWill {
                enabled: true,
                qos: 1,
                retain: true,
                topic: "plc/aquarium/status".to_string(),
                payload: "offline".to_string(),
            },
            publishers: vec![
                publisher(10, 0, vec![mapping("plc/aquarium/status", Some(true))]),
                publisher(10, 0, telemetry),
                publisher(1, 0, vec![mapping("plc/aquarium/gmp40_1", Some(false))]),
                publisher(300, 1, vec![mapping("plc/aquarium/clock", Some(false))]),
            ],
            subscribers: vec![Subscriber {
                qos: 1,
                mappings: vec![
                    mapping("plc/aquarium/command/cabinet_light", None),
                    mapping("plc/aquarium/command/gmp40_1", None),
                ],
            }],
        },
        packed_payloads: PACKED
            .iter()
            .map(|(topic, fields)| PackedPayload {
                topic: topic.to_string(),
                fields: fields
                    .iter()
                    .map(|(source, length, wire_type)| PackedField {
                        source: source.to_string(),
                        length: *length,
                        wire_type: wire_type.to_string(),
                    })
                    .collect(),
            })
            .collect(),
    }
}

/// The layout, once both validations have passed.
fn test_layout() -> Layout {
    let layout = reef_layout();
    validate_layout(&layout).unwrap();
    validate_layout_contract(&layout, &reef_contract()).unwrap();
    layout
}

fn test_options(publish_diagnostic_ai: bool) -> AppOptions {
    AppOptions {
        mqtt_host: "mqtt.example.test".to_string(),
        mqtt_port: 1883,
        mqtt_username: String::new(),
        mqtt_password: String::new(),
        discovery_prefix: "homeassistant".to_string(),
        publish_diagnostic_ai,
        log_level: "info".to_string(),
    }
}

fn spec_of(layout: &Layout, kind: TopicKind) -> &TopicSpec {
    layout.topics.iter().find(|spec| spec.kind == kind).unwrap()
}

fn discovery_components(options: &AppOptions, layout: &Layout) -> serde_json::Map<String, Value> {
    discovery_messages(options, layout)
        .into_iter()
        .map(|(_, payload)| {
            let component_id = payload["unique_id"]
                .as_str()
                .unwrap()
                .strip_prefix(&format!("{DEVICE_ID}_"))
                .unwrap()
                .to_string();
            (component_id, payload)
        })
        .collect()
}

fn status(topic: &str) -> Value {
    let mut members = serde_json::Map::new();
    members.insert("topic".to_string(), Value::from(topic));
    members.insert("payload_available".to_string(), Value::from("online"));
    members.insert("payload_not_available".to_string(), Value::from("offline"));
    Value::Object(members)
}

fn combined_availability() -> Value {
    Value::Array(vec![status("plc/aquarium/status"), status("reef/plc/status")])
}

fn state(counter: i64, pending: bool) -> serde_json::Map<String, Value> {
    [
        (RECEIVE_COUNTER.to_string(), Value::from(counter)),
        (COMMAND_PENDING.to_string(), Value::from(pending)),
        (CONTROL_READY.to_string(), Value::from(true)),
        (REMOTE_CONTROL_ENABLED.to_string(), Value::from(true)),
    ]
    .into_iter()
    .collect()
}

#[test]
fn validates_and_encodes_one_field_commands() {
    let layout = test_layout();
    let mut queue = CommandQueue::default();
    queue.observe_state(&state(12, false));
    queue.enqueue(&layout, "reef/plc/command/gmp40_1/flow", b"73").unwrap();

    assert_eq!(
        queue.take_ready().unwrap(),
        EncodedCommand {
            raw_topic: "plc/aquarium/command/gmp40_1".to_string(),
            payload: [1, 4, 0, 0, 73, 0, 0],
        }
    );
    assert!(queue.take_ready().is_none());
    queue.observe_state(&state(13, false));
}

#[test]
fn translates_named_mode_option_to_plc_byte() {
    let layout = test_layout();
    let mut queue = CommandQueue::default();
    queue.observe_state(&state(12, false));
    queue.enqueue(&layout, "reef/plc/command/gmp40_1/mode", b"nutrient_transport").unwrap();

    assert_eq!(queue.take_ready().unwrap().payload, [1, 2, 0, 5, 0, 0, 0]);
}

#[test]
fn coalesces_pending_values_and_never_replays_after_reset() {
    let layout = test_layout();
    let mut queue = CommandQueue::default();
    queue.observe_state(&state(4, false));
    queue.enqueue(&layout, "reef/plc/command/gmp40_1/power", b"ON").unwrap();
    assert!(queue.take_ready().is_some());
    queue.enqueue(&layout, "reef/plc/command/gmp40_1/flow", b"20").unwrap();
    queue.enqueue(&layout, "reef/plc/command/gmp40_1/flow", b"21").unwrap();
    assert!(queue.take_ready().is_none());
    queue.observe_state(&state(5, true));
    assert!(queue.take_ready().is_none());
    queue.observe_state(&state(5, false));
    assert_eq!(queue.take_ready().unwrap().payload, [1, 4, 0, 0, 21, 0, 0]);
    queue.reset_connection();
    queue.observe_state(&state(5, false));
    assert!(queue.take_ready().is_none());
}

#[test]
fn rejects_out_of_range_and_malformed_commands() {
    let layout = test_layout();
    let mut queue = CommandQueue::default();
    queue.observe_state(&state(1, false));
    assert!(queue.enqueue(&layout, "reef/plc/command/gmp40_1/mode", b"9").is_err());
    assert!(queue.enqueue(&layout, "reef/plc/command/gmp40_1/feed_time", b"0").is_err());
    assert!(queue.enqueue(&layout, "reef/plc/command/gmp40_1/power", b"maybe").is_err());
}

#[test]
fn rejects_commands_until_fresh_control_state_is_ready() {
    let layout = test_layout();
    let mut queue = CommandQueue::default();
    assert!(queue.enqueue(&layout, "reef/plc/command/gmp40_1/power", b"ON").is_err());

    let mut not_ready = state(1, false);
    not_ready.insert(CONTROL_READY.to_string(), Value::from(false));
    queue.observe_state(&not_ready);
    assert!(queue.enqueue(&layout, "reef/plc/command/gmp40_1/power", b"ON").is_err());

    queue.observe_state(&state(1, false));
    assert!(queue.enqueue(&layout, "reef/plc/command/gmp40_1/power", b"ON").is_ok());
    queue.reset_connection();
    assert!(queue.take_ready().is_none());
}

#[test]
fn vendored_contract_matches_embedded_layout() {
    let layout = reef_layout();
    assert!(validate_layout_contract(&layout, &reef_contract()).is_ok());
}

#[test]
fn embedded_layout_loads_and_validates() {
    let layout = test_layout();

    assert_eq!(layout.topics.len(), 9);
    assert!(layout.topics.iter().any(|spec| spec.source_topic == "plc/aquarium/inputs"));
    assert!(layout.topics.iter().any(|spec| spec.source_topic == "plc/aquarium/alarms"));
    assert!(layout.topics.iter().any(|spec| spec.source_topic == "plc/aquarium/time_sync"));
    assert!(layout.topics.iter().any(|spec| spec.source_topic == "plc/aquarium/clock"));

    let di = spec_of(&layout, TopicKind::Di);
    assert_eq!(di.fields[4].source, "DI_Return_Float_LowLow");
    assert_eq!(di.fields[4].length, 1);

    let digital_outputs = spec_of(&layout, TopicKind::Do);
    assert_eq!(digital_outputs.fields[7].source, "DO_Relay_DC_4");
    assert_eq!(digital_outputs.fields[7].discovery.domain, Domain::Light);
    assert_eq!(
        digital_outputs.fields[7].discovery.command_topic.as_deref(),
        Some("plc/aquarium/command/cabinet_light")
    );

    let inputs = spec_of(&layout, TopicKind::Inputs);
    assert_eq!(inputs.fields[13].source, "ATO_Amps");
    assert_eq!(inputs.fields[13].length, 4);
    assert_eq!(inputs.fields[15].source, "Ph_Transmitter");
    assert_eq!(inputs.fields[15].length, 4);

    let alarms = spec_of(&layout, TopicKind::Alarms);
    assert_eq!(alarms.fields.len(), 23);
    assert_eq!(alarms.fields[0].source, "Alarm_Heater_Not_On");
    assert_eq!(alarms.fields[11].source, "Alarm_ATO_Runtime");
    assert_eq!(alarms.fields[12].source, "Alarm_Heater_1_On_Time");
    assert_eq!(alarms.fields[13].source, "Alarm_Ph");
    assert_eq!(alarms.fields[14].source, "Alarm_Return_Float_Low_Time");
    assert_eq!(alarms.fields[15].source, "Alarm_Not_Auto_Mode_Time");
    assert_eq!(alarms.fields[16].source, "Alarm_Cab_Light_Req_On_Time");
    assert_eq!(alarms.fields[17].source, "Alarm_Cab_Light_Door_On_Time");
    assert_eq!(alarms.fields[18].source, "Alarm_GMP40_1_Any");
    assert_eq!(alarms.fields[19].source, "Alarm_GMP40_1_Command_Failed");
    assert_eq!(alarms.fields[20].source, "Alarm_GMP40_1_Device_Fault");
    assert_eq!(alarms.fields[21].source, "Alarm_GMP40_1_Protocol_Fault");
    assert_eq!(alarms.fields[22].source, "Alarm_GMP40_1_Unavailable");

    let ato = spec_of(&layout, TopicKind::Ato);
    assert_eq!(ato.fields.len(), 9);
    assert_eq!(ato.fields[7].source, "ATO_Current_mL");
    assert_eq!(ato.fields[7].length, 4);
    assert_eq!(ato.fields[8].source, "ATO_Acc_mL");
    assert_eq!(ato.fields[8].length, 4);

    let time_sync = spec_of(&layout, TopicKind::TimeSync);
    assert_eq!(time_sync.fields.len(), 4);
    assert_eq!(time_sync.fields[0].source, "Alarm_Time_Sync");
    assert_eq!(time_sync.fields[0].length, 1);
    assert_eq!(time_sync.fields[1].source, "Battery Low Bit");
    assert_eq!(time_sync.fields[1].length, 1);
    assert_eq!(time_sync.fields[2].source, "Time_Sync_Error_Count.Counter");
    assert_eq!(time_sync.fields[2].length, 5);
    assert_eq!(time_sync.fields[3].source, "Time_Sync_Success_Count.Counter");
    assert_eq!(time_sync.fields[3].length, 5);

    let clock = spec_of(&layout, TopicKind::Clock);
    assert_eq!(clock.fields.len(), 1);
    assert_eq!(clock.fields[0].source, "PLC_Clock");
    assert_eq!(clock.fields[0].length, 25);
    assert_eq!(clock.fields[0].value_type, ValueType::Timestamp);
}

#[test]
fn parses_alarm_payloads() {
    let layout = test_layout();
    let spec = spec_of(&layout, TopicKind::Alarms);
    let state = parse_payload(spec, "1,0,0,1,0,1,0,0,1,0,1,0,1,0,1,0,1,0,1,0,1,0,1,").unwrap();

    assert_eq!(state["Alarm_Heater_Not_On"], Value::from(true));
    assert_eq!(state["Alarm_Heater_On"], Value::from(false));
    assert_eq!(state["Alarm_Return_Pump_Not_Running"], Value::from(true));
    assert_eq!(state["Alarm_ATO_Runtime"], Value::from(false));
    assert_eq!(state["Alarm_Heater_1_On_Time"], Value::from(true));
    assert_eq!(state["Alarm_Ph"], Value::from(false));
    assert_eq!(state["Alarm_Return_Float_Low_Time"], Value::from(true));
    assert_eq!(state["Alarm_Not_Auto_Mode_Time"], Value::from(false));
    assert_eq!(state["Alarm_Cab_Light_Req_On_Time"], Value::from(true));
    assert_eq!(state["Alarm_Cab_Light_Door_On_Time"], Value::from(false));
    assert_eq!(state["Alarm_GMP40_1_Any"], Value::from(true));
    assert_eq!(state["Alarm_GMP40_1_Command_Failed"], Value::from(false));
    assert_eq!(state["Alarm_GMP40_1_Device_Fault"], Value::from(true));
    assert_eq!(state["Alarm_GMP40_1_Protocol_Fault"], Value::from(false));
    assert_eq!(state["Alarm_GMP40_1_Unavailable"], Value::from(true));
}

#[test]
fn parses_ato_volume_payloads() {
    let layout = test_layout();
    let spec = spec_of(&layout, TopicKind::Ato);
    let state = parse_payload(spec, "12,1,345,678,0,1,0,42,1234,").unwrap();

    assert_eq!(state["ATO_Timer.Current"], Value::from(12));
    assert_eq!(state["ATO_Timer.Done"], Value::from(true));
    assert_eq!(state["ATO_Current_mL"], Value::from(42));
    assert_eq!(state["ATO_Acc_mL"], Value::from(1234));
}

#[test]
fn parses_gmp40_telemetry() {
    let layout = test_layout();
    let spec = spec_of(&layout, TopicKind::Gmp40);
    let state =
        parse_payload(spec, "1,1,1,3,048,028,037,0A,000,1,1,20,0,0,1,0,2,0,7,42,3,").unwrap();

    assert_eq!(state["GMP40_1_Data.Status.Power"], Value::from(true));
    assert_eq!(state["GMP40_1_Data.Status.Mode"], Value::from(3));
    assert_eq!(state["GMP40_1_Data.Status.Flow"], Value::from(72));
    assert_eq!(state["GMP40_1_Authority.MQTTReceivedLast"], Value::from(42));
    assert_eq!(state["GMP40_1_Data.Status.Linkage"], Value::from(3));
}

#[test]
fn parses_time_sync_payloads() {
    let layout = test_layout();
    let spec = spec_of(&layout, TopicKind::TimeSync);
    let state = parse_payload(spec, "1,0,00012,00345,").unwrap();

    assert_eq!(state["Alarm_Time_Sync"], Value::from(true));
    assert_eq!(state["Battery Low Bit"], Value::from(false));
    assert_eq!(state["Time_Sync_Error_Count.Counter"], Value::from(12));
    assert_eq!(state["Time_Sync_Success_Count.Counter"], Value::from(345));
}

#[test]
fn parses_clock_payloads() {
    let layout = test_layout();
    let spec = spec_of(&layout, TopicKind::Clock);
    let state = parse_payload(spec, "2026-07-26T18:11:10-07:00").unwrap();

    assert_eq!(state["PLC_Clock"], Value::from("2026-07-26T18:11:10-07:00"));
}

#[test]
fn normalizes_clock_with_receipt_derived_offset() {
    let layout = test_layout();
    let spec = spec_of(&layout, TopicKind::Clock);
    let plc_timestamp = DateTime::parse_from_rfc3339("2026-07-26T18:11:10-07:00").unwrap();
    let received_millis = (plc_timestamp.timestamp_millis() + 2_500) as u64;
    let received_at = ReceiptTime {
        before_epoch: false,
        seconds: received_millis / 1000,
        nanos: (received_millis % 1000) as u32 * 1_000_000,
    };

    let state = normalize_payload(spec, "2026-07-26T18:11:10-07:00", received_at).unwrap();

    assert_eq!(state["PLC_Clock"], Value::from("2026-07-26T18:11:10-07:00"));
    assert_eq!(state[CLOCK_OFFSET_FIELD], Value::from(2.5));
}

#[test]
fn rejects_invalid_clock_payloads() {
    let layout = test_layout();
    let spec = spec_of(&layout, TopicKind::Clock);

    for payload in [
        "2026-02-29T18:11:10-07:00",
        "2026-07-26 18:11:10-07:00",
        "2026-07-26T25:11:10-07:00",
        "not-a-timestamp",
    ] {
        let err = parse_payload(spec, payload).unwrap_err();
        assert!(matches!(err, ParsePayloadError::InvalidTimestamp { .. }));
    }
}

#[test]
fn parses_inputs_with_trailing_comma() {
    let layout = test_layout();
    let spec = spec_of(&layout, TopicKind::Inputs);
    let state = parse_payload(
        spec,
        "78.34,78.12,78.34,0.57,0.40,0.00,0.41,0.35,0.12,0.10,0,1,1,0.05,1,8.12,",
    )
    .unwrap();

    assert_eq!(state["Temp_Sump_1"], Value::from(78.34));
    assert_eq!(state["Temp_Sump_2"], Value::from(78.12));
    assert_eq!(state["Temp_Sump_Max"], Value::from(78.34));
    assert_eq!(state["Ph_Transmitter"], Value::from(8.12));
    assert_eq!(state["Heater_2_Amps"], Value::from(0.0));
    assert_eq!(state["Wavemakers_Amps"], Value::from(0.10));
    assert_eq!(state["ATO_Amps"], Value::from(0.05));
    assert_eq!(state["ATO_Running"], Value::from(true));
}

#[test]
fn normalizes_bool_polarity_from_layout() {
    let layout = test_layout();
    let spec = spec_of(&layout, TopicKind::Di);
    let state = parse_payload(spec, "1,0,1,0,0,0,0,0,0,0,0,0,1,0,0,1").unwrap();

    assert_eq!(state["DI_Water_Leak_1"], Value::from(false));
    assert_eq!(state["DI_Water_Leak_2"], Value::from(true));
    assert_eq!(state["DI_Return_Float_High"], Value::from(true));
}

#[test]
fn trims_padded_ai_values() {
    let layout = test_layout();
    let spec = spec_of(&layout, TopicKind::Ai);
    let state = parse_payload(
        spec,
        "313 ,1   ,223 ,1   ,2   ,0   ,45  ,1   ,11  ,1   ,577 ,1   ,9,0,8,1",
    )
    .unwrap();

    assert_eq!(state["AI_CT_AC_Total"], Value::from(313));
    assert_eq!(state["AI_CT_DC_Wavemakers:1"], Value::from(1));
}

#[test]
fn rejects_short_payloads() {
    let layout = test_layout();
    let spec = spec_of(&layout, TopicKind::Inputs);
    let err = parse_payload(spec, "78.3,78.1,78.3").unwrap_err();

    assert!(matches!(
        err,
        ParsePayloadError::CountMismatch { expected: 16, actual: 3, .. }
    ));
}

#[test]
fn rejects_invalid_bool_values() {
    let layout = test_layout();
    let spec = spec_of(&layout, TopicKind::Di);
    let err = parse_payload(spec, "1,0,wat,0,0,0,0,0,0,0,0,0,1,0,0,1").unwrap_err();

    assert!(matches!(
        err,
        ParsePayloadError::InvalidBool { ref field, .. } if field == "DI_Return_Float_High"
    ));
}

#[test]
fn discovery_omits_ai_by_default() {
    let layout = test_layout();
    let options = test_options(false);
    let components = discovery_components(&options, &layout);

    assert!(components.contains_key("total_amps"));
    assert!(components.contains_key("di_water_leak_1"));
    assert!(components.contains_key("ato_timer_current"));
    assert!(components.contains_key("ai_topic_online"));
    assert!(!components.contains_key("ai_ct_ac_total"));
}

#[test]
fn discovery_suggests_two_decimal_places_for_sump_temperatures() {
    let layout = test_layout();
    let options = test_options(false);
    let components = discovery_components(&options, &layout);

    for component_id in ["temp_sump_1", "temp_sump_2", "temp_sump_max"] {
        assert_eq!(
            components[component_id]["suggested_display_precision"],
            Value::from(2)
        );
    }
}

#[test]
fn discovery_includes_time_sync_diagnostics() {
    let layout = test_layout();
    let options = test_options(false);
    let components = discovery_components(&options, &layout);

    assert_eq!(
        components["alarm_time_sync"]["state_topic"],
        Value::from("reef/plc/state/time_sync")
    );
    assert_eq!(
        components["alarm_time_sync"]["value_template"],
        Value::from("{{ 'ON' if value_json[\"Alarm_Time_Sync\"] else 'OFF' }}")
    );
    assert_eq!(
        components["alarm_time_sync"]["device_class"],
        Value::from("problem")
    );
    assert_eq!(
        components["battery_low_bit"]["value_template"],
        Value::from("{{ 'ON' if value_json[\"Battery Low Bit\"] else 'OFF' }}")
    );
    for component_id in ["time_sync_error_count_counter", "time_sync_success_count_counter"] {
        assert_eq!(
            components[component_id]["state_class"],
            Value::from("total_increasing")
        );
        assert_eq!(
            components[component_id]["entity_category"],
            Value::from("diagnostic")
        );
    }
}

#[test]
fn discovery_includes_cabinet_light_on_time_alarms() {
    let layout = test_layout();
    let options = test_options(false);
    let components = discovery_components(&options, &layout);

    for (component_id, source) in [
        ("alarm_cab_light_req_on_time", "Alarm_Cab_Light_Req_On_Time"),
        ("alarm_cab_light_door_on_time", "Alarm_Cab_Light_Door_On_Time"),
    ] {
        assert_eq!(
            components[component_id]["state_topic"],
            Value::from("reef/plc/state/alarms")
        );
        assert_eq!(
            components[component_id]["value_template"],
            Value::from(format!("{{{{ 'ON' if value_json[\"{source}\"] else 'OFF' }}}}"))
        );
        assert_eq!(components[component_id]["device_class"], Value::from("problem"));
    }
}

#[test]
fn discovery_includes_gmp40_alarms() {
    let layout = test_layout();
    let options = test_options(false);
    let components = discovery_components(&options, &layout);

    for (component_id, source) in [
        ("alarm_gmp40_1_any", "Alarm_GMP40_1_Any"),
        ("alarm_gmp40_1_command_failed", "Alarm_GMP40_1_Command_Failed"),
        ("alarm_gmp40_1_device_fault", "Alarm_GMP40_1_Device_Fault"),
        ("alarm_gmp40_1_protocol_fault", "Alarm_GMP40_1_Protocol_Fault"),
        ("alarm_gmp40_1_unavailable", "Alarm_GMP40_1_Unavailable"),
    ] {
        assert_eq!(
            components[component_id]["state_topic"],
            Value::from("reef/plc/state/alarms")
        );
        assert_eq!(
            components[component_id]["value_template"],
            Value::from(format!("{{{{ 'ON' if value_json[\"{source}\"] else 'OFF' }}}}"))
        );
        assert_eq!(components[component_id]["device_class"], Value::from("problem"));
    }
}

#[test]
fn discovery_includes_confirmed_gmp40_controls() {
    let layout = test_layout();
    let options = test_options(false);
    let messages = discovery_messages(&options, &layout);
    let components = discovery_components(&options, &layout);

    assert!(messages
        .iter()
        .any(|(topic, _)| topic == "homeassistant/switch/reef_plc_gmp40_1_power/config"));
    assert!(messages
        .iter()
        .any(|(topic, _)| topic == "homeassistant/select/reef_plc_gmp40_1_mode/config"));
    assert!(messages
        .iter()
        .any(|(topic, _)| topic == "homeassistant/number/reef_plc_gmp40_1_flow/config"));
    assert_eq!(components["gmp40_1_power"]["optimistic"], Value::from(false));
    assert_eq!(
        components["gmp40_1_power"]["command_topic"],
        Value::from("reef/plc/command/gmp40_1/power")
    );
    assert_eq!(
        components["gmp40_1_mode"]["options"],
        Value::from(vec![
            "pulse_wave",
            "sine_wave",
            "constant_flow",
            "random_wave",
            "tide",
            "nutrient_transport",
            "circulation",
            "feeding",
            "custom_wave"
        ])
    );
    assert_eq!(
        components["gmp40_1_mode"]["value_template"],
        Value::from("{{ {0: 'pulse_wave', 1: 'sine_wave', 2: 'constant_flow', 3: 'random_wave', 4: 'tide', 5: 'nutrient_transport', 6: 'circulation', 7: 'feeding', 8: 'custom_wave'}.get(value_json[\"GMP40_1_Data.Status.Mode\"] | int) }}")
    );
    assert_eq!(
        components["gmp40_1_linkage"]["value_template"],
        Value::from("{{ {0: 'independent', 1: 'primary', 2: 'synchronous_secondary', 3: 'asynchronous_secondary'}.get(value_json[\"GMP40_1_Data.Status.Linkage\"] | int) }}")
    );
    assert_eq!(components["gmp40_1_flow"]["min"], Value::from(0));
    assert_eq!(components["gmp40_1_flow"]["max"], Value::from(100));
}

#[test]
fn discovery_includes_plc_clock_timestamp() {
    let layout = test_layout();
    let options = test_options(false);
    let components = discovery_components(&options, &layout);

    assert_eq!(
        components["plc_clock"]["state_topic"],
        Value::from("reef/plc/state/clock")
    );
    assert_eq!(
        components["plc_clock"]["value_template"],
        Value::from("{{ value_json[\"PLC_Clock\"] }}")
    );
    assert_eq!(components["plc_clock"]["device_class"], Value::from("timestamp"));
    assert_eq!(
        components["plc_clock"]["entity_category"],
        Value::from("diagnostic")
    );
}

#[test]
fn discovery_includes_receipt_derived_clock_offset() {
    let layout = test_layout();
    let options = test_options(false);
    let messages = discovery_messages(&options, &layout);
    let components = discovery_components(&options, &layout);

    assert!(messages
        .iter()
        .any(|(topic, _)| topic == "homeassistant/sensor/reef_plc_clock_offset_seconds/config"));
    assert_eq!(
        components["clock_offset_seconds"]["state_topic"],
        Value::from("reef/plc/state/clock")
    );
    assert_eq!(
        components["clock_offset_seconds"]["value_template"],
        Value::from("{{ value_json[\"Clock_Offset_Seconds\"] }}")
    );
    assert_eq!(
        components["clock_offset_seconds"]["unit_of_measurement"],
        Value::from("s")
    );
    assert_eq!(
        components["clock_offset_seconds"]["state_class"],
        Value::from("measurement")
    );
    assert_eq!(
        components["clock_offset_seconds"]["suggested_display_precision"],
        Value::from(1)
    );
    assert_eq!(
        components["clock_offset_seconds"]["entity_category"],
        Value::from("diagnostic")
    );
    assert_eq!(
        components["clock_offset_seconds"]["expire_after"],
        Value::from(390)
    );
    assert_eq!(
        components["clock_offset_seconds"]["availability_mode"],
        Value::from("all")
    );
}

#[test]
fn discovery_includes_plc_mqtt_connectivity() {
    let layout = test_layout();
    let options = test_options(false);
    let messages = discovery_messages(&options, &layout);
    let components = discovery_components(&options, &layout);

    assert!(messages
        .iter()
        .any(|(topic, _)| topic == "homeassistant/binary_sensor/reef_plc_mqtt_connected/config"));
    let connected = &components["mqtt_connected"];
    assert_eq!(connected["state_topic"], Value::from("plc/aquarium/status"));
    assert_eq!(connected["payload_on"], Value::from("online"));
    assert_eq!(connected["payload_off"], Value::from("offline"));
    assert_eq!(connected["availability_topic"], Value::from("reef/plc/status"));
    assert_eq!(connected["device_class"], Value::from("connectivity"));
    assert_eq!(connected["entity_category"], Value::from("diagnostic"));
    assert!(connected.get("expire_after").is_none());
    assert!(connected.get("availability").is_none());
}

#[test]
fn discovery_includes_topic_health_sensors() {
    let layout = test_layout();
    let options = test_options(false);
    let messages = discovery_messages(&options, &layout);
    let components = discovery_components(&options, &layout);

    for (component_id, state_topic) in [
        ("di_topic_online", "reef/plc/state/di"),
        ("do_topic_online", "reef/plc/state/do"),
        ("ai_topic_online", "reef/plc/state/ai"),
        ("inputs_topic_online", "reef/plc/state/inputs"),
        ("alarms_topic_online", "reef/plc/state/alarms"),
        ("ato_topic_online", "reef/plc/state/ato"),
        ("time_sync_topic_online", "reef/plc/state/time_sync"),
        ("clock_topic_online", "reef/plc/state/clock"),
    ] {
        assert!(messages.iter().any(|(topic, _)| topic
            == &format!("homeassistant/binary_sensor/reef_plc_{component_id}/config")));
        assert_eq!(
            components[component_id]["unique_id"],
            Value::from(format!("reef_plc_{component_id}"))
        );
        assert_eq!(components[component_id]["state_topic"], Value::from(state_topic));
        assert_eq!(components[component_id]["value_template"], Value::from("ON"));
        assert_eq!(components[component_id]["payload_on"], Value::from("ON"));
        let expected_expire_after = if component_id == "clock_topic_online" { 390 } else { 60 };
        assert_eq!(
            components[component_id]["expire_after"],
            Value::from(expected_expire_after)
        );
        assert_eq!(components[component_id]["availability_mode"], Value::from("all"));
        assert_eq!(components[component_id]["availability"], combined_availability());
        assert!(components[component_id].get("availability_topic").is_none());
        assert_eq!(
            components[component_id]["device_class"],
            Value::from("connectivity")
        );
        assert_eq!(
            components[component_id]["entity_category"],
            Value::from("diagnostic")
        );
        assert!(components[component_id].get("force_update").is_none());
    }
}

#[test]
fn discovery_includes_diagnostic_ai_when_enabled() {
    let layout = test_layout();
    let options = test_options(true);
    let components = discovery_components(&options, &layout);

    assert_eq!(
        components["ai_ct_ac_total"]["entity_category"],
        Value::from("diagnostic")
    );
    assert_eq!(
        components["ai_ct_ac_total"]["enabled_by_default"],
        Value::from(false)
    );
}

#[test]
fn discovery_can_disable_individual_entities_by_default() {
    let layout = test_layout();
    let options = test_options(false);
    let components = discovery_components(&options, &layout);

    assert_eq!(
        components["di_water_leak_2"]["enabled_by_default"],
        Value::from(false)
    );
    assert!(components["di_water_leak_1"]
        .as_object()
        .unwrap()
        .get("enabled_by_default")
        .is_none());
    assert!(components["ato_timer_current"]
        .as_object()
        .unwrap()
        .get("enabled_by_default")
        .is_none());
    assert_eq!(
        components["ato_timer_current"]["unit_of_measurement"],
        Value::from("s")
    );
    assert_eq!(
        components["ato_timer_current"]["device_class"],
        Value::from("duration")
    );
    assert_eq!(
        components["ato_timer_current"]["state_class"],
        Value::from("measurement")
    );
}

#[test]
fn discovery_includes_controllable_cabinet_light() {
    let layout = test_layout();
    let options = test_options(false);
    let messages = discovery_messages(&options, &layout);
    let components = discovery_components(&options, &layout);
    let cabinet_light = &components["cabinet_light"];

    assert!(messages
        .iter()
        .any(|(topic, _)| topic == "homeassistant/light/reef_plc_cabinet_light/config"));
    assert_eq!(cabinet_light["unique_id"], Value::from("reef_plc_cabinet_light"));
    assert_eq!(
        cabinet_light["default_entity_id"],
        Value::from("light.office_reef_cabinet")
    );
    assert_eq!(
        cabinet_light["command_topic"],
        Value::from("plc/aquarium/command/cabinet_light")
    );
    assert_eq!(cabinet_light["state_topic"], Value::from("reef/plc/state/do"));
    assert_eq!(
        cabinet_light["state_value_template"],
        Value::from("{{ 'ON' if value_json[\"DO_Relay_DC_4\"] else 'OFF' }}")
    );
    assert_eq!(cabinet_light["payload_on"], Value::from("ON"));
    assert_eq!(cabinet_light["payload_off"], Value::from("OFF"));
    assert_eq!(cabinet_light["optimistic"], Value::from(true));
    assert_eq!(cabinet_light["qos"], Value::from(1));
    assert_eq!(cabinet_light["retain"], Value::from(false));
    assert_eq!(cabinet_light["availability_mode"], Value::from("all"));
    assert_eq!(cabinet_light["availability"], combined_availability());
    assert!(cabinet_light.get("availability_topic").is_none());
    assert!(cabinet_light.get("value_template").is_none());
}

#[test]
fn discovery_removes_legacy_cabinet_light_binary_sensor() {
    let layout = test_layout();
    let options = test_options(false);

    assert_eq!(
        removed_discovery_topics(&options, &layout),
        vec!["homeassistant/binary_sensor/reef_plc_do_relay_dc_4/config"]
    );
}

#[test]
fn layout_rejects_light_without_command_topic() {
    let mut layout = test_layout();
    let cabinet_light = layout
        .topics
        .iter_mut()
        .find(|spec| spec.kind == TopicKind::Do)
        .unwrap()
        .fields
        .get_mut(7)
        .unwrap();
    cabinet_light.discovery.command_topic = None;

    let err = validate_layout(&layout).unwrap_err();

    assert!(err
        .message()
        .contains("packed MQTT controllable field DO_Relay_DC_4 requires command_topic"));
}

#[test]
fn discovery_uses_per_entity_discovery_shape() {
    let layout = test_layout();
    let options = test_options(false);
    let messages = discovery_messages(&options, &layout);
    let components = discovery_components(&options, &layout);

    assert!(messages
        .iter()
        .any(|(topic, _)| topic == "homeassistant/sensor/reef_plc_total_amps/config"));
    assert!(messages
        .iter()
        .any(|(topic, _)| topic == "homeassistant/binary_sensor/reef_plc_di_water_leak_1/config"));
    assert_eq!(
        components["total_amps"]["device"]["identifiers"],
        Value::from(vec![DEVICE_ID])
    );
    assert_eq!(components["total_amps"]["origin"]["name"], Value::from(APP_NAME));
    assert_eq!(components["total_amps"]["unit_of_measurement"], Value::from("A"));
    assert_eq!(components["total_amps"]["device_class"], Value::from("current"));
    assert_eq!(
        components["total_amps"]["state_topic"],
        Value::from("reef/plc/state/inputs")
    );
    assert_eq!(
        components["di_water_leak_1"]["value_template"],
        Value::from("{{ 'ON' if value_json[\"DI_Water_Leak_1\"] else 'OFF' }}")
    );
    assert_eq!(components["total_amps"]["expire_after"], Value::from(60));
    assert_eq!(components["di_water_leak_1"]["expire_after"], Value::from(60));
    assert_eq!(components["total_amps"]["availability_mode"], Value::from("all"));
    assert_eq!(components["total_amps"]["availability"], combined_availability());
    assert!(components["total_amps"].get("availability_topic").is_none());
}

#[test]
fn fresh_cached_states_follow_layout_order_and_skip_stale_states() {
    let layout = test_layout();
    let now = 1_000 * SECOND;
    let expiry = DEFAULT_TOPIC_HEALTH_EXPIRE_AFTER_SECONDS as u128;
    let mut last_states = StateCache::new();

    last_states.insert(
        "reef/plc/state/alarms",
        CachedState { payload: "{\"Alarm_Ph\":true}".to_string(), updated_at: now },
    );
    last_states.insert(
        "reef/plc/state/di",
        CachedState {
            payload: "{\"DI_Return_Float_High\":true}".to_string(),
            updated_at: now - expiry * SECOND,
        },
    );
    last_states.insert(
        "reef/plc/state/inputs",
        CachedState {
            payload: "{\"Temp_Sump_1\":78.3}".to_string(),
            updated_at: now - (expiry + 1) * SECOND,
        },
    );
    last_states.insert(
        "reef/plc/state/clock",
        CachedState {
            payload: "\"2026-07-26T12:00:00-07:00\"".to_string(),
            updated_at: now - 300 * SECOND,
        },
    );

    let states = fresh_cached_states(&layout, &last_states, now);

    assert_eq!(
        states,
        vec![
            ("reef/plc/state/di", "{\"DI_Return_Float_High\":true}"),
            ("reef/plc/state/alarms", "{\"Alarm_Ph\":true}")
        ]
    );
}

#[test]
fn reconnect_backoff_doubles_caps_and_resets() {
    let mut backoff = ReconnectBackoff::new(SECOND, 5 * SECOND);

    assert_eq!(backoff.next_delay(), SECOND);
    assert_eq!(backoff.next_delay(), 2 * SECOND);
    assert_eq!(backoff.next_delay(), 4 * SECOND);
    assert_eq!(backoff.next_delay(), 5 * SECOND);
    assert_eq!(backoff.next_delay(), 5 * SECOND);

    backoff.reset();

    assert_eq!(backoff.next_delay(), SECOND);
}

#[test]
fn every_entity_has_a_discovery_topic_of_its_own() {
    let layout = test_layout();
    for publish_diagnostic_ai in [false, true] {
        let options = test_options(publish_diagnostic_ai);
        let messages = discovery_messages(&options, &layout);
        let mut topics: Vec<&str> = messages.iter().map(|(topic, _)| topic.as_str()).collect();
        topics.sort_unstable();
        topics.dedup();
        assert_eq!(topics.len(), messages.len());
        let fields: usize = layout
            .topics
            .iter()
            .filter(|spec| publish_diagnostic_ai || spec.kind != TopicKind::Ai)
            .map(|spec| spec.fields.len())
            .sum();
        assert_eq!(messages.len(), 1 + 9 + 1 + fields);
    }
}

#[test]
fn every_field_is_shown_from_its_own_topic() {
    let layout = test_layout();
    let components = discovery_components(&test_options(true), &layout);
    for spec in &layout.topics {
        for field in &spec.fields {
            let record = &components[&field_component_id(field)];
            assert_eq!(record["state_topic"], Value::from(spec.state_topic.as_str()));
            assert_eq!(record["availability"], combined_availability());
            let expiry = match field.discovery.domain {
                Domain::Light => None,
                _ => Some(Value::from(if spec.kind == TopicKind::Clock { 390 } else { 60 })),
            };
            assert_eq!(record.get("expire_after").cloned(), expiry);
            let optimistic = match field.discovery.domain {
                Domain::Light => Some(Value::from(true)),
                Domain::Switch | Domain::Select | Domain::Number => Some(Value::from(false)),
                Domain::BinarySensor | Domain::Sensor => None,
            };
            assert_eq!(record.get("optimistic").cloned(), optimistic);
        }
    }
}
