//! Single values, timestamps, the clock offset and the templates.

use std::time::Duration;

use reef_plc_normalizer::clock::{
    clock_offset, offset_seconds_text, plc_clock_millis, ReceiptTime,
};
use reef_plc_normalizer::config::{default_discovery_prefix, default_log_level};
use reef_plc_normalizer::layout::{
    component_id, default_enabled_by_default, field_component_id, Domain, Field, FieldDiscovery,
    IntFormat, TopicKind, TopicSpec, ValueName, ValueType,
};
use reef_plc_normalizer::normalize::{
    normalize_payload, parse_bool, parse_payload, parse_value, ParsePayloadError,
    CLOCK_OFFSET_FIELD,
};
use reef_plc_normalizer::numeral::{parse_integer, signed_decimal_text};
use reef_plc_normalizer::template::{
    jinja_key, names_template_text, on_off_template_text, plain_template_text,
};
use reef_plc_normalizer::text::split_csv;
use reef_plc_normalizer::timestamp::{is_leap_year, is_plc_timestamp, parse_digits};
use serde_json::Value;

fn field(source: &str, value_type: ValueType) -> Field {
    Field {
        source: source.to_string(),
        plc_source: None,
        length: 1,
        value_type,
        int_format: IntFormat::Decimal,
        active_when: None,
        discovery: FieldDiscovery {
            domain: Domain::Sensor,
            name: source.to_string(),
            component_id: None,
            default_entity_id: None,
            command_topic: None,
            command_mask: None,
            min: None,
            max: None,
            options: None,
            value_map: None,
            unit_of_measurement: None,
            device_class: None,
            state_class: None,
            suggested_display_precision: None,
            entity_category: None,
            enabled_by_default: true,
        },
    }
}

fn topic(kind: TopicKind, fields: Vec<Field>) -> TopicSpec {
    TopicSpec {
        kind,
        source_topic: "plc/test".to_string(),
        state_topic: "state/test".to_string(),
        raw_command_topic: None,
        fields,
    }
}

fn value_of(field: &Field, value: &str) -> Option<Value> {
    parse_value("plc/test", field, value).ok()
}

fn received(seconds: u64, nanos: u32) -> ReceiptTime {
    ReceiptTime { before_epoch: false, seconds, nanos }
}

#[test]
fn payloads_split_at_commas_and_lose_outer_white_space() {
    assert_eq!(split_csv(" 1 ,\t2\n,\u{a0}3\u{2003}"), vec!["1", "2", "3"]);
    assert_eq!(split_csv(""), vec![""]);
    assert_eq!(split_csv("a b,"), vec!["a b", ""]);
    assert_eq!(split_csv(",,"), vec!["", "", ""]);
}

#[test]
fn one_trailing_comma_is_accepted_and_no_more() {
    let spec = topic(
        TopicKind::Di,
        vec![field("a", ValueType::Int), field("b", ValueType::Int)],
    );
    for payload in ["1,2", "1,2,", " 1 , 2 , "] {
        let state = parse_payload(&spec, payload).unwrap();
        assert_eq!(state.len(), 2);
        assert_eq!(state["a"], Value::from(1));
        assert_eq!(state["b"], Value::from(2));
    }
    let err = parse_payload(&spec, "1,2,,").unwrap_err();
    assert!(matches!(
        err,
        ParsePayloadError::CountMismatch { ref topic, expected: 2, actual: 3 } if topic == "plc/test"
    ));
    let err = parse_payload(&spec, "").unwrap_err();
    assert!(matches!(err, ParsePayloadError::CountMismatch { expected: 2, actual: 0, .. }));
}

#[test]
fn the_first_bad_value_is_reported() {
    let spec = topic(
        TopicKind::Di,
        vec![
            field("a", ValueType::Int),
            field("b", ValueType::Float),
            field("c", ValueType::Int),
        ],
    );
    match parse_payload(&spec, "1, x ,y").unwrap_err() {
        ParsePayloadError::InvalidFloat { topic, field, value } => {
            assert_eq!((topic.as_str(), field.as_str(), value.as_str()), ("plc/test", "b", "x"));
        }
        other => panic!("{other:?}"),
    }
    match parse_payload(&spec, "1.5,2,3").unwrap_err() {
        ParsePayloadError::InvalidInt { topic, field, value } => {
            assert_eq!((topic.as_str(), field.as_str(), value.as_str()), ("plc/test", "a", "1.5"));
        }
        other => panic!("{other:?}"),
    }
}

#[test]
fn booleans_come_in_three_spellings() {
    for (value, flag) in [
        ("1", Some(true)),
        ("0", Some(false)),
        ("true", Some(true)),
        ("TRUE", Some(true)),
        ("False", Some(false)),
        ("oN", Some(true)),
        ("OFF", Some(false)),
        ("yes", None),
        ("", None),
        ("10", None),
        (" 1", None),
    ] {
        assert_eq!(parse_bool(value), flag, "{value:?}");
    }
}

#[test]
fn the_active_level_decides_what_is_on() {
    let mut flag = field("flag", ValueType::Bool);
    assert_eq!(value_of(&flag, "1"), Some(Value::from(true)));
    assert_eq!(value_of(&flag, "0"), Some(Value::from(false)));
    flag.active_when = Some(true);
    assert_eq!(value_of(&flag, "1"), Some(Value::from(true)));
    flag.active_when = Some(false);
    assert_eq!(value_of(&flag, "1"), Some(Value::from(false)));
    assert_eq!(value_of(&flag, "0"), Some(Value::from(true)));
    assert_eq!(value_of(&flag, "2"), None);
}

#[test]
fn integers_cover_the_whole_range_and_nothing_beyond() {
    let number = field("number", ValueType::Int);
    assert_eq!(value_of(&number, "9223372036854775807"), Some(Value::from(i64::MAX)));
    assert_eq!(value_of(&number, "-9223372036854775808"), Some(Value::from(i64::MIN)));
    assert_eq!(value_of(&number, "+7"), Some(Value::from(7)));
    assert_eq!(value_of(&number, "-0"), Some(Value::from(0)));
    assert_eq!(value_of(&number, "00042"), Some(Value::from(42)));
    for value in ["9223372036854775808", "-9223372036854775809", "", "+", "-", "1.0", "0x1", "1_0"] {
        assert_eq!(value_of(&number, value), None, "{value:?}");
    }
}

#[test]
fn hexadecimal_integers_read_in_their_own_base() {
    let mut number = field("number", ValueType::Int);
    assert_eq!(value_of(&number, "0A"), None);
    number.int_format = IntFormat::Hexadecimal;
    assert_eq!(value_of(&number, "0A"), Some(Value::from(10)));
    assert_eq!(value_of(&number, "048"), Some(Value::from(72)));
    assert_eq!(value_of(&number, "fF"), Some(Value::from(255)));
    assert_eq!(value_of(&number, "G"), None);
    assert_eq!(parse_integer("7fffffffffffffff", 16), Some(i64::MAX));
    assert_eq!(parse_integer("8000000000000000", 16), None);
    assert_eq!(signed_decimal_text(i64::MIN), "-9223372036854775808");
    assert_eq!(signed_decimal_text(0), "0");
    assert_eq!(signed_decimal_text(120), "120");
}

#[test]
fn floats_that_are_not_finite_become_null() {
    let number = field("number", ValueType::Float);
    assert_eq!(value_of(&number, "78.34"), Some(Value::from(78.34)));
    assert_eq!(value_of(&number, "-0.5"), Some(Value::from(-0.5)));
    assert_eq!(value_of(&number, "1e3"), Some(Value::from(1000.0)));
    assert_eq!(value_of(&number, ".5"), Some(Value::from(0.5)));
    assert_eq!(value_of(&number, "7"), Some(Value::from(7.0)));
    assert_ne!(value_of(&number, "7"), Some(Value::from(7)));
    for value in ["nan", "inf", "-infinity", "1e400"] {
        assert_eq!(value_of(&number, value), Some(Value::Null), "{value:?}");
    }
    for value in ["", "abc", "1,5", "1.2.3"] {
        assert_eq!(value_of(&number, value), None, "{value:?}");
    }
}

#[test]
fn timestamps_follow_the_calendar() {
    for value in [
        "2026-07-26T18:11:10-07:00",
        "2024-02-29T00:00:00+00:00",
        "2000-02-29T23:59:59+23:59",
        "0000-01-01T00:00:00-00:00",
        "9999-12-31T23:59:59+00:00",
    ] {
        assert!(is_plc_timestamp(value), "{value:?}");
        assert!(plc_clock_millis(value).is_some(), "{value:?}");
    }
    for value in [
        "",
        "2026-07-26T18:11:10Z",
        "2026-07-26t18:11:10-07:00",
        "2026-07-26T18:11:10.0-07:00",
        "2026-13-01T00:00:00+00:00",
        "2026-00-01T00:00:00+00:00",
        "2026-04-31T00:00:00+00:00",
        "2026-01-00T00:00:00+00:00",
        "1900-02-29T00:00:00+00:00",
        "2026-07-26T24:00:00+00:00",
        "2026-07-26T18:60:00+00:00",
        "2026-07-26T18:11:60+00:00",
        "2026-07-26T18:11:10+24:00",
        "2026-07-26T18:11:10+00:60",
        "2026-07-26T18:11:10 00:00",
        "2026/07/26T18:11:10+00:00",
        "202\u{e9}07-26T18:11:10+00:00",
    ] {
        assert!(!is_plc_timestamp(value), "{value:?}");
        assert_eq!(plc_clock_millis(value), None, "{value:?}");
    }
    assert!(is_leap_year(2000) && is_leap_year(2024) && is_leap_year(0));
    assert!(!is_leap_year(1900) && !is_leap_year(2026));
    assert_eq!(parse_digits(b"x2026", 1, 4), Some(2026));
    assert_eq!(parse_digits(b"20x6", 0, 4), None);
    assert_eq!(parse_digits(b"2026", 2, 4), None);
}

#[test]
fn timestamps_give_milliseconds_since_1970() {
    for (value, millis) in [
        ("1970-01-01T00:00:00+00:00", 0),
        ("1970-01-01T00:00:00-00:00", 0),
        ("1970-01-01T01:00:00+01:00", 0),
        ("1969-12-31T23:59:59+00:00", -1_000),
        ("2024-02-29T00:00:00+00:00", 1_709_164_800_000),
        ("2024-03-01T00:00:00+00:00", 1_709_251_200_000),
        ("2000-01-01T00:00:00+23:59", 946_598_460_000),
        ("2026-07-26T18:11:10-07:00", 1_785_114_670_000),
        ("0000-01-01T00:00:00+00:00", -62_167_219_200_000),
        ("9999-12-31T23:59:59+00:00", 253_402_300_799_000),
    ] {
        assert_eq!(plc_clock_millis(value), Some(millis), "{value:?}");
    }
}

/// The offset in seconds, in floating-point arithmetic throughout.
fn float_offset(receipt: &ReceiptTime, plc_millis: i64) -> f64 {
    let distance = Duration::new(receipt.seconds, receipt.nanos).as_secs_f64();
    let seconds = if receipt.before_epoch { -distance } else { distance };
    ((seconds - plc_millis as f64 / 1000.0) * 1000.0).round() / 1000.0
}

fn offset_text(receipt: &ReceiptTime, plc_millis: i64) -> String {
    offset_seconds_text(&clock_offset(receipt, plc_millis))
}

fn assert_float_offset(receipt: &ReceiptTime, plc_millis: i64) {
    let text = offset_text(receipt, plc_millis);
    let offset: f64 = text.parse().unwrap();
    let expected = float_offset(receipt, plc_millis);
    assert_eq!(offset.to_bits(), expected.to_bits(), "{receipt:?} {plc_millis} {text}");
}

#[test]
fn offsets_are_rounded_to_milliseconds() {
    for (seconds, nanos, plc_millis, text) in [
        (0, 0, 0, "0.000"),
        (10, 0, 10_000, "0.000"),
        (10, 499_000, 10_000, "0.000"),
        (10, 501_000, 10_000, "0.001"),
        (10, 5, 7_500, "2.500"),
        (7, 0, 7_500, "-0.500"),
        (7, 499_999_999, 7_500, "-0.000"),
        (0, 1, 0, "0.000"),
        (1_785_114_672, 500_000_000, 1_785_114_670_000, "2.500"),
        (1_785_114_670, 7_000_000, 1_785_204_731_000, "-90060.993"),
    ] {
        assert_eq!(offset_text(&received(seconds, nanos), plc_millis), text);
    }
    let early = ReceiptTime { before_epoch: true, seconds: 1, nanos: 500_000_000 };
    assert_eq!(offset_text(&early, 0), "-1.500");
    assert_eq!(offset_text(&early, -2_000), "0.500");
}

#[test]
fn offsets_are_those_of_double_precision() {
    let seconds = [
        0,
        1,
        3,
        1_023,
        86_400,
        1_785_114_670,
        4_294_967_296,
        253_402_300_799,
        (1 << 52) + 1,
        (1 << 53) + 1,
        (1 << 53) + 3,
        (1 << 60) + 12_345,
        u64::MAX >> 1,
    ];
    let nanos = [0, 1, 3, 7, 499_999, 500_000, 500_001, 1_500_000, 333_333_333, 999_999_999];
    let millis = [
        0,
        1,
        -1,
        999,
        1_001,
        86_400_000,
        1_785_114_670_000,
        1_785_114_670_123,
        -62_167_219_200_000,
        253_402_300_799_000,
        i64::MAX,
        i64::MIN,
    ];
    for &seconds in &seconds {
        for &nanos in &nanos {
            for &plc_millis in &millis {
                for before_epoch in [false, true] {
                    if before_epoch && seconds == 0 && nanos == 0 {
                        continue;
                    }
                    let receipt = ReceiptTime { before_epoch, seconds, nanos };
                    assert_float_offset(&receipt, plc_millis);
                }
            }
        }
    }
}

#[test]
fn offsets_next_to_half_a_millisecond_are_those_of_double_precision() {
    let mut random: u64 = 0x2545_f491_4f6c_dd1d;
    let mut exact_differs = 0;
    for _ in 0..200_000 {
        random ^= random << 13;
        random ^= random >> 7;
        random ^= random << 17;
        let seconds = 1_785_114_670 + random % 100_000;
        let nanos = (random >> 20) % 1_000 * 1_000_000 + 499_700 + (random >> 40) % 600;
        let plc_millis = 1_785_114_670_000 + ((random >> 8) % 200_000) as i64 * 1_000;
        let receipt = received(seconds, nanos as u32);
        assert_float_offset(&receipt, plc_millis);
        let behind = seconds as i128 * 1_000_000_000 + nanos as i128
            - plc_millis as i128 * 1_000_000;
        let away = if behind < 0 { -500_000 } else { 500_000 };
        let exact = (behind + away) / 1_000_000;
        if exact as f64 / 1000.0 != float_offset(&receipt, plc_millis) {
            exact_differs += 1;
        }
    }
    assert!(exact_differs > 0);
}

#[test]
fn clock_state_tells_both_directions() {
    let spec = topic(TopicKind::Clock, vec![field("PLC_Clock", ValueType::Timestamp)]);
    let payload = "1970-01-01T00:01:40+00:00";
    let behind = normalize_payload(&spec, payload, received(101, 250_400_000)).unwrap();
    assert_eq!(behind.len(), 2);
    assert_eq!(behind["PLC_Clock"], Value::from(payload));
    assert_eq!(behind[CLOCK_OFFSET_FIELD], Value::from(1.25));
    let ahead = normalize_payload(&spec, payload, received(99, 0)).unwrap();
    assert_eq!(ahead[CLOCK_OFFSET_FIELD], Value::from(-1.0));
    let level = normalize_payload(&spec, payload, received(100, 0)).unwrap();
    assert_eq!(level[CLOCK_OFFSET_FIELD], Value::from(0.0));
}

#[test]
fn clock_topic_without_a_plc_clock_is_rejected() {
    let spec = topic(TopicKind::Clock, vec![field("Other", ValueType::Timestamp)]);
    match normalize_payload(&spec, "1970-01-01T00:01:40+00:00", received(0, 0)).unwrap_err() {
        ParsePayloadError::InvalidTimestamp { topic, field, value } => {
            assert_eq!((topic.as_str(), field.as_str(), value.as_str()), (
                "plc/test",
                "PLC_Clock",
                "",
            ));
        }
        other => panic!("{other:?}"),
    }
    let mut other = topic(TopicKind::Ato, vec![field("PLC_Clock", ValueType::Timestamp)]);
    let state = normalize_payload(&other, "1970-01-01T00:01:40+00:00", received(0, 0)).unwrap();
    assert!(!state.contains_key(CLOCK_OFFSET_FIELD));
    other.kind = TopicKind::Clock;
    other.fields[0].value_type = ValueType::Int;
    assert!(normalize_payload(&other, "5", received(0, 0)).is_err());
}

#[test]
fn templates_quote_the_source() {
    assert_eq!(jinja_key("Battery Low Bit"), "\"Battery Low Bit\"");
    assert_eq!(jinja_key("a\"b\\c\n\u{1}\u{1f}\u{7f}\u{e9}"), "\"a\\\"b\\\\c\\n\\u0001\\u001f\u{7f}\u{e9}\"");
    assert_eq!(jinja_key("\u{8}\t\u{c}\r"), "\"\\b\\t\\f\\r\"");
    assert_eq!(plain_template_text("X"), "{{ value_json[\"X\"] }}");
    assert_eq!(on_off_template_text("X"), "{{ 'ON' if value_json[\"X\"] else 'OFF' }}");
    let names = vec![
        ValueName { name: "high".to_string(), value: 10 },
        ValueName { name: "low".to_string(), value: -1 },
        ValueName { name: "mid".to_string(), value: 2 },
    ];
    assert_eq!(
        names_template_text(&names, "X"),
        "{{ {-1: 'low', 2: 'mid', 10: 'high'}.get(value_json[\"X\"] | int) }}"
    );
}

#[test]
fn component_ids_come_from_the_source_unless_given() {
    assert_eq!(component_id("Time_Sync_Error_Count.Counter"), "time_sync_error_count_counter");
    assert_eq!(component_id("AI_CT_DC_Wavemakers:1"), "ai_ct_dc_wavemakers_1");
    assert_eq!(component_id("Battery Low Bit"), "battery_low_bit");
    let mut named = field("DO_Relay_DC_4", ValueType::Bool);
    assert_eq!(field_component_id(&named), "do_relay_dc_4");
    named.discovery.component_id = Some("cabinet_light".to_string());
    assert_eq!(field_component_id(&named), "cabinet_light");
}

#[test]
fn names_and_defaults_are_fixed() {
    assert_eq!(default_discovery_prefix(), "homeassistant");
    assert_eq!(default_log_level(), "info");
    assert!(default_enabled_by_default());
    for (domain, name, takes_commands) in [
        (Domain::BinarySensor, "binary_sensor", false),
        (Domain::Light, "light", true),
        (Domain::Switch, "switch", true),
        (Domain::Select, "select", true),
        (Domain::Number, "number", true),
        (Domain::Sensor, "sensor", false),
    ] {
        assert_eq!(domain.as_str(), name);
        assert_eq!(domain.takes_commands(), takes_commands);
    }
    for (kind, name, title, seconds) in [
        (TopicKind::Di, "di", "DI", 60),
        (TopicKind::Do, "do", "DO", 60),
        (TopicKind::Ai, "ai", "AI", 60),
        (TopicKind::Inputs, "inputs", "Inputs", 60),
        (TopicKind::Alarms, "alarms", "Alarms", 60),
        (TopicKind::Ato, "ato", "ATO", 60),
        (TopicKind::TimeSync, "time_sync", "Time Sync", 60),
        (TopicKind::Gmp40, "gmp40", "GMP40", 60),
        (TopicKind::Clock, "clock", "Clock", 390),
    ] {
        assert_eq!(kind.as_str(), name);
        assert_eq!(kind.display_name(), title);
        assert_eq!(kind.topic_health_expire_after_seconds(), seconds);
    }
}
