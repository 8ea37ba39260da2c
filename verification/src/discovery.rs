//! Home Assistant discovery: one retained record for each entity.

use serde_json::{Map as JsonMap, Value};
use vstd::prelude::*;
use vstd::string::*;

use crate::config::AppOptions;
use crate::json::{
    array_value, bool_value, insert_member, integer_value, json_members, json_quoted, json_tree,
    json_trees, new_object, no_members, object_value, text_value, Json,
};
use crate::layout::{
    component_id_of, derived_component_id, domain_name, field_at, field_component_id, has_field,
    is_controllable, is_valid_field, is_valid_layout, stands_before, Domain, Field, FieldDiscovery,
    Layout, RemovedDiscovery, TopicKind, TopicSpec, ValueType,
};
use crate::normalize::CLOCK_OFFSET_FIELD;
use crate::template::{
    by_value, dictionary_entries, name_pairs, names_template, names_template_text, on_off_template,
    on_off_template_text, plain_template, plain_template_text,
};
use crate::text::{concat3, text_views, uppered};
use crate::{
    APP_NAME, APP_VERSION, AVAILABILITY_TOPIC, CLOCK_TOPIC_HEALTH_EXPIRE_AFTER_SECONDS,
    DEFAULT_TOPIC_HEALTH_EXPIRE_AFTER_SECONDS, DEVICE_ID, DEVICE_NAME, PLC_AVAILABILITY_TOPIC,
};

verus! {

/// Where the project is supported.
pub const SUPPORT_URL: &'static str =
    "https://github.com/ianhattendorf/reef-plc-normalizer/tree/main/reef_plc_normalizer";

/// The name of a topic kind in component ids.
pub open spec fn kind_name(kind: TopicKind) -> Seq<char> {
    match kind {
        TopicKind::Di => "di"@,
        TopicKind::Do => "do"@,
        TopicKind::Ai => "ai"@,
        TopicKind::Inputs => "inputs"@,
        TopicKind::Alarms => "alarms"@,
        TopicKind::Ato => "ato"@,
        TopicKind::TimeSync => "time_sync"@,
        TopicKind::Gmp40 => "gmp40"@,
        TopicKind::Clock => "clock"@,
    }
}

/// The name of a topic kind in entity names.
pub open spec fn kind_title(kind: TopicKind) -> Seq<char> {
    match kind {
        TopicKind::Di => "DI"@,
        TopicKind::Do => "DO"@,
        TopicKind::Ai => "AI"@,
        TopicKind::Inputs => "Inputs"@,
        TopicKind::Alarms => "Alarms"@,
        TopicKind::Ato => "ATO"@,
        TopicKind::TimeSync => "Time Sync"@,
        TopicKind::Gmp40 => "GMP40"@,
        TopicKind::Clock => "Clock"@,
    }
}

/// After how many seconds without an update the entities of a topic become
/// unavailable.
pub open spec fn expiry_seconds(kind: TopicKind) -> u64 {
    if kind == TopicKind::Clock {
        CLOCK_TOPIC_HEALTH_EXPIRE_AFTER_SECONDS
    } else {
        DEFAULT_TOPIC_HEALTH_EXPIRE_AFTER_SECONDS
    }
}

impl TopicKind {
    /// The name of the kind in component ids.
    pub fn as_str(self) -> (name: &'static str)
        ensures
            name@ == kind_name(self),
    {
        match self {
            TopicKind::Di => "di",
            TopicKind::Do => "do",
            TopicKind::Ai => "ai",
            TopicKind::Inputs => "inputs",
            TopicKind::Alarms => "alarms",
            TopicKind::Ato => "ato",
            TopicKind::TimeSync => "time_sync",
            TopicKind::Gmp40 => "gmp40",
            TopicKind::Clock => "clock",
        }
    }

    /// The name of the kind in entity names.
    pub fn display_name(self) -> (name: &'static str)
        ensures
            name@ == kind_title(self),
    {
        match self {
            TopicKind::Di => "DI",
            TopicKind::Do => "DO",
            TopicKind::Ai => "AI",
            TopicKind::Inputs => "Inputs",
            TopicKind::Alarms => "Alarms",
            TopicKind::Ato => "ATO",
            TopicKind::TimeSync => "Time Sync",
            TopicKind::Gmp40 => "GMP40",
            TopicKind::Clock => "Clock",
        }
    }

    /// After how many seconds without an update the entities of the topic
    /// become unavailable.
    pub fn topic_health_expire_after_seconds(self) -> (seconds: u64)
        ensures
            seconds == expiry_seconds(self),
    {
        match self {
            TopicKind::Clock => CLOCK_TOPIC_HEALTH_EXPIRE_AFTER_SECONDS,
            _ => DEFAULT_TOPIC_HEALTH_EXPIRE_AFTER_SECONDS,
        }
    }
}

/// A string member.
pub open spec fn with_text(members: Map<Seq<char>, Json>, key: Seq<char>, text: Seq<char>) -> Map<
    Seq<char>,
    Json,
> {
    members.insert(key, Json::Text(text))
}

/// A string member, where there is a text for it.
pub open spec fn with_optional_text(
    members: Map<Seq<char>, Json>,
    key: Seq<char>,
    text: Option<String>,
) -> Map<Seq<char>, Json> {
    match text {
        Some(text) => with_text(members, key, text@),
        None => members,
    }
}

/// An integer member, where there is a number for it.
pub open spec fn with_optional_integer(
    members: Map<Seq<char>, Json>,
    key: Seq<char>,
    number: Option<i64>,
) -> Map<Seq<char>, Json> {
    match number {
        Some(number) => members.insert(key, Json::Integer(number as int)),
        None => members,
    }
}

/// The device that all entities belong to.
pub open spec fn device_record() -> Json {
    let members = no_members().insert(
        "identifiers"@,
        Json::Array(seq![Json::Text(DEVICE_ID@)]),
    );
    let members = with_text(members, "name"@, DEVICE_NAME@);
    let members = with_text(members, "manufacturer"@, "AutomationDirect"@);
    Json::Object(with_text(members, "model"@, "P1-550"@))
}

/// The app that presents the entities.
pub open spec fn origin_record() -> Json {
    let members = with_text(no_members(), "name"@, APP_NAME@);
    let members = with_text(members, "sw_version"@, APP_VERSION@);
    Json::Object(with_text(members, "support_url"@, SUPPORT_URL@))
}

/// One status topic that an entity depends on.
pub open spec fn status_record(topic: Seq<char>) -> Json {
    let members = with_text(no_members(), "topic"@, topic);
    let members = with_text(members, "payload_available"@, "online"@);
    Json::Object(with_text(members, "payload_not_available"@, "offline"@))
}

/// The status topics of the PLC and of the normalizer.
pub open spec fn both_statuses() -> Json {
    Json::Array(seq![status_record(PLC_AVAILABILITY_TOPIC@), status_record(AVAILABILITY_TOPIC@)])
}

/// A record of an entity that is available only while both the PLC and the
/// normalizer are online.
pub open spec fn with_combined_availability(members: Map<Seq<char>, Json>) -> Map<
    Seq<char>,
    Json,
> {
    with_text(members.insert("availability"@, both_statuses()), "availability_mode"@, "all"@)
}

/// A record with the device and the app.
pub open spec fn with_device_and_origin(members: Map<Seq<char>, Json>) -> Map<Seq<char>, Json> {
    members.insert("device"@, device_record()).insert("origin"@, origin_record())
}

/// The unique id of an entity.
pub open spec fn unique_id(component_id: Seq<char>) -> Seq<char> {
    DEVICE_ID@ + "_"@ + component_id
}

/// The topic of a discovery record.
pub open spec fn config_topic(prefix: Seq<char>, domain: Seq<char>, object_id: Seq<char>) -> Seq<
    char,
> {
    prefix + "/"@ + domain + "/"@ + object_id + "/config"@
}

fn insert_text(object: &mut JsonMap<String, Value>, key: &str, text: &str)
    ensures
        json_members(*final(object)) == with_text(json_members(*old(object)), key@, text@),
{
    insert_member(object, key, text_value(text.to_owned()));
}

fn insert_optional_text(object: &mut JsonMap<String, Value>, key: &str, text: &Option<String>)
    ensures
        json_members(*final(object)) == with_optional_text(
            json_members(*old(object)),
            key@,
            *text,
        ),
{
    if let Some(text) = text {
        insert_text(object, key, text.as_str());
    }
}

fn insert_optional_integer(object: &mut JsonMap<String, Value>, key: &str, number: Option<i64>)
    ensures
        json_members(*final(object)) == with_optional_integer(
            json_members(*old(object)),
            key@,
            number,
        ),
{
    if let Some(number) = number {
        insert_member(object, key, integer_value(number));
    }
}

/// Makes the record of the device.
pub fn device_payload() -> (device: Value)
    ensures
        json_tree(device) == device_record(),
{
    let mut ids: Vec<Value> = Vec::new();
    ids.push(text_value(DEVICE_ID.to_owned()));
    assert(json_trees(ids@) =~= seq![Json::Text(DEVICE_ID@)]);
    let mut device = new_object();
    insert_member(&mut device, "identifiers", array_value(ids));
    insert_text(&mut device, "name", DEVICE_NAME);
    insert_text(&mut device, "manufacturer", "AutomationDirect");
    insert_text(&mut device, "model", "P1-550");
    object_value(device)
}

/// Makes the record of the app.
pub fn origin_payload() -> (origin: Value)
    ensures
        json_tree(origin) == origin_record(),
{
    let mut origin = new_object();
    insert_text(&mut origin, "name", APP_NAME);
    insert_text(&mut origin, "sw_version", APP_VERSION);
    insert_text(&mut origin, "support_url", SUPPORT_URL);
    object_value(origin)
}

fn status_payload(topic: &str) -> (status: Value)
    ensures
        json_tree(status) == status_record(topic@),
{
    let mut status = new_object();
    insert_text(&mut status, "topic", topic);
    insert_text(&mut status, "payload_available", "online");
    insert_text(&mut status, "payload_not_available", "offline");
    object_value(status)
}

/// Makes an entity depend on both the PLC and the normalizer.
pub fn insert_combined_availability(component: &mut JsonMap<String, Value>)
    ensures
        json_members(*final(component)) == with_combined_availability(
            json_members(*old(component)),
        ),
{
    let mut statuses: Vec<Value> = Vec::new();
    statuses.push(status_payload(PLC_AVAILABILITY_TOPIC));
    statuses.push(status_payload(AVAILABILITY_TOPIC));
    assert(json_trees(statuses@) =~= seq![
        status_record(PLC_AVAILABILITY_TOPIC@),
        status_record(AVAILABILITY_TOPIC@),
    ]);
    insert_member(component, "availability", array_value(statuses));
    insert_text(component, "availability_mode", "all");
}

fn insert_device_and_origin(component: &mut JsonMap<String, Value>)
    ensures
        json_members(*final(component)) == with_device_and_origin(json_members(*old(component))),
{
    insert_member(component, "device", device_payload());
    insert_member(component, "origin", origin_payload());
}

fn unique_id_text(component_id: &str) -> (id: String)
    ensures
        id@ == unique_id(component_id@),
{
    concat3(DEVICE_ID, "_", component_id)
}

fn config_topic_text(prefix: &str, domain: &str, object_id: &str) -> (topic: String)
    ensures
        topic@ == config_topic(prefix@, domain@, object_id@),
{
    let mut topic = concat3(prefix, "/", domain);
    topic.append("/");
    topic.append(object_id);
    topic.append("/config");
    topic
}

/// The record of the PLC's own connectivity, which depends on the normalizer
/// alone.
pub open spec fn connectivity_record() -> Map<Seq<char>, Json> {
    let members = with_text(no_members(), "unique_id"@, unique_id("mqtt_connected"@));
    let members = with_text(members, "name"@, "MQTT Connected"@);
    let members = with_text(members, "state_topic"@, PLC_AVAILABILITY_TOPIC@);
    let members = with_text(members, "payload_on"@, "online"@);
    let members = with_text(members, "payload_off"@, "offline"@);
    let members = with_text(members, "availability_topic"@, AVAILABILITY_TOPIC@);
    let members = with_text(members, "payload_available"@, "online"@);
    let members = with_text(members, "payload_not_available"@, "offline"@);
    let members = with_text(members, "device_class"@, "connectivity"@);
    let members = with_text(members, "entity_category"@, "diagnostic"@);
    with_device_and_origin(members)
}

/// The record of the clock offset.
pub open spec fn clock_offset_record(spec: TopicSpec) -> Map<Seq<char>, Json> {
    let members = with_text(no_members(), "unique_id"@, unique_id("clock_offset_seconds"@));
    let members = with_text(members, "name"@, "Clock Offset"@);
    let members = with_text(members, "state_topic"@, spec.state_topic@);
    let members = with_text(members, "value_template"@, plain_template(CLOCK_OFFSET_FIELD@));
    let members = with_text(members, "unit_of_measurement"@, "s"@);
    let members = with_text(members, "state_class"@, "measurement"@);
    let members = members.insert("suggested_display_precision"@, Json::Integer(1));
    let members = members.insert("expire_after"@, Json::Integer(expiry_seconds(spec.kind) as int));
    let members = with_text(members, "entity_category"@, "diagnostic"@);
    with_combined_availability(with_device_and_origin(members))
}

/// The component id of a topic's health.
pub open spec fn health_id(kind: TopicKind) -> Seq<char> {
    kind_name(kind) + "_topic_online"@
}

/// The record of a topic's health: on with every state, unavailable once the
/// states stop.
pub open spec fn topic_health_record(spec: TopicSpec) -> Map<Seq<char>, Json> {
    let members = with_text(no_members(), "unique_id"@, unique_id(health_id(spec.kind)));
    let members = with_text(members, "name"@, kind_title(spec.kind) + " Topic Online"@);
    let members = with_text(members, "state_topic"@, spec.state_topic@);
    let members = with_text(members, "value_template"@, "ON"@);
    let members = with_text(members, "payload_on"@, "ON"@);
    let members = members.insert("expire_after"@, Json::Integer(expiry_seconds(spec.kind) as int));
    let members = with_text(members, "device_class"@, "connectivity"@);
    let members = with_text(members, "entity_category"@, "diagnostic"@);
    with_combined_availability(with_device_and_origin(members))
}

/// How the state of a field is read.
pub open spec fn with_state_template(members: Map<Seq<char>, Json>, field: Field) -> Map<
    Seq<char>,
    Json,
> {
    if field.value_type == ValueType::Bool {
        let key = if field.discovery.domain == Domain::Light {
            "state_value_template"@
        } else {
            "value_template"@
        };
        let members = with_text(members, key, on_off_template(field.source@));
        with_text(with_text(members, "payload_on"@, "ON"@), "payload_off"@, "OFF"@)
    } else {
        match field.discovery.value_map {
            Some(names) => with_text(
                members,
                "value_template"@,
                names_template(names@, field.source@),
            ),
            None => with_text(members, "value_template"@, plain_template(field.source@)),
        }
    }
}

/// The options of a select entity.
pub open spec fn options_record(options: Seq<String>) -> Json {
    Json::Array(options.map_values(|option: String| Json::Text(option@)))
}

/// How a field is commanded. A light shows a requested state at once; every
/// other control waits for the confirmed one.
pub open spec fn with_controls(members: Map<Seq<char>, Json>, discovery: FieldDiscovery) -> Map<
    Seq<char>,
    Json,
> {
    let topic = discovery.command_topic;
    match discovery.domain {
        Domain::Light => with_optional_text(members, "command_topic"@, topic).insert(
            "optimistic"@,
            Json::Bool(true),
        ).insert("qos"@, Json::Integer(1)).insert("retain"@, Json::Bool(false)),
        Domain::Switch => with_optional_text(members, "command_topic"@, topic).insert(
            "optimistic"@,
            Json::Bool(false),
        ),
        Domain::Select => {
            let members = with_optional_text(members, "command_topic"@, topic).insert(
                "optimistic"@,
                Json::Bool(false),
            );
            match discovery.options {
                Some(options) => members.insert("options"@, options_record(options@)),
                None => members,
            }
        },
        Domain::Number => {
            let members = with_optional_text(members, "command_topic"@, topic).insert(
                "optimistic"@,
                Json::Bool(false),
            );
            with_optional_integer(
                with_optional_integer(members, "min"@, discovery.min),
                "max"@,
                discovery.max,
            )
        },
        Domain::BinarySensor | Domain::Sensor => members,
    }
}

/// What the layout says of how a field is shown.
pub open spec fn with_presentation(members: Map<Seq<char>, Json>, discovery: FieldDiscovery) -> Map<
    Seq<char>,
    Json,
> {
    let members = with_optional_text(members, "default_entity_id"@, discovery.default_entity_id);
    let members = with_optional_text(
        members,
        "unit_of_measurement"@,
        discovery.unit_of_measurement,
    );
    let members = with_optional_text(members, "device_class"@, discovery.device_class);
    let members = with_optional_text(members, "state_class"@, discovery.state_class);
    let members = match discovery.suggested_display_precision {
        Some(precision) => members.insert(
            "suggested_display_precision"@,
            Json::Integer(precision as int),
        ),
        None => members,
    };
    let members = with_optional_text(members, "entity_category"@, discovery.entity_category);
    if discovery.enabled_by_default {
        members
    } else {
        members.insert("enabled_by_default"@, Json::Bool(false))
    }
}

/// The record of a field.
pub open spec fn field_record(spec: TopicSpec, field: Field) -> Map<Seq<char>, Json> {
    let members = with_text(no_members(), "unique_id"@, unique_id(component_id_of(field)));
    let members = with_text(members, "name"@, field.discovery.name@);
    let members = with_text(members, "state_topic"@, spec.state_topic@);
    let members = with_combined_availability(members);
    let members = if field.discovery.domain == Domain::Light {
        members
    } else {
        members.insert("expire_after"@, Json::Integer(expiry_seconds(spec.kind) as int))
    };
    let members = with_state_template(members, field);
    let members = with_controls(members, field.discovery);
    let members = with_presentation(members, field.discovery);
    with_device_and_origin(members)
}

fn insert_expiry(component: &mut JsonMap<String, Value>, kind: TopicKind)
    ensures
        json_members(*final(component)) == json_members(*old(component)).insert(
            "expire_after"@,
            Json::Integer(expiry_seconds(kind) as int),
        ),
{
    let seconds = kind.topic_health_expire_after_seconds();
    insert_member(component, "expire_after", integer_value(seconds as i64));
}

fn connectivity_payload() -> (payload: JsonMap<String, Value>)
    ensures
        json_members(payload) == connectivity_record(),
{
    let mut payload = new_object();
    insert_text(&mut payload, "unique_id", unique_id_text("mqtt_connected").as_str());
    insert_text(&mut payload, "name", "MQTT Connected");
    insert_text(&mut payload, "state_topic", PLC_AVAILABILITY_TOPIC);
    insert_text(&mut payload, "payload_on", "online");
    insert_text(&mut payload, "payload_off", "offline");
    insert_text(&mut payload, "availability_topic", AVAILABILITY_TOPIC);
    insert_text(&mut payload, "payload_available", "online");
    insert_text(&mut payload, "payload_not_available", "offline");
    insert_text(&mut payload, "device_class", "connectivity");
    insert_text(&mut payload, "entity_category", "diagnostic");
    insert_device_and_origin(&mut payload);
    payload
}

fn clock_offset_payload(spec: &TopicSpec) -> (payload: JsonMap<String, Value>)
    ensures
        json_members(payload) == clock_offset_record(*spec),
{
    let mut payload = new_object();
    insert_text(&mut payload, "unique_id", unique_id_text("clock_offset_seconds").as_str());
    insert_text(&mut payload, "name", "Clock Offset");
    insert_text(&mut payload, "state_topic", spec.state_topic.as_str());
    insert_text(&mut payload, "value_template", plain_template_text(CLOCK_OFFSET_FIELD).as_str());
    insert_text(&mut payload, "unit_of_measurement", "s");
    insert_text(&mut payload, "state_class", "measurement");
    insert_member(&mut payload, "suggested_display_precision", integer_value(1));
    insert_expiry(&mut payload, spec.kind);
    insert_text(&mut payload, "entity_category", "diagnostic");
    insert_device_and_origin(&mut payload);
    insert_combined_availability(&mut payload);
    payload
}

fn topic_health_payload(spec: &TopicSpec, component_id: &str) -> (payload: JsonMap<String, Value>)
    requires
        component_id@ == health_id(spec.kind),
    ensures
        json_members(payload) == topic_health_record(*spec),
{
    let mut payload = new_object();
    insert_text(&mut payload, "unique_id", unique_id_text(component_id).as_str());
    let name = spec.kind.display_name().to_owned().concat(" Topic Online");
    insert_text(&mut payload, "name", name.as_str());
    insert_text(&mut payload, "state_topic", spec.state_topic.as_str());
    insert_text(&mut payload, "value_template", "ON");
    insert_text(&mut payload, "payload_on", "ON");
    insert_expiry(&mut payload, spec.kind);
    insert_text(&mut payload, "device_class", "connectivity");
    insert_text(&mut payload, "entity_category", "diagnostic");
    insert_device_and_origin(&mut payload);
    insert_combined_availability(&mut payload);
    payload
}

fn insert_state_template(component: &mut JsonMap<String, Value>, field: &Field)
    ensures
        json_members(*final(component)) == with_state_template(
            json_members(*old(component)),
            *field,
        ),
{
    let source = field.source.as_str();
    match field.value_type {
        ValueType::Bool => {
            let key = if field.discovery.domain == Domain::Light {
                "state_value_template"
            } else {
                "value_template"
            };
            insert_text(component, key, on_off_template_text(source).as_str());
            insert_text(component, "payload_on", "ON");
            insert_text(component, "payload_off", "OFF");
        },
        ValueType::Float | ValueType::Int | ValueType::Timestamp => {
            let template = match &field.discovery.value_map {
                Some(names) => names_template_text(names, source),
                None => plain_template_text(source),
            };
            insert_text(component, "value_template", template.as_str());
        },
    }
}

fn options_payload(options: &Vec<String>) -> (payload: Value)
    ensures
        json_tree(payload) == options_record(options@),
{
    let mut items: Vec<Value> = Vec::new();
    let mut i: usize = 0;
    while i < options.len()
        invariant
            i <= options@.len(),
            items@.len() == i,
            forall|j: int|
                0 <= j < i ==> json_tree(#[trigger] items@[j]) == Json::Text(options@[j]@),
        decreases options@.len() - i,
    {
        items.push(text_value(options[i].clone()));
        i += 1;
    }
    assert(json_trees(items@) =~= options@.map_values(|option: String| Json::Text(option@)));
    array_value(items)
}

fn insert_controls(component: &mut JsonMap<String, Value>, discovery: &FieldDiscovery)
    ensures
        json_members(*final(component)) == with_controls(
            json_members(*old(component)),
            *discovery,
        ),
{
    if !discovery.domain.takes_commands() {
        return;
    }
    insert_optional_text(component, "command_topic", &discovery.command_topic);
    insert_member(component, "optimistic", bool_value(discovery.domain == Domain::Light));
    match discovery.domain {
        Domain::Light => {
            insert_member(component, "qos", integer_value(1));
            insert_member(component, "retain", bool_value(false));
        },
        Domain::Select => {
            if let Some(options) = &discovery.options {
                insert_member(component, "options", options_payload(options));
            }
        },
        Domain::Number => {
            insert_optional_integer(component, "min", discovery.min);
            insert_optional_integer(component, "max", discovery.max);
        },
        _ => {},
    }
}

fn insert_presentation(component: &mut JsonMap<String, Value>, discovery: &FieldDiscovery)
    ensures
        json_members(*final(component)) == with_presentation(
            json_members(*old(component)),
            *discovery,
        ),
{
    insert_optional_text(component, "default_entity_id", &discovery.default_entity_id);
    insert_optional_text(component, "unit_of_measurement", &discovery.unit_of_measurement);
    insert_optional_text(component, "device_class", &discovery.device_class);
    insert_optional_text(component, "state_class", &discovery.state_class);
    if let Some(precision) = discovery.suggested_display_precision {
        insert_member(component, "suggested_display_precision", integer_value(precision as i64));
    }
    insert_optional_text(component, "entity_category", &discovery.entity_category);
    if !discovery.enabled_by_default {
        insert_member(component, "enabled_by_default", bool_value(false));
    }
}

fn field_payload(spec: &TopicSpec, field: &Field) -> (component: JsonMap<String, Value>)
    ensures
        json_members(component) == field_record(*spec, *field),
{
    let component_id = field_component_id(field);
    let mut component = new_object();
    insert_text(&mut component, "unique_id", unique_id_text(component_id.as_str()).as_str());
    insert_text(&mut component, "name", field.discovery.name.as_str());
    insert_text(&mut component, "state_topic", spec.state_topic.as_str());
    insert_combined_availability(&mut component);
    if field.discovery.domain != Domain::Light {
        insert_expiry(&mut component, spec.kind);
    }
    insert_state_template(&mut component, field);
    insert_controls(&mut component, &field.discovery);
    insert_presentation(&mut component, &field.discovery);
    insert_device_and_origin(&mut component);
    component
}

/// A discovery message: the topic and the record.
pub open spec fn message_view(message: (String, Value)) -> (Seq<char>, Json) {
    (message.0@, json_tree(message.1))
}

/// Discovery messages as mathematical values.
pub open spec fn message_views(messages: Seq<(String, Value)>) -> Seq<(Seq<char>, Json)> {
    messages.map_values(|message: (String, Value)| message_view(message))
}

/// The discovery message of an entity.
pub open spec fn entity_message(
    prefix: Seq<char>,
    domain: Domain,
    component_id: Seq<char>,
    record: Map<Seq<char>, Json>,
) -> (Seq<char>, Json) {
    (config_topic(prefix, domain_name(domain), unique_id(component_id)), Json::Object(record))
}

/// The discovery message of the PLC's connectivity.
pub open spec fn connectivity_message(prefix: Seq<char>) -> (Seq<char>, Json) {
    entity_message(prefix, Domain::BinarySensor, "mqtt_connected"@, connectivity_record())
}

/// The discovery message of the clock offset.
pub open spec fn clock_offset_message(prefix: Seq<char>, spec: TopicSpec) -> (Seq<char>, Json) {
    entity_message(prefix, Domain::Sensor, "clock_offset_seconds"@, clock_offset_record(spec))
}

/// The discovery message of a topic's health.
pub open spec fn topic_health_message(prefix: Seq<char>, spec: TopicSpec) -> (Seq<char>, Json) {
    entity_message(prefix, Domain::BinarySensor, health_id(spec.kind), topic_health_record(spec))
}

/// The discovery message of a field.
pub open spec fn field_message(prefix: Seq<char>, spec: TopicSpec, field: Field) -> (
    Seq<char>,
    Json,
) {
    entity_message(
        prefix,
        field.discovery.domain,
        component_id_of(field),
        field_record(spec, field),
    )
}

/// Whether the fields of a topic are discovered: raw analog inputs only where
/// the options ask for them.
pub open spec fn shows_fields(options: AppOptions, spec: TopicSpec) -> bool {
    spec.kind == TopicKind::Ai ==> options.publish_diagnostic_ai
}

/// The discovery messages of the first `n` fields of a topic.
pub open spec fn field_messages(prefix: Seq<char>, spec: TopicSpec, n: int) -> Seq<
    (Seq<char>, Json),
> {
    Seq::new(n as nat, |f: int| field_message(prefix, spec, spec.fields@[f]))
}

/// The discovery messages of a topic itself: its health and, for the clock, the
/// offset.
pub open spec fn heading_messages(prefix: Seq<char>, spec: TopicSpec) -> Seq<(Seq<char>, Json)> {
    if spec.kind == TopicKind::Clock {
        seq![topic_health_message(prefix, spec), clock_offset_message(prefix, spec)]
    } else {
        seq![topic_health_message(prefix, spec)]
    }
}

/// The discovery messages of a topic: its own, then those of the fields that
/// are shown.
pub open spec fn topic_messages(options: AppOptions, spec: TopicSpec) -> Seq<(Seq<char>, Json)> {
    let prefix = options.discovery_prefix@;
    if shows_fields(options, spec) {
        heading_messages(prefix, spec) + field_messages(
            prefix,
            spec,
            spec.fields@.len() as int,
        )
    } else {
        heading_messages(prefix, spec)
    }
}

/// The discovery messages of the PLC and of the first `n` topics.
pub open spec fn messages_of(options: AppOptions, layout: Layout, n: int) -> Seq<(Seq<char>, Json)>
    decreases n,
{
    if n <= 0 {
        seq![connectivity_message(options.discovery_prefix@)]
    } else {
        messages_of(options, layout, n - 1) + topic_messages(options, layout.topics@[n - 1])
    }
}

/// All discovery messages, in the order in which they are published.
pub open spec fn all_messages(options: AppOptions, layout: Layout) -> Seq<(Seq<char>, Json)> {
    messages_of(options, layout, layout.topics@.len() as int)
}

/// Whether every light that is shown can be switched.
pub open spec fn lights_have_commands(options: AppOptions, layout: Layout) -> bool {
    forall|t: int, f: int| #[trigger]
        has_field(layout, t, f) && shows_fields(options, layout.topics@[t]) && field_at(
            layout,
            t,
            f,
        ).discovery.domain == Domain::Light ==> field_at(
            layout,
            t,
            f,
        ).discovery.command_topic is Some
}

/// The topic of a discovery record to remove.
pub open spec fn removed_topic(prefix: Seq<char>, removed: RemovedDiscovery) -> Seq<char> {
    config_topic(prefix, domain_name(removed.domain), removed.object_id@)
}

/// The topics of the discovery records to remove.
pub open spec fn removed_topics(options: AppOptions, layout: Layout) -> Seq<Seq<char>> {
    layout.removed_discovery@.map_values(
        |removed: RemovedDiscovery| removed_topic(options.discovery_prefix@, removed),
    )
}

/// Lists the topics whose retained discovery records are to be removed.
pub fn removed_discovery_topics(options: &AppOptions, layout: &Layout) -> (topics: Vec<String>)
    ensures
        text_views(topics@) == removed_topics(*options, *layout),
{
    let mut topics: Vec<String> = Vec::new();
    let mut i: usize = 0;
    while i < layout.removed_discovery.len()
        invariant
            i <= layout.removed_discovery@.len(),
            topics@.len() == i,
            forall|j: int|
                0 <= j < i ==> (#[trigger] topics@[j])@ == removed_topic(
                    options.discovery_prefix@,
                    layout.removed_discovery@[j],
                ),
        decreases layout.removed_discovery@.len() - i,
    {
        let removed = &layout.removed_discovery[i];
        topics.push(
            config_topic_text(
                options.discovery_prefix.as_str(),
                removed.domain.as_str(),
                removed.object_id.as_str(),
            ),
        );
        i += 1;
    }
    assert(text_views(topics@) =~= removed_topics(*options, *layout));
    topics
}

fn entity_discovery_message(
    options: &AppOptions,
    domain: Domain,
    component_id: &str,
    payload: JsonMap<String, Value>,
) -> (message: (String, Value))
    ensures
        message_view(message) == entity_message(
            options.discovery_prefix@,
            domain,
            component_id@,
            json_members(payload),
        ),
{
    let topic = config_topic_text(
        options.discovery_prefix.as_str(),
        domain.as_str(),
        unique_id_text(component_id).as_str(),
    );
    (topic, object_value(payload))
}

/// Makes the discovery message of the PLC's connectivity.
pub fn plc_mqtt_connected_discovery_message(options: &AppOptions) -> (message: (String, Value))
    ensures
        message_view(message) == connectivity_message(options.discovery_prefix@),
{
    let payload = connectivity_payload();
    entity_discovery_message(options, Domain::BinarySensor, "mqtt_connected", payload)
}

/// Makes the discovery message of the clock offset.
pub fn clock_offset_discovery_message(options: &AppOptions, spec: &TopicSpec) -> (message: (
    String,
    Value,
))
    ensures
        message_view(message) == clock_offset_message(options.discovery_prefix@, *spec),
{
    let payload = clock_offset_payload(spec);
    entity_discovery_message(options, Domain::Sensor, "clock_offset_seconds", payload)
}

/// Makes the discovery message of a topic's health.
pub fn topic_health_discovery_message(options: &AppOptions, spec: &TopicSpec) -> (message: (
    String,
    Value,
))
    ensures
        message_view(message) == topic_health_message(options.discovery_prefix@, *spec),
{
    let component_id = spec.kind.as_str().to_owned().concat("_topic_online");
    let payload = topic_health_payload(spec, component_id.as_str());
    entity_discovery_message(options, Domain::BinarySensor, component_id.as_str(), payload)
}

fn field_discovery_message(options: &AppOptions, spec: &TopicSpec, field: &Field) -> (message: (
    String,
    Value,
))
    ensures
        message_view(message) == field_message(options.discovery_prefix@, *spec, *field),
{
    let component_id = field_component_id(field);
    let payload = field_payload(spec, field);
    entity_discovery_message(options, field.discovery.domain, component_id.as_str(), payload)
}

fn push_message(messages: &mut Vec<(String, Value)>, message: (String, Value))
    ensures
        message_views(final(messages)@) == message_views(old(messages)@).push(
            message_view(message),
        ),
{
    messages.push(message);
    assert(message_views(messages@) =~= message_views(old(messages)@).push(message_view(message)));
}

fn push_topic_messages(messages: &mut Vec<(String, Value)>, options: &AppOptions, spec: &TopicSpec)
    ensures
        message_views(final(messages)@) == message_views(old(messages)@) + topic_messages(
            *options,
            *spec,
        ),
{
    let ghost prefix = options.discovery_prefix@;
    let ghost before = message_views(messages@);
    push_message(messages, topic_health_discovery_message(options, spec));
    if spec.kind == TopicKind::Clock {
        push_message(messages, clock_offset_discovery_message(options, spec));
    }
    let ghost headed = before + heading_messages(prefix, *spec);
    assert(message_views(messages@) =~= headed);
    if spec.kind == TopicKind::Ai && !options.publish_diagnostic_ai {
        return;
    }
    let mut f: usize = 0;
    assert(headed + field_messages(prefix, *spec, 0) =~= headed);
    while f < spec.fields.len()
        invariant
            f <= spec.fields@.len(),
            prefix == options.discovery_prefix@,
            message_views(messages@) == headed + field_messages(prefix, *spec, f as int),
        decreases spec.fields@.len() - f,
    {
        push_message(messages, field_discovery_message(options, spec, &spec.fields[f]));
        f += 1;
        assert(message_views(messages@) =~= headed + field_messages(prefix, *spec, f as int));
    }
    assert(message_views(messages@) =~= before + topic_messages(*options, *spec));
}

/// Makes all discovery messages: the PLC's connectivity, then for each topic
/// its health, the clock offset and its fields.
pub fn discovery_messages(options: &AppOptions, layout: &Layout) -> (messages: Vec<
    (String, Value),
>)
    requires
        lights_have_commands(*options, *layout),
    ensures
        message_views(messages@) == all_messages(*options, *layout),
{
    let mut messages: Vec<(String, Value)> = Vec::new();
    push_message(&mut messages, plc_mqtt_connected_discovery_message(options));
    assert(message_views(messages@) =~= messages_of(*options, *layout, 0));
    let mut t: usize = 0;
    while t < layout.topics.len()
        invariant
            t <= layout.topics@.len(),
            message_views(messages@) == messages_of(*options, *layout, t as int),
        decreases layout.topics@.len() - t,
    {
        push_topic_messages(&mut messages, options, &layout.topics[t]);
        t += 1;
    }
    messages
}

/// Every light of a layout that passed validation can be switched, so its
/// entities can be announced.
pub proof fn valid_layouts_can_be_announced(options: AppOptions, layout: Layout)
    requires
        is_valid_layout(layout),
    ensures
        lights_have_commands(options, layout),
{
}

proof fn lemma_messages_of_grow(options: AppOptions, layout: Layout, n: int, end: int, i: int)
    requires
        0 <= n <= end,
        0 <= i < messages_of(options, layout, n).len(),
    ensures
        i < messages_of(options, layout, end).len(),
        messages_of(options, layout, end)[i] == messages_of(options, layout, n)[i],
    decreases end - n,
{
    if n < end {
        lemma_messages_of_grow(options, layout, n, end - 1, i);
    }
}

/// Every topic announces its health, shown or not, and every field of a topic
/// that is shown is announced.
pub proof fn every_entity_is_announced(options: AppOptions, layout: Layout, t: int)
    requires
        0 <= t < layout.topics@.len(),
    ensures
        all_messages(options, layout).contains(
            topic_health_message(options.discovery_prefix@, layout.topics@[t]),
        ),
        layout.topics@[t].kind == TopicKind::Clock ==> all_messages(options, layout).contains(
            clock_offset_message(options.discovery_prefix@, layout.topics@[t]),
        ),
        shows_fields(options, layout.topics@[t]) ==> forall|f: int|
            0 <= f < layout.topics@[t].fields@.len() ==> all_messages(options, layout).contains(
                #[trigger] field_message(
                    options.discovery_prefix@,
                    layout.topics@[t],
                    layout.topics@[t].fields@[f],
                ),
            ),
{
    let spec = layout.topics@[t];
    let prefix = options.discovery_prefix@;
    let before = messages_of(options, layout, t);
    let with = messages_of(options, layout, t + 1);
    let end = layout.topics@.len() as int;
    assert(with == before + topic_messages(options, spec));
    let start = before.len() as int;
    assert(with[start] == topic_health_message(prefix, spec));
    lemma_messages_of_grow(options, layout, t + 1, end, start);
    if spec.kind == TopicKind::Clock {
        assert(with[start + 1] == clock_offset_message(prefix, spec));
        lemma_messages_of_grow(options, layout, t + 1, end, start + 1);
    }
    if shows_fields(options, spec) {
        assert forall|f: int| 0 <= f < spec.fields@.len() implies all_messages(
            options,
            layout,
        ).contains(#[trigger] field_message(prefix, spec, spec.fields@[f])) by {
            let place = start + heading_messages(prefix, spec).len() + f;
            assert(with[place] == field_message(prefix, spec, spec.fields@[f]));
            lemma_messages_of_grow(options, layout, t + 1, end, place);
        }
    }
}

/// Unless the options ask for raw analog inputs, their topic announces its
/// health and nothing else.
pub proof fn analog_inputs_are_left_out_by_default(options: AppOptions, spec: TopicSpec)
    requires
        spec.kind == TopicKind::Ai,
        !options.publish_diagnostic_ai,
    ensures
        topic_messages(options, spec) == seq![
            topic_health_message(options.discovery_prefix@, spec),
        ],
{
}

/// What tells the keys of a record apart: how long each is, and how it starts.
proof fn lemma_key_literals()
    ensures
        "availability"@.len() == 12 && "availability"@[0] == 'a',
        "availability_mode"@.len() == 17 && "availability_mode"@[0] == 'a',
        "availability_topic"@.len() == 18 && "availability_topic"@[0] == 'a',
        "expire_after"@.len() == 12 && "expire_after"@[0] == 'e',
        "unique_id"@.len() == 9 && "unique_id"@[0] == 'u',
        "name"@.len() == 4 && "name"@[0] == 'n',
        "state_topic"@.len() == 11 && "state_topic"@[0] == 's',
        "value_template"@.len() == 14 && "value_template"@[0] == 'v',
        "state_value_template"@.len() == 20 && "state_value_template"@[0] == 's',
        "payload_on"@.len() == 10 && "payload_on"@[0] == 'p',
        "payload_off"@.len() == 11 && "payload_off"@[0] == 'p',
        "payload_available"@.len() == 17 && "payload_available"@[0] == 'p',
        "payload_not_available"@.len() == 21 && "payload_not_available"@[0] == 'p',
        "command_topic"@.len() == 13 && "command_topic"@[0] == 'c',
        "optimistic"@.len() == 10 && "optimistic"@[0] == 'o',
        "qos"@.len() == 3 && "qos"@[0] == 'q',
        "retain"@.len() == 6 && "retain"@[0] == 'r',
        "options"@.len() == 7 && "options"@[0] == 'o',
        "min"@.len() == 3 && "min"@[0] == 'm',
        "max"@.len() == 3 && "max"@[0] == 'm',
        "default_entity_id"@.len() == 17 && "default_entity_id"@[0] == 'd',
        "unit_of_measurement"@.len() == 19 && "unit_of_measurement"@[0] == 'u',
        "device_class"@.len() == 12 && "device_class"@[0] == 'd',
        "state_class"@.len() == 11 && "state_class"@[0] == 's',
        "suggested_display_precision"@.len() == 27 && "suggested_display_precision"@[0] == 's',
        "entity_category"@.len() == 15 && "entity_category"@[0] == 'e',
        "enabled_by_default"@.len() == 18 && "enabled_by_default"@[0] == 'e',
        "device"@.len() == 6 && "device"@[0] == 'd',
        "origin"@.len() == 6 && "origin"@[0] == 'o',
        "state_topic"@[6] == 't' && "state_class"@[6] == 'c',
{
    reveal_strlit("availability");
    reveal_strlit("availability_mode");
    reveal_strlit("availability_topic");
    reveal_strlit("expire_after");
    reveal_strlit("unique_id");
    reveal_strlit("name");
    reveal_strlit("state_topic");
    reveal_strlit("value_template");
    reveal_strlit("state_value_template");
    reveal_strlit("payload_on");
    reveal_strlit("payload_off");
    reveal_strlit("payload_available");
    reveal_strlit("payload_not_available");
    reveal_strlit("command_topic");
    reveal_strlit("optimistic");
    reveal_strlit("qos");
    reveal_strlit("retain");
    reveal_strlit("options");
    reveal_strlit("min");
    reveal_strlit("max");
    reveal_strlit("default_entity_id");
    reveal_strlit("unit_of_measurement");
    reveal_strlit("device_class");
    reveal_strlit("state_class");
    reveal_strlit("suggested_display_precision");
    reveal_strlit("entity_category");
    reveal_strlit("enabled_by_default");
    reveal_strlit("device");
    reveal_strlit("origin");
}

/// The keys of an entity record that have nothing to do with its availability.
spec fn is_entity_key(key: Seq<char>) -> bool {
    ||| key == "unique_id"@
    ||| key == "name"@
    ||| key == "state_topic"@
    ||| key == "value_template"@
    ||| key == "state_value_template"@
    ||| key == "payload_on"@
    ||| key == "payload_off"@
    ||| key == "payload_available"@
    ||| key == "payload_not_available"@
    ||| key == "command_topic"@
    ||| key == "optimistic"@
    ||| key == "qos"@
    ||| key == "retain"@
    ||| key == "options"@
    ||| key == "min"@
    ||| key == "max"@
    ||| key == "default_entity_id"@
    ||| key == "unit_of_measurement"@
    ||| key == "device_class"@
    ||| key == "state_class"@
    ||| key == "suggested_display_precision"@
    ||| key == "entity_category"@
    ||| key == "enabled_by_default"@
    ||| key == "device"@
    ||| key == "origin"@
}

proof fn lemma_record_keys(key: Seq<char>)
    ensures
        "availability"@ != "availability_mode"@,
        "availability"@ != "availability_topic"@,
        "availability"@ != "expire_after"@,
        "availability_mode"@ != "availability_topic"@,
        "availability_mode"@ != "expire_after"@,
        "availability_topic"@ != "expire_after"@,
        is_entity_key(key) ==> key != "availability"@ && key != "availability_mode"@ && key
            != "availability_topic"@ && key != "expire_after"@,
{
    lemma_key_literals();
}

/// Whether two records agree on one key.
spec fn same_at(left: Map<Seq<char>, Json>, right: Map<Seq<char>, Json>, key: Seq<char>) -> bool {
    (left.contains_key(key) <==> right.contains_key(key)) && left[key] == right[key]
}

/// Whether two records say the same of availability.
spec fn same_availability(left: Map<Seq<char>, Json>, right: Map<Seq<char>, Json>) -> bool {
    &&& same_at(left, right, "availability"@)
    &&& same_at(left, right, "availability_mode"@)
    &&& same_at(left, right, "availability_topic"@)
    &&& same_at(left, right, "expire_after"@)
}

proof fn lemma_insert_keeps(members: Map<Seq<char>, Json>, key: Seq<char>, value: Json) -> (
    inserted: Map<Seq<char>, Json>)
    requires
        is_entity_key(key),
    ensures
        inserted == members.insert(key, value),
        same_availability(members, inserted),
{
    lemma_record_keys(key);
    members.insert(key, value)
}

proof fn lemma_optional_keeps(members: Map<Seq<char>, Json>, key: Seq<char>, text: Option<String>)
    requires
        is_entity_key(key),
    ensures
        same_availability(members, with_optional_text(members, key, text)),
{
    if let Some(text) = text {
        let _ = lemma_insert_keeps(members, key, Json::Text(text@));
    }
}

proof fn lemma_template_keeps(members: Map<Seq<char>, Json>, field: Field)
    ensures
        same_availability(members, with_state_template(members, field)),
{
    if field.value_type == ValueType::Bool {
        let key = if field.discovery.domain == Domain::Light {
            "state_value_template"@
        } else {
            "value_template"@
        };
        let shown = lemma_insert_keeps(members, key, Json::Text(on_off_template(field.source@)));
        let on = lemma_insert_keeps(shown, "payload_on"@, Json::Text("ON"@));
        let _ = lemma_insert_keeps(on, "payload_off"@, Json::Text("OFF"@));
    } else {
        let template = match field.discovery.value_map {
            Some(names) => names_template(names@, field.source@),
            None => plain_template(field.source@),
        };
        let _ = lemma_insert_keeps(members, "value_template"@, Json::Text(template));
    }
}

proof fn lemma_controls_keep(members: Map<Seq<char>, Json>, discovery: FieldDiscovery)
    ensures
        same_availability(members, with_controls(members, discovery)),
{
    let is_light = discovery.domain == Domain::Light;
    lemma_optional_keeps(members, "command_topic"@, discovery.command_topic);
    let commanded = with_optional_text(members, "command_topic"@, discovery.command_topic);
    let known = lemma_insert_keeps(commanded, "optimistic"@, Json::Bool(is_light));
    if is_light {
        let sent = lemma_insert_keeps(known, "qos"@, Json::Integer(1));
        let _ = lemma_insert_keeps(sent, "retain"@, Json::Bool(false));
    } else if discovery.domain == Domain::Select {
        if let Some(options) = discovery.options {
            let _ = lemma_insert_keeps(known, "options"@, options_record(options@));
        }
    } else if discovery.domain == Domain::Number {
        let least = with_optional_integer(known, "min"@, discovery.min);
        if let Some(min) = discovery.min {
            let _ = lemma_insert_keeps(known, "min"@, Json::Integer(min as int));
        }
        if let Some(max) = discovery.max {
            let _ = lemma_insert_keeps(least, "max"@, Json::Integer(max as int));
        }
    }
}

proof fn lemma_presentation_keeps(members: Map<Seq<char>, Json>, discovery: FieldDiscovery)
    ensures
        same_availability(members, with_presentation(members, discovery)),
{
    lemma_optional_keeps(members, "default_entity_id"@, discovery.default_entity_id);
    let m1 = with_optional_text(members, "default_entity_id"@, discovery.default_entity_id);
    lemma_optional_keeps(m1, "unit_of_measurement"@, discovery.unit_of_measurement);
    let m2 = with_optional_text(m1, "unit_of_measurement"@, discovery.unit_of_measurement);
    lemma_optional_keeps(m2, "device_class"@, discovery.device_class);
    let m3 = with_optional_text(m2, "device_class"@, discovery.device_class);
    lemma_optional_keeps(m3, "state_class"@, discovery.state_class);
    let m4 = with_optional_text(m3, "state_class"@, discovery.state_class);
    let m5 = match discovery.suggested_display_precision {
        Some(precision) => lemma_insert_keeps(
            m4,
            "suggested_display_precision"@,
            Json::Integer(precision as int),
        ),
        None => m4,
    };
    lemma_optional_keeps(m5, "entity_category"@, discovery.entity_category);
    let m6 = with_optional_text(m5, "entity_category"@, discovery.entity_category);
    if !discovery.enabled_by_default {
        let _ = lemma_insert_keeps(m6, "enabled_by_default"@, Json::Bool(false));
    }
}

proof fn lemma_device_keeps(members: Map<Seq<char>, Json>)
    ensures
        same_availability(members, with_device_and_origin(members)),
{
    let owned = lemma_insert_keeps(members, "device"@, device_record());
    let _ = lemma_insert_keeps(owned, "origin"@, origin_record());
}

/// Whether a record makes its entity depend on both the PLC and the normalizer,
/// in `all` mode.
pub open spec fn needs_both_statuses(record: Map<Seq<char>, Json>) -> bool {
    &&& record.contains_key("availability"@)
    &&& record["availability"@] == both_statuses()
    &&& record.contains_key("availability_mode"@)
    &&& record["availability_mode"@] == Json::Text("all"@)
    &&& !record.contains_key("availability_topic"@)
}

/// Whether a record makes its entity unavailable once its topic stops updating.
pub open spec fn expires(record: Map<Seq<char>, Json>, kind: TopicKind) -> bool {
    &&& record.contains_key("expire_after"@)
    &&& record["expire_after"@] == Json::Integer(expiry_seconds(kind) as int)
}

/// The entity of a field depends on both status topics and, unless it is a
/// light, expires when its topic stops updating.
pub proof fn fields_need_both_statuses(spec: TopicSpec, field: Field)
    ensures
        needs_both_statuses(field_record(spec, field)),
        field.discovery.domain != Domain::Light ==> expires(field_record(spec, field), spec.kind),
        field.discovery.domain == Domain::Light ==> !field_record(spec, field).contains_key(
            "expire_after"@,
        ),
{
    let id = Json::Text(unique_id(component_id_of(field)));
    let m1 = lemma_insert_keeps(no_members(), "unique_id"@, id);
    let m2 = lemma_insert_keeps(m1, "name"@, Json::Text(field.discovery.name@));
    let m3 = lemma_insert_keeps(m2, "state_topic"@, Json::Text(spec.state_topic@));
    let m4 = with_combined_availability(m3);
    let m5 = if field.discovery.domain == Domain::Light {
        m4
    } else {
        m4.insert("expire_after"@, Json::Integer(expiry_seconds(spec.kind) as int))
    };
    lemma_record_keys("name"@);
    lemma_template_keeps(m5, field);
    let m6 = with_state_template(m5, field);
    lemma_controls_keep(m6, field.discovery);
    let m7 = with_controls(m6, field.discovery);
    lemma_presentation_keeps(m7, field.discovery);
    let m8 = with_presentation(m7, field.discovery);
    lemma_device_keeps(m8);
    assert(field_record(spec, field) == with_device_and_origin(m8));
}

/// Topic health and the clock offset depend on both status topics and expire
/// when their topic stops updating.
pub proof fn topics_need_both_statuses(spec: TopicSpec)
    ensures
        needs_both_statuses(topic_health_record(spec)),
        expires(topic_health_record(spec), spec.kind),
        needs_both_statuses(clock_offset_record(spec)),
        expires(clock_offset_record(spec), spec.kind),
{
    let expiry = Json::Integer(expiry_seconds(spec.kind) as int);
    lemma_record_keys("device_class"@);
    let id = Json::Text(unique_id(health_id(spec.kind)));
    let h1 = lemma_insert_keeps(no_members(), "unique_id"@, id);
    let name = Json::Text(kind_title(spec.kind) + " Topic Online"@);
    let h2 = lemma_insert_keeps(h1, "name"@, name);
    let h3 = lemma_insert_keeps(h2, "state_topic"@, Json::Text(spec.state_topic@));
    let h4 = lemma_insert_keeps(h3, "value_template"@, Json::Text("ON"@));
    let h5 = lemma_insert_keeps(h4, "payload_on"@, Json::Text("ON"@));
    let h6 = h5.insert("expire_after"@, expiry);
    let h7 = lemma_insert_keeps(h6, "device_class"@, Json::Text("connectivity"@));
    let h8 = lemma_insert_keeps(h7, "entity_category"@, Json::Text("diagnostic"@));
    lemma_device_keeps(h8);
    assert(topic_health_record(spec) == with_combined_availability(with_device_and_origin(h8)));
    let id = Json::Text(unique_id("clock_offset_seconds"@));
    let c1 = lemma_insert_keeps(no_members(), "unique_id"@, id);
    let c2 = lemma_insert_keeps(c1, "name"@, Json::Text("Clock Offset"@));
    let c3 = lemma_insert_keeps(c2, "state_topic"@, Json::Text(spec.state_topic@));
    let template = Json::Text(plain_template(CLOCK_OFFSET_FIELD@));
    let c4 = lemma_insert_keeps(c3, "value_template"@, template);
    let c5 = lemma_insert_keeps(c4, "unit_of_measurement"@, Json::Text("s"@));
    let c6 = lemma_insert_keeps(c5, "state_class"@, Json::Text("measurement"@));
    let c7 = lemma_insert_keeps(c6, "suggested_display_precision"@, Json::Integer(1));
    let c8 = c7.insert("expire_after"@, expiry);
    let c9 = lemma_insert_keeps(c8, "entity_category"@, Json::Text("diagnostic"@));
    lemma_device_keeps(c9);
    assert(clock_offset_record(spec) == with_combined_availability(with_device_and_origin(c9)));
}

/// The PLC's connectivity is read off its own status topic. The entity depends
/// on the normalizer alone and never expires.
pub proof fn connectivity_needs_the_normalizer_alone()
    ensures
        connectivity_record()["state_topic"@] == Json::Text(PLC_AVAILABILITY_TOPIC@),
        connectivity_record()["availability_topic"@] == Json::Text(AVAILABILITY_TOPIC@),
        !connectivity_record().contains_key("availability"@),
        !connectivity_record().contains_key("expire_after"@),
{
    lemma_record_keys("state_topic"@);
    let id = Json::Text(unique_id("mqtt_connected"@));
    let m1 = lemma_insert_keeps(no_members(), "unique_id"@, id);
    let m2 = lemma_insert_keeps(m1, "name"@, Json::Text("MQTT Connected"@));
    let m3 = lemma_insert_keeps(m2, "state_topic"@, Json::Text(PLC_AVAILABILITY_TOPIC@));
    let m4 = lemma_insert_keeps(m3, "payload_on"@, Json::Text("online"@));
    let m5 = lemma_insert_keeps(m4, "payload_off"@, Json::Text("offline"@));
    let m6 = m5.insert("availability_topic"@, Json::Text(AVAILABILITY_TOPIC@));
    let m7 = lemma_insert_keeps(m6, "payload_available"@, Json::Text("online"@));
    let m8 = lemma_insert_keeps(m7, "payload_not_available"@, Json::Text("offline"@));
    let m9 = lemma_insert_keeps(m8, "device_class"@, Json::Text("connectivity"@));
    let m10 = lemma_insert_keeps(m9, "entity_category"@, Json::Text("diagnostic"@));
    lemma_device_keeps(m10);
    assert(connectivity_record() == with_device_and_origin(m10));
    assert(connectivity_record()["state_topic"@] == m3["state_topic"@]) by {
        lemma_key_literals();
    }
}

/// Whether a key is added to a field's record after its controls.
spec fn is_later_key(key: Seq<char>) -> bool {
    ||| key == "default_entity_id"@
    ||| key == "unit_of_measurement"@
    ||| key == "device_class"@
    ||| key == "state_class"@
    ||| key == "suggested_display_precision"@
    ||| key == "entity_category"@
    ||| key == "enabled_by_default"@
    ||| key == "device"@
    ||| key == "origin"@
}

proof fn lemma_later_keys_keep(
    members: Map<Seq<char>, Json>,
    discovery: FieldDiscovery,
    key: Seq<char>,
)
    requires
        !is_later_key(key),
    ensures
        same_at(members, with_device_and_origin(with_presentation(members, discovery)), key),
{
}

/// A control tells where its commands go. A light shows a requested state at
/// once; every other control waits for the confirmed one. What is no control
/// says neither.
pub proof fn only_lights_are_optimistic(spec: TopicSpec, field: Field)
    requires
        is_valid_field(spec, field),
    ensures
        is_controllable(field.discovery.domain) ==> {
            &&& field_record(spec, field)["command_topic"@] == Json::Text(
                field.discovery.command_topic->0@,
            )
            &&& field_record(spec, field)["optimistic"@] == Json::Bool(
                field.discovery.domain == Domain::Light,
            )
        },
        !is_controllable(field.discovery.domain) ==> !field_record(spec, field).contains_key(
            "command_topic"@,
        ) && !field_record(spec, field).contains_key("optimistic"@),
{
    lemma_key_literals();
    let m1 = with_text(no_members(), "unique_id"@, unique_id(component_id_of(field)));
    let m2 = with_text(m1, "name"@, field.discovery.name@);
    let m3 = with_text(m2, "state_topic"@, spec.state_topic@);
    let m4 = with_combined_availability(m3);
    let m5 = if field.discovery.domain == Domain::Light {
        m4
    } else {
        m4.insert("expire_after"@, Json::Integer(expiry_seconds(spec.kind) as int))
    };
    let m6 = with_state_template(m5, field);
    assert(!m6.contains_key("command_topic"@) && !m6.contains_key("optimistic"@));
    let m7 = with_controls(m6, field.discovery);
    lemma_later_keys_keep(m7, field.discovery, "command_topic"@);
    lemma_later_keys_keep(m7, field.discovery, "optimistic"@);
    let record = with_device_and_origin(with_presentation(m7, field.discovery));
    assert(field_record(spec, field) == record);
}

proof fn lemma_template_keeps_key(members: Map<Seq<char>, Json>, field: Field, key: Seq<char>)
    requires
        key != "value_template"@,
        key != "state_value_template"@,
        key != "payload_on"@,
        key != "payload_off"@,
    ensures
        same_at(members, with_state_template(members, field), key),
{
}

proof fn lemma_controls_keep_key(
    members: Map<Seq<char>, Json>,
    discovery: FieldDiscovery,
    key: Seq<char>,
)
    requires
        key != "command_topic"@,
        key != "optimistic"@,
        key != "qos"@,
        key != "retain"@,
        key != "options"@,
        key != "min"@,
        key != "max"@,
    ensures
        same_at(members, with_controls(members, discovery), key),
{
}

/// The entities of a topic read that topic's normalized state and no other, so
/// that a topic which stops updating takes only its own entities with it.
pub proof fn entities_follow_their_own_topic(spec: TopicSpec, field: Field)
    ensures
        field_record(spec, field)["state_topic"@] == Json::Text(spec.state_topic@),
        topic_health_record(spec)["state_topic"@] == Json::Text(spec.state_topic@),
        clock_offset_record(spec)["state_topic"@] == Json::Text(spec.state_topic@),
{
    lemma_key_literals();
    let m1 = with_text(no_members(), "unique_id"@, unique_id(component_id_of(field)));
    let m2 = with_text(m1, "name"@, field.discovery.name@);
    let m3 = with_text(m2, "state_topic"@, spec.state_topic@);
    let m4 = with_combined_availability(m3);
    let m5 = if field.discovery.domain == Domain::Light {
        m4
    } else {
        m4.insert("expire_after"@, Json::Integer(expiry_seconds(spec.kind) as int))
    };
    assert(m5["state_topic"@] == Json::Text(spec.state_topic@));
    lemma_template_keeps_key(m5, field, "state_topic"@);
    let m6 = with_state_template(m5, field);
    lemma_controls_keep_key(m6, field.discovery, "state_topic"@);
    let m7 = with_controls(m6, field.discovery);
    lemma_later_keys_keep(m7, field.discovery, "state_topic"@);
    let record = with_device_and_origin(with_presentation(m7, field.discovery));
    assert(field_record(spec, field) == record);
}

proof fn lemma_domain_names_part(left: Domain, right: Domain)
    requires
        left != right,
    ensures
        exists|i: int|
            #![trigger domain_name(left)[i]]
            0 <= i < domain_name(left).len() && i < domain_name(right).len() && domain_name(left)[i]
                != domain_name(right)[i],
{
    reveal_strlit("binary_sensor");
    reveal_strlit("light");
    reveal_strlit("switch");
    reveal_strlit("select");
    reveal_strlit("number");
    reveal_strlit("sensor");
    assert(domain_name(left)[0] != domain_name(right)[0] || domain_name(left)[1] != domain_name(
        right,
    )[1] || domain_name(left)[2] != domain_name(right)[2]);
}

proof fn lemma_config_topics_part(
    prefix: Seq<char>,
    left: Domain,
    left_id: Seq<char>,
    right: Domain,
    right_id: Seq<char>,
)
    requires
        left != right || left_id != right_id,
    ensures
        config_topic(prefix, domain_name(left), left_id) != config_topic(
            prefix,
            domain_name(right),
            right_id,
        ),
{
    let one = config_topic(prefix, domain_name(left), left_id);
    let two = config_topic(prefix, domain_name(right), right_id);
    let start = prefix.len() + "/"@.len();
    let rest = 2 * "/"@.len() + "/config"@.len();
    assert(one.len() == prefix.len() + domain_name(left).len() + left_id.len() + rest);
    assert(two.len() == prefix.len() + domain_name(right).len() + right_id.len() + rest);
    if left != right {
        lemma_domain_names_part(left, right);
        let i = choose|i: int|
            #![trigger domain_name(left)[i]]
            0 <= i < domain_name(left).len() && i < domain_name(right).len() && domain_name(left)[i]
                != domain_name(right)[i];
        assert(one[start + i] == domain_name(left)[i]);
        assert(two[start + i] == domain_name(right)[i]);
    } else {
        let at = start + domain_name(left).len() + "/"@.len();
        if one == two {
            assert(left_id.len() == right_id.len());
            assert(one.subrange(at as int, (at + left_id.len()) as int) =~= left_id);
            assert(two.subrange(at as int, (at + right_id.len()) as int) =~= right_id);
        }
    }
}

proof fn lemma_unique_ids_part(left: Seq<char>, right: Seq<char>)
    requires
        left != right,
    ensures
        unique_id(left) != unique_id(right),
{
    let at = (DEVICE_ID@.len() + "_"@.len()) as int;
    assert(unique_id(left).len() == at + left.len());
    assert(unique_id(right).len() == at + right.len());
    if unique_id(left) == unique_id(right) {
        assert(left.len() == right.len());
        assert(unique_id(left).subrange(at, at + left.len()) =~= left);
        assert(unique_id(right).subrange(at, at + right.len()) =~= right);
    }
}

/// In a layout that passed validation, two fields never share a unique id or a
/// discovery topic.
pub proof fn fields_have_topics_of_their_own(
    prefix: Seq<char>,
    layout: Layout,
    t1: int,
    f1: int,
    t2: int,
    f2: int,
)
    requires
        is_valid_layout(layout),
        has_field(layout, t1, f1),
        has_field(layout, t2, f2),
        t1 != t2 || f1 != f2,
    ensures
        unique_id(component_id_of(field_at(layout, t1, f1))) != unique_id(
            component_id_of(field_at(layout, t2, f2)),
        ),
        field_message(prefix, layout.topics@[t1], field_at(layout, t1, f1)).0 != field_message(
            prefix,
            layout.topics@[t2],
            field_at(layout, t2, f2),
        ).0,
{
    let one = field_at(layout, t1, f1);
    let two = field_at(layout, t2, f2);
    assert(stands_before(t1, f1, t2, f2) || stands_before(t2, f2, t1, f1));
    assert(component_id_of(one) != component_id_of(two));
    lemma_unique_ids_part(component_id_of(one), component_id_of(two));
    lemma_config_topics_part(
        prefix,
        one.discovery.domain,
        unique_id(component_id_of(one)),
        two.discovery.domain,
        unique_id(component_id_of(two)),
    );
}

/// Whether a record holds a text under a key.
pub open spec fn holds_text(record: Map<Seq<char>, Json>, key: Seq<char>, text: Seq<char>) -> bool {
    record.contains_key(key) && record[key] == Json::Text(text)
}

/// Whether a record holds an optional text under a key, and nothing there
/// without one.
pub open spec fn holds_optional_text(
    record: Map<Seq<char>, Json>,
    key: Seq<char>,
    text: Option<String>,
) -> bool {
    if text is Some {
        holds_text(record, key, text->0@)
    } else {
        !record.contains_key(key)
    }
}

/// Whether a record holds a number under a key.
pub open spec fn holds_number(record: Map<Seq<char>, Json>, key: Seq<char>, number: int) -> bool {
    record.contains_key(key) && record[key] == Json::Integer(number)
}

/// Whether a record holds a flag under a key.
pub open spec fn holds_flag(record: Map<Seq<char>, Json>, key: Seq<char>, flag: bool) -> bool {
    record.contains_key(key) && record[key] == Json::Bool(flag)
}

/// A field's record before its template, controls and presentation.
spec fn field_heading(spec: TopicSpec, field: Field) -> Map<Seq<char>, Json> {
    let members = with_text(no_members(), "unique_id"@, unique_id(component_id_of(field)));
    let members = with_text(members, "name"@, field.discovery.name@);
    let members = with_text(members, "state_topic"@, spec.state_topic@);
    let members = with_combined_availability(members);
    if field.discovery.domain == Domain::Light {
        members
    } else {
        members.insert("expire_after"@, Json::Integer(expiry_seconds(spec.kind) as int))
    }
}

proof fn lemma_field_steps(spec: TopicSpec, field: Field, key: Seq<char>)
    ensures
        ({
            let heading = field_heading(spec, field);
            let shown = with_state_template(heading, field);
            let controlled = with_controls(shown, field.discovery);
            &&& field_record(spec, field) == with_device_and_origin(
                with_presentation(controlled, field.discovery),
            )
            &&& !is_later_key(key) ==> same_at(controlled, field_record(spec, field), key)
        }),
{
    let shown = with_state_template(field_heading(spec, field), field);
    let controlled = with_controls(shown, field.discovery);
    if !is_later_key(key) {
        lemma_later_keys_keep(controlled, field.discovery, key);
    }
}

/// The entity of a field bears the name that the layout gives it, and an id
/// made of the device's and the field's.
pub proof fn entities_bear_their_names(spec: TopicSpec, field: Field)
    ensures
        holds_text(field_record(spec, field), "name"@, field.discovery.name@),
        holds_text(
            field_record(spec, field),
            "unique_id"@,
            "reef_plc"@ + "_"@ + component_id_of(field),
        ),
{
    lemma_key_literals();
    let heading = field_heading(spec, field);
    let shown = with_state_template(heading, field);
    lemma_field_steps(spec, field, "name"@);
    lemma_template_keeps_key(heading, field, "name"@);
    lemma_controls_keep_key(shown, field.discovery, "name"@);
    lemma_field_steps(spec, field, "unique_id"@);
    lemma_template_keeps_key(heading, field, "unique_id"@);
    lemma_controls_keep_key(shown, field.discovery, "unique_id"@);
}

/// The entity of a boolean is on exactly where its template yields what it
/// yields for a true value, and off where it yields what it yields for a false
/// one: the template writes the two payloads, `ON` and `OFF`, in their places,
/// and reads the field's own value. A light reads its state by a template of
/// its own key, every other entity by the common one.
pub proof fn booleans_are_on_where_true(spec: TopicSpec, field: Field)
    requires
        field.value_type is Bool,
    ensures
        ({
            let record = field_record(spec, field);
            let on = "ON"@;
            let off = "OFF"@;
            let template = ("{{ '"@ + on + "' if value_json["@) + json_quoted(field.source@) + (
            "] else '"@ + off + "' }}"@);
            &&& holds_text(record, "payload_on"@, on)
            &&& holds_text(record, "payload_off"@, off)
            &&& field.discovery.domain is Light ==> holds_text(
                record,
                "state_value_template"@,
                template,
            ) && !record.contains_key("value_template"@)
            &&& !(field.discovery.domain is Light) ==> holds_text(
                record,
                "value_template"@,
                template,
            ) && !record.contains_key("state_value_template"@)
        }),
{
    lemma_key_literals();
    reveal_strlit("ON");
    reveal_strlit("OFF");
    reveal_strlit("{{ '");
    reveal_strlit("' if value_json[");
    reveal_strlit("] else '");
    reveal_strlit("' }}");
    reveal_strlit("{{ 'ON' if value_json[");
    reveal_strlit("] else 'OFF' }}");
    assert("{{ 'ON' if value_json["@ =~= "{{ '"@ + "ON"@ + "' if value_json["@);
    assert("] else 'OFF' }}"@ =~= "] else '"@ + "OFF"@ + "' }}"@);
    let heading = field_heading(spec, field);
    let shown = with_state_template(heading, field);
    lemma_field_steps(spec, field, "payload_on"@);
    lemma_controls_keep_key(shown, field.discovery, "payload_on"@);
    lemma_field_steps(spec, field, "payload_off"@);
    lemma_controls_keep_key(shown, field.discovery, "payload_off"@);
    lemma_field_steps(spec, field, "value_template"@);
    lemma_controls_keep_key(shown, field.discovery, "value_template"@);
    lemma_field_steps(spec, field, "state_value_template"@);
    lemma_controls_keep_key(shown, field.discovery, "state_value_template"@);
}

/// The entity of any other value shows the field's own value: by its name where
/// the layout names values, as it is where it does not. It has no payloads for
/// on and off.
pub proof fn other_values_show_their_source(spec: TopicSpec, field: Field)
    requires
        !(field.value_type is Bool),
    ensures
        ({
            let record = field_record(spec, field);
            &&& !record.contains_key("payload_on"@)
            &&& !record.contains_key("payload_off"@)
            &&& !record.contains_key("state_value_template"@)
            &&& field.discovery.value_map is None ==> holds_text(
                record,
                "value_template"@,
                "{{ value_json["@ + json_quoted(field.source@) + "] }}"@,
            )
            &&& field.discovery.value_map is Some ==> holds_text(
                record,
                "value_template"@,
                "{{ {"@ + dictionary_entries(by_value(name_pairs(field.discovery.value_map->0@)))
                    + "}.get(value_json["@ + json_quoted(field.source@) + "] | int) }}"@,
            )
        }),
{
    lemma_key_literals();
    let heading = field_heading(spec, field);
    let shown = with_state_template(heading, field);
    lemma_field_steps(spec, field, "payload_on"@);
    lemma_controls_keep_key(shown, field.discovery, "payload_on"@);
    lemma_field_steps(spec, field, "payload_off"@);
    lemma_controls_keep_key(shown, field.discovery, "payload_off"@);
    lemma_field_steps(spec, field, "value_template"@);
    lemma_controls_keep_key(shown, field.discovery, "value_template"@);
    lemma_field_steps(spec, field, "state_value_template"@);
    lemma_controls_keep_key(shown, field.discovery, "state_value_template"@);
}

/// Lights, switches, selects and numbers say where their commands go. Only a
/// light shows a requested state at once and fixes how its commands are sent:
/// once or more, and not retained. Only a select lists its options, in the order
/// of the layout, and only a number has limits. Sensors take no command.
pub proof fn controls_say_what_they_take(spec: TopicSpec, field: Field)
    ensures
        ({
            let record = field_record(spec, field);
            let discovery = field.discovery;
            let domain = discovery.domain;
            &&& (domain is Sensor || domain is BinarySensor) ==> !record.contains_key(
                "command_topic"@,
            ) && !record.contains_key("optimistic"@)
            &&& !(domain is Sensor || domain is BinarySensor) ==> holds_optional_text(
                record,
                "command_topic"@,
                discovery.command_topic,
            ) && holds_flag(record, "optimistic"@, domain is Light)
            &&& domain is Light ==> holds_number(record, "qos"@, 1) && holds_flag(
                record,
                "retain"@,
                false,
            )
            &&& !(domain is Light) ==> !record.contains_key("qos"@) && !record.contains_key(
                "retain"@,
            )
            &&& record.contains_key("options"@) <==> domain is Select && discovery.options is Some
            &&& record.contains_key("options"@) ==> {
                let options = discovery.options->0@;
                &&& record["options"@] is Array
                &&& record["options"@]->Array_0.len() == options.len()
                &&& forall|i: int|
                    0 <= i < options.len() ==> #[trigger] record["options"@]->Array_0[i]
                        == Json::Text(options[i]@)
            }
            &&& record.contains_key("min"@) <==> domain is Number && discovery.min is Some
            &&& record.contains_key("min"@) ==> record["min"@] == Json::Integer(
                discovery.min->0 as int,
            )
            &&& record.contains_key("max"@) <==> domain is Number && discovery.max is Some
            &&& record.contains_key("max"@) ==> record["max"@] == Json::Integer(
                discovery.max->0 as int,
            )
        }),
{
    lemma_control_keys(spec, field);
    reveal_strlit("min");
    reveal_strlit("max");
    assert("min"@[1] != "max"@[1]);
    lemma_field_steps(spec, field, "command_topic"@);
    lemma_field_steps(spec, field, "optimistic"@);
    lemma_field_steps(spec, field, "qos"@);
    lemma_field_steps(spec, field, "retain"@);
    lemma_field_steps(spec, field, "options"@);
    lemma_field_steps(spec, field, "min"@);
    lemma_field_steps(spec, field, "max"@);
    lemma_key_literals();
}

proof fn lemma_control_keys(spec: TopicSpec, field: Field)
    ensures
        ({
            let shown = with_state_template(field_heading(spec, field), field);
            &&& !shown.contains_key("command_topic"@)
            &&& !shown.contains_key("optimistic"@)
            &&& !shown.contains_key("qos"@)
            &&& !shown.contains_key("retain"@)
            &&& !shown.contains_key("options"@)
            &&& !shown.contains_key("min"@)
            &&& !shown.contains_key("max"@)
        }),
{
    lemma_key_literals();
}

proof fn lemma_presentation_keys(spec: TopicSpec, field: Field)
    ensures
        ({
            let shown = with_state_template(field_heading(spec, field), field);
            let controlled = with_controls(shown, field.discovery);
            &&& !controlled.contains_key("default_entity_id"@)
            &&& !controlled.contains_key("unit_of_measurement"@)
            &&& !controlled.contains_key("device_class"@)
            &&& !controlled.contains_key("state_class"@)
            &&& !controlled.contains_key("suggested_display_precision"@)
            &&& !controlled.contains_key("entity_category"@)
            &&& !controlled.contains_key("enabled_by_default"@)
        }),
{
    lemma_key_literals();
    let heading = field_heading(spec, field);
    let shown = with_state_template(heading, field);
    lemma_template_keeps_key(heading, field, "default_entity_id"@);
    lemma_controls_keep_key(shown, field.discovery, "default_entity_id"@);
    lemma_template_keeps_key(heading, field, "unit_of_measurement"@);
    lemma_controls_keep_key(shown, field.discovery, "unit_of_measurement"@);
    lemma_template_keeps_key(heading, field, "device_class"@);
    lemma_controls_keep_key(shown, field.discovery, "device_class"@);
    lemma_template_keeps_key(heading, field, "state_class"@);
    lemma_controls_keep_key(shown, field.discovery, "state_class"@);
    lemma_template_keeps_key(heading, field, "suggested_display_precision"@);
    lemma_controls_keep_key(shown, field.discovery, "suggested_display_precision"@);
    lemma_template_keeps_key(heading, field, "entity_category"@);
    lemma_controls_keep_key(shown, field.discovery, "entity_category"@);
    lemma_template_keeps_key(heading, field, "enabled_by_default"@);
    lemma_controls_keep_key(shown, field.discovery, "enabled_by_default"@);
}

/// What the layout says of how a field is shown stands in its record as it is,
/// and where the layout says nothing the record does not either. Only an entity
/// that is disabled by default says so.
pub proof fn entities_are_shown_as_the_layout_says(spec: TopicSpec, field: Field)
    ensures
        ({
            let record = field_record(spec, field);
            let discovery = field.discovery;
            &&& holds_optional_text(record, "default_entity_id"@, discovery.default_entity_id)
            &&& holds_optional_text(record, "unit_of_measurement"@, discovery.unit_of_measurement)
            &&& holds_optional_text(record, "device_class"@, discovery.device_class)
            &&& holds_optional_text(record, "state_class"@, discovery.state_class)
            &&& holds_optional_text(record, "entity_category"@, discovery.entity_category)
            &&& record.contains_key("suggested_display_precision"@)
                <==> discovery.suggested_display_precision is Some
            &&& discovery.suggested_display_precision is Some ==> holds_number(
                record,
                "suggested_display_precision"@,
                discovery.suggested_display_precision->0 as int,
            )
            &&& record.contains_key("enabled_by_default"@) <==> !discovery.enabled_by_default
            &&& !discovery.enabled_by_default ==> holds_flag(record, "enabled_by_default"@, false)
        }),
{
    lemma_presentation_keys(spec, field);
    lemma_field_steps(spec, field, "name"@);
    lemma_key_literals();
    let shown = with_state_template(field_heading(spec, field), field);
    lemma_presentation(with_controls(shown, field.discovery), field.discovery);
}

proof fn lemma_presentation(members: Map<Seq<char>, Json>, discovery: FieldDiscovery)
    requires
        !members.contains_key("default_entity_id"@),
        !members.contains_key("unit_of_measurement"@),
        !members.contains_key("device_class"@),
        !members.contains_key("state_class"@),
        !members.contains_key("suggested_display_precision"@),
        !members.contains_key("entity_category"@),
        !members.contains_key("enabled_by_default"@),
    ensures
        ({
            let record = with_presentation(members, discovery);
            &&& holds_optional_text(record, "default_entity_id"@, discovery.default_entity_id)
            &&& holds_optional_text(record, "unit_of_measurement"@, discovery.unit_of_measurement)
            &&& holds_optional_text(record, "device_class"@, discovery.device_class)
            &&& holds_optional_text(record, "state_class"@, discovery.state_class)
            &&& holds_optional_text(record, "entity_category"@, discovery.entity_category)
            &&& record.contains_key("suggested_display_precision"@)
                <==> discovery.suggested_display_precision is Some
            &&& discovery.suggested_display_precision is Some ==> holds_number(
                record,
                "suggested_display_precision"@,
                discovery.suggested_display_precision->0 as int,
            )
            &&& record.contains_key("enabled_by_default"@) <==> !discovery.enabled_by_default
            &&& !discovery.enabled_by_default ==> holds_flag(record, "enabled_by_default"@, false)
        }),
{
    lemma_key_literals();
}

/// Whether a record names the device and the app as every entity does: one
/// device with one identifier, and the app with its version and its home.
pub open spec fn names_device_and_app(record: Map<Seq<char>, Json>) -> bool {
    &&& record.contains_key("device"@)
    &&& record["device"@] is Object
    &&& {
        let device = record["device"@]->Object_0;
        &&& device.contains_key("identifiers"@)
        &&& device["identifiers"@] == Json::Array(seq![Json::Text("reef_plc"@)])
        &&& holds_text(device, "name"@, "Reef PLC"@)
        &&& holds_text(device, "manufacturer"@, "AutomationDirect"@)
        &&& holds_text(device, "model"@, "P1-550"@)
        &&& forall|key: Seq<char>| #[trigger]
            device.contains_key(key) ==> key == "identifiers"@ || key == "name"@ || key
                == "manufacturer"@ || key == "model"@
    }
    &&& record.contains_key("origin"@)
    &&& record["origin"@] is Object
    &&& {
        let origin = record["origin"@]->Object_0;
        &&& holds_text(origin, "name"@, "reef-plc-normalizer"@)
        &&& holds_text(origin, "sw_version"@, "0.1.18"@)
        &&& holds_text(
            origin,
            "support_url"@,
            "https://github.com/ianhattendorf/reef-plc-normalizer/tree/main/reef_plc_normalizer"@,
        )
        &&& forall|key: Seq<char>| #[trigger]
            origin.contains_key(key) ==> key == "name"@ || key == "sw_version"@ || key
                == "support_url"@
    }
}

proof fn lemma_device_and_app(members: Map<Seq<char>, Json>)
    ensures
        names_device_and_app(with_device_and_origin(members)),
        names_device_and_app(with_combined_availability(with_device_and_origin(members))),
{
    lemma_key_literals();
    reveal_strlit("identifiers");
    reveal_strlit("manufacturer");
    reveal_strlit("model");
    reveal_strlit("sw_version");
    reveal_strlit("support_url");
    reveal_strlit("device");
    reveal_strlit("origin");
    assert("device"@[0] == 'd' && "origin"@[0] == 'o');
    assert("identifiers"@.len() == 11 && "manufacturer"@.len() == 12 && "model"@.len() == 5);
    assert("sw_version"@.len() == 10 && "support_url"@.len() == 11);
    assert(seq![Json::Text(DEVICE_ID@)] =~= seq![Json::Text("reef_plc"@)]);
}

/// Every record names the same device and the same app.
pub proof fn every_entity_belongs_to_one_device(spec: TopicSpec, field: Field)
    ensures
        names_device_and_app(field_record(spec, field)),
        names_device_and_app(topic_health_record(spec)),
        names_device_and_app(clock_offset_record(spec)),
        names_device_and_app(connectivity_record()),
{
    lemma_field_steps(spec, field, "name"@);
    let shown = with_state_template(field_heading(spec, field), field);
    let controlled = with_controls(shown, field.discovery);
    lemma_device_and_app(with_presentation(controlled, field.discovery));
    lemma_device_and_app(topic_health_heading(spec));
    lemma_device_and_app(clock_offset_heading(spec));
    lemma_device_and_app(connectivity_heading());
}

spec fn topic_health_heading(spec: TopicSpec) -> Map<Seq<char>, Json> {
    let members = with_text(no_members(), "unique_id"@, unique_id(health_id(spec.kind)));
    let members = with_text(members, "name"@, kind_title(spec.kind) + " Topic Online"@);
    let members = with_text(members, "state_topic"@, spec.state_topic@);
    let members = with_text(members, "value_template"@, "ON"@);
    let members = with_text(members, "payload_on"@, "ON"@);
    let members = members.insert("expire_after"@, Json::Integer(expiry_seconds(spec.kind) as int));
    let members = with_text(members, "device_class"@, "connectivity"@);
    with_text(members, "entity_category"@, "diagnostic"@)
}

spec fn clock_offset_heading(spec: TopicSpec) -> Map<Seq<char>, Json> {
    let members = with_text(no_members(), "unique_id"@, unique_id("clock_offset_seconds"@));
    let members = with_text(members, "name"@, "Clock Offset"@);
    let members = with_text(members, "state_topic"@, spec.state_topic@);
    let members = with_text(members, "value_template"@, plain_template(CLOCK_OFFSET_FIELD@));
    let members = with_text(members, "unit_of_measurement"@, "s"@);
    let members = with_text(members, "state_class"@, "measurement"@);
    let members = members.insert("suggested_display_precision"@, Json::Integer(1));
    let members = members.insert("expire_after"@, Json::Integer(expiry_seconds(spec.kind) as int));
    with_text(members, "entity_category"@, "diagnostic"@)
}

spec fn connectivity_heading() -> Map<Seq<char>, Json> {
    let members = with_text(no_members(), "unique_id"@, unique_id("mqtt_connected"@));
    let members = with_text(members, "name"@, "MQTT Connected"@);
    let members = with_text(members, "state_topic"@, PLC_AVAILABILITY_TOPIC@);
    let members = with_text(members, "payload_on"@, "online"@);
    let members = with_text(members, "payload_off"@, "offline"@);
    let members = with_text(members, "availability_topic"@, AVAILABILITY_TOPIC@);
    let members = with_text(members, "payload_available"@, "online"@);
    let members = with_text(members, "payload_not_available"@, "offline"@);
    let members = with_text(members, "device_class"@, "connectivity"@);
    with_text(members, "entity_category"@, "diagnostic"@)
}

/// Whether a tree is one status topic: where it is, and what it says while its
/// client is there and while it is not.
pub open spec fn is_status_of(tree: Json, topic: Seq<char>) -> bool {
    &&& tree is Object
    &&& holds_text(tree->Object_0, "topic"@, topic)
    &&& holds_text(tree->Object_0, "payload_available"@, "online"@)
    &&& holds_text(tree->Object_0, "payload_not_available"@, "offline"@)
    &&& forall|key: Seq<char>| #[trigger]
        tree->Object_0.contains_key(key) ==> key == "topic"@ || key == "payload_available"@ || key
            == "payload_not_available"@
}

/// Whether a record depends on the status of the PLC and on that of the
/// normalizer, on both at once.
pub open spec fn depends_on_both(record: Map<Seq<char>, Json>) -> bool {
    &&& record.contains_key("availability"@)
    &&& record["availability"@] is Array
    &&& record["availability"@]->Array_0.len() == 2
    &&& is_status_of(record["availability"@]->Array_0[0], "plc/aquarium/status"@)
    &&& is_status_of(record["availability"@]->Array_0[1], "reef/plc/status"@)
    &&& holds_text(record, "availability_mode"@, "all"@)
    &&& !record.contains_key("availability_topic"@)
}

/// How long an entity of a topic stays available without an update: 390 seconds
/// on the clock's topic, 60 on every other.
pub open spec fn stays_for(kind: TopicKind) -> int {
    if kind is Clock {
        390
    } else {
        60
    }
}

proof fn lemma_both_statuses()
    ensures
        is_status_of(status_record(PLC_AVAILABILITY_TOPIC@), "plc/aquarium/status"@),
        is_status_of(status_record(AVAILABILITY_TOPIC@), "reef/plc/status"@),
{
    lemma_key_literals();
    reveal_strlit("topic");
}

/// Every entity but the PLC's own connectivity depends on both status topics,
/// and every one of these but a light expires: 390 seconds after the last update
/// on the clock's topic, 60 seconds after it on any other.
pub proof fn data_entities_need_both_clients(spec: TopicSpec, field: Field)
    ensures
        depends_on_both(field_record(spec, field)),
        depends_on_both(topic_health_record(spec)),
        depends_on_both(clock_offset_record(spec)),
        field.discovery.domain is Light ==> !field_record(spec, field).contains_key(
            "expire_after"@,
        ),
        !(field.discovery.domain is Light) ==> holds_number(
            field_record(spec, field),
            "expire_after"@,
            stays_for(spec.kind),
        ),
        holds_number(topic_health_record(spec), "expire_after"@, stays_for(spec.kind)),
        holds_number(clock_offset_record(spec), "expire_after"@, stays_for(spec.kind)),
{
    fields_need_both_statuses(spec, field);
    topics_need_both_statuses(spec);
    lemma_both_statuses();
}

/// The health of a topic is on with every state that comes, whatever it holds:
/// its template yields its payload for on. What else its record says is fixed.
pub proof fn topics_are_online_with_every_state(spec: TopicSpec)
    ensures
        ({
            let record = topic_health_record(spec);
            &&& holds_text(
                record,
                "unique_id"@,
                "reef_plc"@ + "_"@ + (kind_name(spec.kind) + "_topic_online"@),
            )
            &&& holds_text(record, "name"@, kind_title(spec.kind) + " Topic Online"@)
            &&& holds_text(record, "state_topic"@, spec.state_topic@)
            &&& holds_text(record, "payload_on"@, "ON"@)
            &&& record["value_template"@] == record["payload_on"@]
            &&& holds_text(record, "device_class"@, "connectivity"@)
            &&& holds_text(record, "entity_category"@, "diagnostic"@)
            &&& forall|key: Seq<char>| #[trigger]
                record.contains_key(key) ==> key == "unique_id"@ || key == "name"@ || key
                    == "state_topic"@ || key == "value_template"@ || key == "payload_on"@ || key
                    == "expire_after"@ || key == "device_class"@ || key == "entity_category"@ || key
                    == "device"@ || key == "origin"@ || key == "availability"@ || key
                    == "availability_mode"@
        }),
{
    lemma_key_literals();
}

/// The clock offset is shown in seconds, as a measurement with one place, from
/// the member of the clock's state that holds it.
pub proof fn clock_offset_is_shown_in_seconds(spec: TopicSpec)
    ensures
        ({
            let record = clock_offset_record(spec);
            &&& holds_text(record, "unique_id"@, "reef_plc"@ + "_"@ + "clock_offset_seconds"@)
            &&& holds_text(record, "name"@, "Clock Offset"@)
            &&& holds_text(record, "state_topic"@, spec.state_topic@)
            &&& holds_text(
                record,
                "value_template"@,
                "{{ value_json["@ + json_quoted("Clock_Offset_Seconds"@) + "] }}"@,
            )
            &&& holds_text(record, "unit_of_measurement"@, "s"@)
            &&& holds_text(record, "state_class"@, "measurement"@)
            &&& holds_number(record, "suggested_display_precision"@, 1)
            &&& holds_text(record, "entity_category"@, "diagnostic"@)
            &&& forall|key: Seq<char>| #[trigger]
                record.contains_key(key) ==> key == "unique_id"@ || key == "name"@ || key
                    == "state_topic"@ || key == "value_template"@ || key == "unit_of_measurement"@
                    || key == "state_class"@ || key == "suggested_display_precision"@ || key
                    == "expire_after"@ || key == "entity_category"@ || key == "device"@ || key
                    == "origin"@ || key == "availability"@ || key == "availability_mode"@
        }),
{
    lemma_key_literals();
}

/// The PLC is connected exactly while its own status topic says `online`. The
/// entity is there while the normalizer's status says so, and never expires.
pub proof fn connectivity_follows_the_status_of_the_plc()
    ensures
        ({
            let record = connectivity_record();
            &&& holds_text(record, "unique_id"@, "reef_plc"@ + "_"@ + "mqtt_connected"@)
            &&& holds_text(record, "name"@, "MQTT Connected"@)
            &&& holds_text(record, "state_topic"@, "plc/aquarium/status"@)
            &&& holds_text(record, "payload_on"@, "online"@)
            &&& holds_text(record, "payload_off"@, "offline"@)
            &&& holds_text(record, "availability_topic"@, "reef/plc/status"@)
            &&& holds_text(record, "payload_available"@, "online"@)
            &&& holds_text(record, "payload_not_available"@, "offline"@)
            &&& holds_text(record, "device_class"@, "connectivity"@)
            &&& holds_text(record, "entity_category"@, "diagnostic"@)
            &&& forall|key: Seq<char>| #[trigger]
                record.contains_key(key) ==> key == "unique_id"@ || key == "name"@ || key
                    == "state_topic"@ || key == "payload_on"@ || key == "payload_off"@ || key
                    == "availability_topic"@ || key == "payload_available"@ || key
                    == "payload_not_available"@ || key == "device_class"@ || key
                    == "entity_category"@ || key == "device"@ || key == "origin"@
        }),
{
    lemma_key_literals();
}

/// The record of a field says nothing but what it is, how its state is read and
/// commanded, how it is shown, and when it is available.
pub proof fn field_records_say_nothing_else(spec: TopicSpec, field: Field, key: Seq<char>)
    requires
        field_record(spec, field).contains_key(key),
    ensures
        is_field_key(key),
{
}

/// Whether a key can stand in the record of a field.
pub open spec fn is_field_key(key: Seq<char>) -> bool {
    ||| key == "unique_id"@
    ||| key == "name"@
    ||| key == "state_topic"@
    ||| key == "availability"@
    ||| key == "availability_mode"@
    ||| key == "expire_after"@
    ||| key == "value_template"@
    ||| key == "state_value_template"@
    ||| key == "payload_on"@
    ||| key == "payload_off"@
    ||| key == "command_topic"@
    ||| key == "optimistic"@
    ||| key == "qos"@
    ||| key == "retain"@
    ||| key == "options"@
    ||| key == "min"@
    ||| key == "max"@
    ||| key == "default_entity_id"@
    ||| key == "unit_of_measurement"@
    ||| key == "device_class"@
    ||| key == "state_class"@
    ||| key == "suggested_display_precision"@
    ||| key == "entity_category"@
    ||| key == "enabled_by_default"@
    ||| key == "device"@
    ||| key == "origin"@
}

/// The topic of an entity's record: the discovery prefix, the entity's
/// domain, its unique id and `config`, parted by slashes.
pub open spec fn record_topic(prefix: Seq<char>, domain: Domain, id: Seq<char>) -> Seq<char> {
    let name = match domain {
        Domain::BinarySensor => "binary_sensor"@,
        Domain::Light => "light"@,
        Domain::Switch => "switch"@,
        Domain::Select => "select"@,
        Domain::Number => "number"@,
        Domain::Sensor => "sensor"@,
    };
    prefix + "/"@ + name + "/"@ + id + "/config"@
}

/// Every record is announced under the discovery prefix, in its entity's domain
/// and under its unique id; a removed one is removed from the same place.
pub proof fn records_go_to_their_topics(
    options: AppOptions,
    layout: Layout,
    spec: TopicSpec,
    field: Field,
)
    ensures
        ({
            let prefix = options.discovery_prefix@;
            let id = component_id_of(field);
            &&& field_message(prefix, spec, field) == (
                record_topic(prefix, field.discovery.domain, "reef_plc"@ + "_"@ + id),
                Json::Object(field_record(spec, field)),
            )
            &&& topic_health_message(prefix, spec) == (
                record_topic(
                    prefix,
                    Domain::BinarySensor,
                    "reef_plc"@ + "_"@ + (kind_name(spec.kind) + "_topic_online"@),
                ),
                Json::Object(topic_health_record(spec)),
            )
            &&& clock_offset_message(prefix, spec) == (
                record_topic(prefix, Domain::Sensor, "reef_plc"@ + "_"@ + "clock_offset_seconds"@),
                Json::Object(clock_offset_record(spec)),
            )
            &&& connectivity_message(prefix) == (
                record_topic(prefix, Domain::BinarySensor, "reef_plc"@ + "_"@ + "mqtt_connected"@),
                Json::Object(connectivity_record()),
            )
            &&& removed_topics(options, layout).len() == layout.removed_discovery@.len()
            &&& forall|i: int|
                0 <= i < layout.removed_discovery@.len() ==> #[trigger] removed_topics(
                    options,
                    layout,
                )[i] == record_topic(
                    prefix,
                    layout.removed_discovery@[i].domain,
                    layout.removed_discovery@[i].object_id@,
                )
        }),
{
}

/// How many records a topic announces: its health, the clock's offset, and its
/// fields unless they are raw analog inputs that the options leave out.
pub open spec fn entities_of(options: AppOptions, spec: TopicSpec) -> nat {
    1 + (if spec.kind is Clock {
        1nat
    } else {
        0
    }) + (if spec.kind is Ai && !options.publish_diagnostic_ai {
        0
    } else {
        spec.fields@.len()
    })
}

/// How many records the PLC and the first `n` topics announce.
pub open spec fn entities_before(options: AppOptions, layout: Layout, n: int) -> nat
    decreases n,
{
    if n <= 0 {
        1
    } else {
        entities_before(options, layout, n - 1) + entities_of(options, layout.topics@[n - 1])
    }
}

proof fn lemma_entities_before(options: AppOptions, layout: Layout, n: int)
    requires
        0 <= n,
    ensures
        messages_of(options, layout, n).len() == entities_before(options, layout, n),
        messages_of(options, layout, n)[0] == connectivity_message(options.discovery_prefix@),
    decreases n,
{
    if n > 0 {
        lemma_entities_before(options, layout, n - 1);
        let spec = layout.topics@[n - 1];
        assert(topic_messages(options, spec).len() == entities_of(options, spec));
    }
}

/// The records are announced in the order of the layout, each once: first the
/// PLC's connectivity, then for each topic its health, the offset where it is
/// the clock, and its fields. The fields of a topic of raw analog inputs are
/// left out unless the options ask for them, and no other field is. Nothing
/// else is announced.
pub proof fn entities_are_announced_in_order(options: AppOptions, layout: Layout, t: int)
    requires
        0 <= t < layout.topics@.len(),
    ensures
        ({
            let messages = all_messages(options, layout);
            let prefix = options.discovery_prefix@;
            let spec = layout.topics@[t];
            let start = entities_before(options, layout, t) as int;
            let fields = start + (if spec.kind is Clock {
                2int
            } else {
                1
            });
            &&& messages.len() == entities_before(options, layout, layout.topics@.len() as int)
            &&& messages[0] == connectivity_message(prefix)
            &&& start + entities_of(options, spec) <= messages.len()
            &&& messages[start] == topic_health_message(prefix, spec)
            &&& spec.kind is Clock ==> messages[start + 1] == clock_offset_message(prefix, spec)
            &&& !(spec.kind is Ai) || options.publish_diagnostic_ai ==> forall|f: int|
                0 <= f < spec.fields@.len() ==> messages[fields + f] == #[trigger] field_message(
                    prefix,
                    spec,
                    spec.fields@[f],
                )
        }),
{
    let end = layout.topics@.len() as int;
    let prefix = options.discovery_prefix@;
    let spec = layout.topics@[t];
    let start = entities_before(options, layout, t) as int;
    let fields = start + (if spec.kind is Clock {
        2int
    } else {
        1
    });
    lemma_entities_before(options, layout, end);
    lemma_entities_before(options, layout, t);
    lemma_entities_before(options, layout, t + 1);
    let with = messages_of(options, layout, t + 1);
    assert(with == messages_of(options, layout, t) + topic_messages(options, spec));
    assert forall|i: int| start <= i < with.len() implies all_messages(options, layout)[i]
        == #[trigger] topic_messages(options, spec)[i - start] by {
        lemma_messages_of_grow(options, layout, t + 1, end, i);
        assert(with[i] == topic_messages(options, spec)[i - start]);
    }
    lemma_messages_of_grow(options, layout, t + 1, end, with.len() - 1);
    assert(topic_messages(options, spec)[0] == topic_health_message(prefix, spec));
    assert(all_messages(options, layout)[start] == topic_messages(options, spec)[start - start]);
    if spec.kind is Clock {
        assert(topic_messages(options, spec)[1] == clock_offset_message(prefix, spec));
        assert(all_messages(options, layout)[start + 1] == topic_messages(options, spec)[start + 1
            - start]);
    }
    if !(spec.kind is Ai) || options.publish_diagnostic_ai {
        assert forall|f: int| 0 <= f < spec.fields@.len() implies all_messages(
            options,
            layout,
        )[fields + f] == #[trigger] field_message(prefix, spec, spec.fields@[f]) by {
            assert(all_messages(options, layout)[fields + f] == topic_messages(
                options,
                spec,
            )[fields + f - start]);
        }
    }
}

/// Every kind of topic has a name of its own in ids and a title in names: the
/// title spells the name, with a space for its underscore, in capitals where it
/// abbreviates.
pub proof fn kinds_are_named_and_titled(kind: TopicKind)
    ensures
        derived_component_id(kind_title(kind)) == kind_name(kind),
        (kind is Di || kind is Do || kind is Ai || kind is Ato || kind is Gmp40)
            ==> uppered(kind_title(kind)) == kind_title(kind),
        kind is Di ==> kind_name(kind) == "di"@,
        kind is Do ==> kind_name(kind) == "do"@,
        kind is Ai ==> kind_name(kind) == "ai"@,
        kind is Ato ==> kind_name(kind) == "ato"@,
        kind is Gmp40 ==> kind_name(kind) == "gmp40"@,
        kind is Inputs ==> kind_title(kind) == "Inputs"@,
        kind is Alarms ==> kind_title(kind) == "Alarms"@,
        kind is TimeSync ==> kind_title(kind) == "Time Sync"@,
        kind is Clock ==> kind_title(kind) == "Clock"@,
{
    reveal_strlit("di");
    reveal_strlit("do");
    reveal_strlit("ai");
    reveal_strlit("inputs");
    reveal_strlit("alarms");
    reveal_strlit("ato");
    reveal_strlit("time_sync");
    reveal_strlit("gmp40");
    reveal_strlit("clock");
    reveal_strlit("DI");
    reveal_strlit("DO");
    reveal_strlit("AI");
    reveal_strlit("Inputs");
    reveal_strlit("Alarms");
    reveal_strlit("ATO");
    reveal_strlit("Time Sync");
    reveal_strlit("GMP40");
    reveal_strlit("Clock");
    assert(derived_component_id(kind_title(kind)) =~= kind_name(kind));
    if kind is Di || kind is Do || kind is Ai || kind is Ato || kind is Gmp40 {
        assert(uppered(kind_title(kind)) =~= kind_title(kind));
    }
}

} // verus!
