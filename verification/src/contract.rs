//! The MQTT contract generated from the PLC source, and the check that the
//! layout agrees with it.

use vstd::prelude::*;
use vstd::string::*;

use crate::layout::{Domain, Field, Layout, TopicSpec, ValueType};
use crate::numeral::{append_decimal, decimal};
use crate::text::{chars_of, concat3, ends_with, has_suffix, text_eq};
use crate::PLC_AVAILABILITY_TOPIC;

verus! {

/// The MQTT contract of the PLC.
#[derive(Debug)]
pub struct PlcContract {
    pub schema_version: u64,
    pub generated_by: String,
    pub source: ContractSource,
    pub mqtt: MqttContract,
    pub packed_payloads: Vec<PackedPayload>,
}

/// The PLC source that a contract was generated from.
#[derive(Debug)]
pub struct ContractSource {
    pub file: String,
    pub sha256: String,
}

/// What the PLC publishes and subscribes to.
#[derive(Debug)]
pub struct MqttContract {
    pub last_will: LastWill,
    pub publishers: Vec<Publisher>,
    pub subscribers: Vec<Subscriber>,
}

/// The last will of the PLC's MQTT client.
#[derive(Debug)]
pub struct LastWill {
    pub enabled: bool,
    pub qos: u8,
    pub retain: bool,
    pub topic: String,
    pub payload: String,
}

/// Topics that the PLC publishes at one interval.
#[derive(Debug)]
pub struct Publisher {
    pub interval_seconds: u64,
    pub qos: u8,
    pub mappings: Vec<MqttMapping>,
}

/// Topics that the PLC subscribes to.
#[derive(Debug)]
pub struct Subscriber {
    pub qos: u8,
    pub mappings: Vec<MqttMapping>,
}

/// One topic of a publisher or a subscriber.
#[derive(Debug)]
pub struct MqttMapping {
    pub topic: String,
    pub retain: Option<bool>,
}

/// The fields that the PLC packs into one topic.
#[derive(Debug)]
pub struct PackedPayload {
    pub topic: String,
    pub fields: Vec<PackedField>,
}

/// One field that the PLC packs.
#[derive(Debug)]
pub struct PackedField {
    pub source: String,
    pub length: usize,
    pub wire_type: String,
}

/// Why a contract does not agree with the layout.
#[derive(Debug)]
pub enum ContractError {
    UnsupportedSchema,
    UnexpectedGenerator,
    InvalidProvenance,
    MissingLastWill,
    DuplicatePublication { topic: String },
    MissingPublication { topic: String },
    PublicationDiffers { topic: String },
    StatusNotRetained,
    SubscriptionQos,
    MissingSubscription { topic: String },
    MissingPayload { topic: String },
    FieldCountDiffers { topic: String, plc: usize, normalizer: usize },
    FieldDiffers {
        topic: String,
        plc_source: String,
        plc_length: usize,
        source: String,
        length: usize,
    },
    FieldTypeDiffers {
        topic: String,
        plc_source: String,
        wire_type: String,
        value_type: ValueType,
    },
    LightNotBool,
}

/// What a contract and the layout disagree on.
#[verifier::ext_equal]
pub enum ContractFault {
    UnsupportedSchema,
    UnexpectedGenerator,
    InvalidProvenance,
    MissingLastWill,
    DuplicatePublication { topic: Seq<char> },
    MissingPublication { topic: Seq<char> },
    PublicationDiffers { topic: Seq<char> },
    StatusNotRetained,
    SubscriptionQos,
    MissingSubscription { topic: Seq<char> },
    MissingPayload { topic: Seq<char> },
    FieldCountDiffers { topic: Seq<char>, plc: nat, normalizer: nat },
    FieldDiffers {
        topic: Seq<char>,
        plc_source: Seq<char>,
        plc_length: nat,
        source: Seq<char>,
        length: nat,
    },
    FieldTypeDiffers {
        topic: Seq<char>,
        plc_source: Seq<char>,
        wire_type: Seq<char>,
        value_type: ValueType,
    },
    LightNotBool,
}

impl View for ContractError {
    type V = ContractFault;

    open spec fn view(&self) -> ContractFault {
        match *self {
            ContractError::UnsupportedSchema => ContractFault::UnsupportedSchema,
            ContractError::UnexpectedGenerator => ContractFault::UnexpectedGenerator,
            ContractError::InvalidProvenance => ContractFault::InvalidProvenance,
            ContractError::MissingLastWill => ContractFault::MissingLastWill,
            ContractError::DuplicatePublication { topic } => ContractFault::DuplicatePublication {
                topic: topic@,
            },
            ContractError::MissingPublication { topic } => ContractFault::MissingPublication {
                topic: topic@,
            },
            ContractError::PublicationDiffers { topic } => ContractFault::PublicationDiffers {
                topic: topic@,
            },
            ContractError::StatusNotRetained => ContractFault::StatusNotRetained,
            ContractError::SubscriptionQos => ContractFault::SubscriptionQos,
            ContractError::MissingSubscription { topic } => ContractFault::MissingSubscription {
                topic: topic@,
            },
            ContractError::MissingPayload { topic } => ContractFault::MissingPayload {
                topic: topic@,
            },
            ContractError::FieldCountDiffers { topic, plc, normalizer } =>
                ContractFault::FieldCountDiffers {
                topic: topic@,
                plc: plc as nat,
                normalizer: normalizer as nat,
            },
            ContractError::FieldDiffers { topic, plc_source, plc_length, source, length } =>
                ContractFault::FieldDiffers {
                topic: topic@,
                plc_source: plc_source@,
                plc_length: plc_length as nat,
                source: source@,
                length: length as nat,
            },
            ContractError::FieldTypeDiffers { topic, plc_source, wire_type, value_type } =>
                ContractFault::FieldTypeDiffers {
                topic: topic@,
                plc_source: plc_source@,
                wire_type: wire_type@,
                value_type,
            },
            ContractError::LightNotBool => ContractFault::LightNotBool,
        }
    }
}

/// Whether `c` is a hexadecimal digit.
pub open spec fn is_hex_digit(c: char) -> bool {
    '0' <= c <= '9' || 'a' <= c <= 'f' || 'A' <= c <= 'F'
}

/// Whether `text` is a SHA-256 digest in hexadecimal.
pub open spec fn is_sha256(text: Seq<char>) -> bool {
    text.len() == 64 && forall|i: int| 0 <= i < text.len() ==> is_hex_digit(#[trigger] text[i])
}

/// Whether the last will is the retained offline status that availability
/// relies on.
pub open spec fn is_required_last_will(last_will: LastWill) -> bool {
    &&& last_will.enabled
    &&& last_will.topic@ == PLC_AVAILABILITY_TOPIC@
    &&& last_will.payload@ == "offline"@
    &&& last_will.qos == 1
    &&& last_will.retain
}

/// What is wrong with the contract itself.
pub open spec fn header_fault(contract: PlcContract) -> Option<ContractFault> {
    if contract.schema_version != 1 {
        Some(ContractFault::UnsupportedSchema)
    } else if contract.generated_by@ != "aquarium-controller-plc-mqtt-contract"@ {
        Some(ContractFault::UnexpectedGenerator)
    } else if contract.source.file@ != "aquarium_controller.adpro"@ || !is_sha256(
        contract.source.sha256@,
    ) {
        Some(ContractFault::InvalidProvenance)
    } else if !is_required_last_will(contract.mqtt.last_will) {
        Some(ContractFault::MissingLastWill)
    } else {
        None
    }
}

/// One topic that the PLC publishes.
#[verifier::ext_equal]
pub struct Publication {
    pub topic: Seq<char>,
    pub interval_seconds: u64,
    pub qos: u8,
    pub retain: Option<bool>,
}

/// What one publisher publishes.
pub open spec fn publications_of(publisher: Publisher) -> Seq<Publication> {
    publisher.mappings@.map_values(
        |mapping: MqttMapping|
            Publication {
                topic: mapping.topic@,
                interval_seconds: publisher.interval_seconds,
                qos: publisher.qos,
                retain: mapping.retain,
            },
    )
}

/// What the first `n` publishers publish, in order.
pub open spec fn publications(publishers: Seq<Publisher>, n: int) -> Seq<Publication>
    decreases n,
{
    if n <= 0 {
        Seq::empty()
    } else {
        publications(publishers, n - 1) + publications_of(publishers[n - 1])
    }
}

/// Everything that the PLC publishes, in order.
pub open spec fn all_publications(contract: PlcContract) -> Seq<Publication> {
    publications(contract.mqtt.publishers@, contract.mqtt.publishers@.len() as int)
}

/// The first publication from `i` on whose topic an earlier one has.
pub open spec fn duplicate_fault_from(published: Seq<Publication>, i: int) -> Option<ContractFault>
    decreases published.len() - i,
{
    if 0 <= i < published.len() {
        if exists|j: int| 0 <= j < i && (#[trigger] published[j]).topic == published[i].topic {
            Some(ContractFault::DuplicatePublication { topic: published[i].topic })
        } else {
            duplicate_fault_from(published, i + 1)
        }
    } else {
        None
    }
}

/// The publication of a topic, from `i` on.
pub open spec fn publication_from(published: Seq<Publication>, topic: Seq<char>, i: int) -> Option<
    Publication,
>
    decreases published.len() - i,
{
    if 0 <= i < published.len() {
        if published[i].topic == topic {
            Some(published[i])
        } else {
            publication_from(published, topic, i + 1)
        }
    } else {
        None
    }
}

/// Whether a topic carries the PLC clock.
pub open spec fn is_clock_topic(topic: Seq<char>) -> bool {
    has_suffix(topic, "/clock"@)
}

/// The interval at which the PLC is to publish a topic.
pub open spec fn expected_interval(topic: Seq<char>) -> u64 {
    if is_clock_topic(topic) {
        300
    } else if has_suffix(topic, "/gmp40_1"@) {
        1
    } else {
        10
    }
}

/// The quality of service with which the PLC is to publish a topic.
pub open spec fn expected_qos(topic: Seq<char>) -> u8 {
    if is_clock_topic(topic) {
        1
    } else {
        0
    }
}

/// What is wrong with how the PLC publishes a topic of the layout.
pub open spec fn publication_fault(published: Seq<Publication>, topic: Seq<char>) -> Option<
    ContractFault,
> {
    match publication_from(published, topic, 0) {
        None => Some(ContractFault::MissingPublication { topic }),
        Some(publication) => if publication.interval_seconds == expected_interval(topic)
            && publication.qos == expected_qos(topic) && publication.retain == Some(false) {
            None
        } else {
            Some(ContractFault::PublicationDiffers { topic })
        },
    }
}

/// The first fault in how the PLC publishes the topics from `t` on.
pub open spec fn publication_fault_from(
    published: Seq<Publication>,
    layout: Layout,
    t: int,
) -> Option<ContractFault>
    decreases layout.topics@.len() - t,
{
    if 0 <= t < layout.topics@.len() {
        match publication_fault(published, layout.topics@[t].source_topic@) {
            Some(fault) => Some(fault),
            None => publication_fault_from(published, layout, t + 1),
        }
    } else {
        None
    }
}

/// Whether the PLC publishes its online status, retained.
pub open spec fn publishes_status(published: Seq<Publication>) -> bool {
    publication_from(published, PLC_AVAILABILITY_TOPIC@, 0) == Some(
        Publication {
            topic: PLC_AVAILABILITY_TOPIC@,
            interval_seconds: 10,
            qos: 0,
            retain: Some(true),
        },
    )
}

/// What is wrong with what the PLC publishes.
pub open spec fn publishing_fault(contract: PlcContract, layout: Layout) -> Option<ContractFault> {
    let published = all_publications(contract);
    match duplicate_fault_from(published, 0) {
        Some(fault) => Some(fault),
        None => match publication_fault_from(published, layout, 0) {
            Some(fault) => Some(fault),
            None => if publishes_status(published) {
                None
            } else {
                Some(ContractFault::StatusNotRetained)
            },
        },
    }
}

/// Whether the PLC subscribes to a topic.
pub open spec fn is_subscribed(contract: PlcContract, topic: Seq<char>) -> bool {
    exists|s: int, m: int|
        #![trigger contract.mqtt.subscribers@[s].mappings@[m]]
        0 <= s < contract.mqtt.subscribers@.len() && 0 <= m
            < contract.mqtt.subscribers@[s].mappings@.len()
            && contract.mqtt.subscribers@[s].mappings@[m].topic@ == topic
}

/// The topic on which the PLC itself takes the commands of a field, where it
/// takes any and the normalizer does not encode them.
pub open spec fn direct_command_topic(field: Field) -> Option<Seq<char>> {
    if field.discovery.command_mask is None {
        match field.discovery.command_topic {
            Some(topic) => Some(topic@),
            None => None,
        }
    } else {
        None
    }
}

/// The first field from `f` on whose command topic the PLC does not subscribe
/// to.
pub open spec fn field_command_fault_from(
    contract: PlcContract,
    spec: TopicSpec,
    f: int,
) -> Option<ContractFault>
    decreases spec.fields@.len() - f,
{
    if 0 <= f < spec.fields@.len() {
        match direct_command_topic(spec.fields@[f]) {
            Some(topic) if !is_subscribed(contract, topic) => Some(
                ContractFault::MissingSubscription { topic },
            ),
            _ => field_command_fault_from(contract, spec, f + 1),
        }
    } else {
        None
    }
}

/// The first command topic of the topics from `t` on that the PLC does not
/// subscribe to: of each topic the one for encoded commands, then those of its
/// fields.
pub open spec fn command_fault_from(contract: PlcContract, layout: Layout, t: int) -> Option<
    ContractFault,
>
    decreases layout.topics@.len() - t,
{
    if 0 <= t < layout.topics@.len() {
        let spec = layout.topics@[t];
        match spec.raw_command_topic {
            Some(topic) if !is_subscribed(contract, topic@) => Some(
                ContractFault::MissingSubscription { topic: topic@ },
            ),
            _ => match field_command_fault_from(contract, spec, 0) {
                Some(fault) => Some(fault),
                None => command_fault_from(contract, layout, t + 1),
            },
        }
    } else {
        None
    }
}

/// What is wrong with what the PLC subscribes to.
pub open spec fn subscribing_fault(contract: PlcContract, layout: Layout) -> Option<ContractFault> {
    if exists|s: int|
        0 <= s < contract.mqtt.subscribers@.len() && (#[trigger] contract.mqtt.subscribers@[s]).qos
            != 1 {
        Some(ContractFault::SubscriptionQos)
    } else {
        command_fault_from(contract, layout, 0)
    }
}

/// The last of the first `n` packed payloads that is for the given topic.
pub open spec fn payload_index(payloads: Seq<PackedPayload>, topic: Seq<char>, n: int) -> Option<int>
    decreases n,
{
    if n <= 0 {
        None
    } else if payloads[n - 1].topic@ == topic {
        Some(n - 1)
    } else {
        payload_index(payloads, topic, n - 1)
    }
}

/// The PLC's tag of a field.
pub open spec fn plc_tag(field: Field) -> Seq<char> {
    match field.plc_source {
        Some(tag) => tag@,
        None => field.source@,
    }
}

/// The name of a value type in a contract.
pub open spec fn wire_type_name(value_type: ValueType) -> Seq<char> {
    match value_type {
        ValueType::Bool => "bool"@,
        ValueType::Float => "float"@,
        ValueType::Int => "int"@,
        ValueType::Timestamp => "timestamp"@,
    }
}

/// Whether a field can be read from a wire type: the same type, or the other
/// number type.
pub open spec fn is_compatible(wire_type: Seq<char>, value_type: ValueType) -> bool {
    ||| wire_type == wire_type_name(value_type)
    ||| wire_type == "int"@ && value_type == ValueType::Float
    ||| wire_type == "float"@ && value_type == ValueType::Int
}

/// What a packed field and the layout's field disagree on.
pub open spec fn packed_field_fault(topic: Seq<char>, plc: PackedField, field: Field) -> Option<
    ContractFault,
> {
    if plc.source@ != plc_tag(field) || plc.length != field.length {
        Some(
            ContractFault::FieldDiffers {
                topic,
                plc_source: plc.source@,
                plc_length: plc.length as nat,
                source: plc_tag(field),
                length: field.length as nat,
            },
        )
    } else if !is_compatible(plc.wire_type@, field.value_type) {
        Some(
            ContractFault::FieldTypeDiffers {
                topic,
                plc_source: plc.source@,
                wire_type: plc.wire_type@,
                value_type: field.value_type,
            },
        )
    } else if field.discovery.domain == Domain::Light && field.value_type != ValueType::Bool {
        Some(ContractFault::LightNotBool)
    } else {
        None
    }
}

/// The first field from `f` on that a packed payload and the layout disagree
/// on.
pub open spec fn packed_field_fault_from(payload: PackedPayload, spec: TopicSpec, f: int) -> Option<
    ContractFault,
>
    decreases spec.fields@.len() - f,
{
    if 0 <= f < spec.fields@.len() {
        match packed_field_fault(spec.source_topic@, payload.fields@[f], spec.fields@[f]) {
            Some(fault) => Some(fault),
            None => packed_field_fault_from(payload, spec, f + 1),
        }
    } else {
        None
    }
}

/// What the packed payload of a topic and the layout disagree on. The clock is
/// not packed.
pub open spec fn packed_fault(payloads: Seq<PackedPayload>, spec: TopicSpec) -> Option<
    ContractFault,
> {
    if is_clock_topic(spec.source_topic@) {
        None
    } else {
        match payload_index(payloads, spec.source_topic@, payloads.len() as int) {
            None => Some(ContractFault::MissingPayload { topic: spec.source_topic@ }),
            Some(p) => if payloads[p].fields@.len() != spec.fields@.len() {
                Some(
                    ContractFault::FieldCountDiffers {
                        topic: spec.source_topic@,
                        plc: payloads[p].fields@.len(),
                        normalizer: spec.fields@.len(),
                    },
                )
            } else {
                packed_field_fault_from(payloads[p], spec, 0)
            },
        }
    }
}

/// The first disagreement on the packed payloads of the topics from `t` on.
pub open spec fn packed_fault_from(payloads: Seq<PackedPayload>, layout: Layout, t: int) -> Option<
    ContractFault,
>
    decreases layout.topics@.len() - t,
{
    if 0 <= t < layout.topics@.len() {
        match packed_fault(payloads, layout.topics@[t]) {
            Some(fault) => Some(fault),
            None => packed_fault_from(payloads, layout, t + 1),
        }
    } else {
        None
    }
}

/// The first thing that the contract and the layout disagree on: the contract
/// itself, then what is published, subscribed to and packed.
pub open spec fn contract_fault(contract: PlcContract, layout: Layout) -> Option<ContractFault> {
    match header_fault(contract) {
        Some(fault) => Some(fault),
        None => match publishing_fault(contract, layout) {
            Some(fault) => Some(fault),
            None => match subscribing_fault(contract, layout) {
                Some(fault) => Some(fault),
                None => packed_fault_from(contract.packed_payloads@, layout, 0),
            },
        },
    }
}

fn check_sha256(text: &str) -> (is: bool)
    ensures
        is == is_sha256(text@),
{
    let chars = chars_of(text);
    if chars.len() != 64 {
        return false;
    }
    let mut i: usize = 0;
    while i < chars.len()
        invariant
            chars@ == text@,
            i <= chars@.len(),
            forall|j: int| 0 <= j < i ==> is_hex_digit(#[trigger] chars@[j]),
        decreases chars@.len() - i,
    {
        let c = chars[i];
        let hex = ('0' <= c && c <= '9') || ('a' <= c && c <= 'f') || ('A' <= c && c <= 'F');
        if !hex {
            return false;
        }
        i += 1;
    }
    true
}

fn check_header(contract: &PlcContract) -> (result: Result<(), ContractError>)
    ensures
        result is Ok <==> header_fault(*contract) is None,
        result matches Err(error) ==> header_fault(*contract) == Some(error@),
{
    if contract.schema_version != 1 {
        return Err(ContractError::UnsupportedSchema);
    }
    if !text_eq(contract.generated_by.as_str(), "aquarium-controller-plc-mqtt-contract") {
        return Err(ContractError::UnexpectedGenerator);
    }
    if !text_eq(contract.source.file.as_str(), "aquarium_controller.adpro") || !check_sha256(
        contract.source.sha256.as_str(),
    ) {
        return Err(ContractError::InvalidProvenance);
    }
    let last_will = &contract.mqtt.last_will;
    if !(last_will.enabled && text_eq(last_will.topic.as_str(), PLC_AVAILABILITY_TOPIC) && text_eq(
        last_will.payload.as_str(),
        "offline",
    ) && last_will.qos == 1 && last_will.retain) {
        return Err(ContractError::MissingLastWill);
    }
    Ok(())
}

/// One topic that the PLC publishes.
struct PublishedTopic {
    topic: String,
    interval_seconds: u64,
    qos: u8,
    retain: Option<bool>,
}

impl View for PublishedTopic {
    type V = Publication;

    closed spec fn view(&self) -> Publication {
        Publication {
            topic: self.topic@,
            interval_seconds: self.interval_seconds,
            qos: self.qos,
            retain: self.retain,
        }
    }
}

spec fn published_view(published: Seq<PublishedTopic>) -> Seq<Publication> {
    published.map_values(|entry: PublishedTopic| entry@)
}

fn collect_publications(contract: &PlcContract) -> (published: Vec<PublishedTopic>)
    ensures
        published_view(published@) == all_publications(*contract),
{
    let publishers = &contract.mqtt.publishers;
    let mut published: Vec<PublishedTopic> = Vec::new();
    let mut p: usize = 0;
    assert(published_view(published@) =~= publications(publishers@, 0));
    while p < publishers.len()
        invariant
            *publishers == contract.mqtt.publishers,
            p <= publishers@.len(),
            published_view(published@) == publications(publishers@, p as int),
        decreases publishers@.len() - p,
    {
        let publisher = &publishers[p];
        let mut m: usize = 0;
        assert(publications_of(*publisher).take(0) =~= Seq::empty());
        while m < publisher.mappings.len()
            invariant
                *publishers == contract.mqtt.publishers,
                p < publishers@.len(),
                *publisher == publishers@[p as int],
                m <= publisher.mappings@.len(),
                published_view(published@) == publications(publishers@, p as int)
                    + publications_of(*publisher).take(m as int),
            decreases publisher.mappings@.len() - m,
        {
            let mapping = &publisher.mappings[m];
            let entry = PublishedTopic {
                topic: mapping.topic.clone(),
                interval_seconds: publisher.interval_seconds,
                qos: publisher.qos,
                retain: mapping.retain,
            };
            assert(entry@ == publications_of(*publisher)[m as int]);
            let ghost before = published@;
            published.push(entry);
            assert(published_view(published@) =~= published_view(before).push(entry@));
            assert(publications_of(*publisher).take(m + 1) =~= publications_of(*publisher).take(
                m as int,
            ).push(entry@));
            m += 1;
        }
        assert(publications_of(*publisher).take(m as int) =~= publications_of(*publisher));
        p += 1;
    }
    published
}

fn check_duplicates(published: &Vec<PublishedTopic>) -> (result: Result<(), ContractError>)
    ensures
        result is Ok <==> duplicate_fault_from(published_view(published@), 0) is None,
        result matches Err(error) ==> duplicate_fault_from(published_view(published@), 0) == Some(
            error@,
        ),
{
    let ghost view = published_view(published@);
    let mut i: usize = 0;
    while i < published.len()
        invariant
            view == published_view(published@),
            i <= published@.len(),
            duplicate_fault_from(view, 0) == duplicate_fault_from(view, i as int),
        decreases published@.len() - i,
    {
        let topic = published[i].topic.as_str();
        assert(view[i as int] == published@[i as int]@);
        let mut j: usize = 0;
        while j < i
            invariant
                view == published_view(published@),
                j <= i < published@.len(),
                topic@ == view[i as int].topic,
                duplicate_fault_from(view, 0) == duplicate_fault_from(view, i as int),
                forall|k: int| 0 <= k < j ==> (#[trigger] view[k]).topic != view[i as int].topic,
            decreases i - j,
        {
            assert(view[j as int] == published@[j as int]@);
            if text_eq(published[j].topic.as_str(), topic) {
                return Err(ContractError::DuplicatePublication { topic: topic.to_owned() });
            }
            j += 1;
        }
        i += 1;
    }
    Ok(())
}

fn find_publication(published: &Vec<PublishedTopic>, topic: &str) -> (found: Option<
    (u64, u8, Option<bool>),
>)
    ensures
        found is Some <==> publication_from(published_view(published@), topic@, 0) is Some,
        found matches Some((interval_seconds, qos, retain)) ==> publication_from(
            published_view(published@),
            topic@,
            0,
        ) == Some(Publication { topic: topic@, interval_seconds, qos, retain }),
{
    let ghost view = published_view(published@);
    let mut i: usize = 0;
    while i < published.len()
        invariant
            view == published_view(published@),
            i <= published@.len(),
            publication_from(view, topic@, 0) == publication_from(view, topic@, i as int),
        decreases published@.len() - i,
    {
        let entry = &published[i];
        assert(view[i as int] == published@[i as int]@);
        if text_eq(entry.topic.as_str(), topic) {
            return Some((entry.interval_seconds, entry.qos, entry.retain));
        }
        i += 1;
    }
    None
}

fn check_publications(contract: &PlcContract, layout: &Layout) -> (result: Result<
    (),
    ContractError,
>)
    ensures
        result is Ok <==> publishing_fault(*contract, *layout) is None,
        result matches Err(error) ==> publishing_fault(*contract, *layout) == Some(error@),
{
    let published = collect_publications(contract);
    let ghost view = published_view(published@);
    match check_duplicates(&published) {
        Ok(()) => {},
        Err(error) => {
            return Err(error);
        },
    }
    let mut t: usize = 0;
    while t < layout.topics.len()
        invariant
            view == published_view(published@),
            view == all_publications(*contract),
            duplicate_fault_from(view, 0) is None,
            t <= layout.topics@.len(),
            publication_fault_from(view, *layout, 0) == publication_fault_from(
                view,
                *layout,
                t as int,
            ),
        decreases layout.topics@.len() - t,
    {
        let topic = layout.topics[t].source_topic.as_str();
        let is_clock = ends_with(topic, "/clock");
        let interval: u64 = if is_clock {
            300
        } else if ends_with(topic, "/gmp40_1") {
            1
        } else {
            10
        };
        let qos: u8 = if is_clock {
            1
        } else {
            0
        };
        match find_publication(&published, topic) {
            None => {
                return Err(ContractError::MissingPublication { topic: topic.to_owned() });
            },
            Some((found_interval, found_qos, found_retain)) => {
                let retained_is_false = match found_retain {
                    Some(retain) => !retain,
                    None => false,
                };
                if !(found_interval == interval && found_qos == qos && retained_is_false) {
                    return Err(ContractError::PublicationDiffers { topic: topic.to_owned() });
                }
            },
        }
        t += 1;
    }
    let status_is_published = match find_publication(&published, PLC_AVAILABILITY_TOPIC) {
        Some((10, 0, Some(true))) => true,
        _ => false,
    };
    if !status_is_published {
        return Err(ContractError::StatusNotRetained);
    }
    Ok(())
}

fn subscribes_to(contract: &PlcContract, topic: &str) -> (subscribed: bool)
    ensures
        subscribed == is_subscribed(*contract, topic@),
{
    let subscribers = &contract.mqtt.subscribers;
    let mut s: usize = 0;
    while s < subscribers.len()
        invariant
            *subscribers == contract.mqtt.subscribers,
            s <= subscribers@.len(),
            forall|i: int, m: int|
                #![trigger subscribers@[i].mappings@[m]]
                0 <= i < s && 0 <= m < subscribers@[i].mappings@.len()
                    ==> subscribers@[i].mappings@[m].topic@ != topic@,
        decreases subscribers@.len() - s,
    {
        let mappings = &subscribers[s].mappings;
        let mut m: usize = 0;
        while m < mappings.len()
            invariant
                *subscribers == contract.mqtt.subscribers,
                s < subscribers@.len(),
                *mappings == subscribers@[s as int].mappings,
                m <= mappings@.len(),
                forall|i: int| 0 <= i < m ==> (#[trigger] mappings@[i]).topic@ != topic@,
            decreases mappings@.len() - m,
        {
            if text_eq(mappings[m].topic.as_str(), topic) {
                assert(contract.mqtt.subscribers@[s as int].mappings@[m as int].topic@ == topic@);
                return true;
            }
            m += 1;
        }
        s += 1;
    }
    false
}

fn check_field_commands(contract: &PlcContract, spec: &TopicSpec) -> (result: Result<
    (),
    ContractError,
>)
    ensures
        result is Ok <==> field_command_fault_from(*contract, *spec, 0) is None,
        result matches Err(error) ==> field_command_fault_from(*contract, *spec, 0) == Some(error@),
{
    let mut f: usize = 0;
    while f < spec.fields.len()
        invariant
            f <= spec.fields@.len(),
            field_command_fault_from(*contract, *spec, 0) == field_command_fault_from(
                *contract,
                *spec,
                f as int,
            ),
        decreases spec.fields@.len() - f,
    {
        let discovery = &spec.fields[f].discovery;
        if discovery.command_mask.is_none() {
            if let Some(topic) = &discovery.command_topic {
                if !subscribes_to(contract, topic.as_str()) {
                    return Err(ContractError::MissingSubscription { topic: topic.clone() });
                }
            }
        }
        f += 1;
    }
    Ok(())
}

fn check_subscriptions(contract: &PlcContract, layout: &Layout) -> (result: Result<
    (),
    ContractError,
>)
    ensures
        result is Ok <==> subscribing_fault(*contract, *layout) is None,
        result matches Err(error) ==> subscribing_fault(*contract, *layout) == Some(error@),
{
    let subscribers = &contract.mqtt.subscribers;
    let mut s: usize = 0;
    while s < subscribers.len()
        invariant
            *subscribers == contract.mqtt.subscribers,
            s <= subscribers@.len(),
            forall|i: int| 0 <= i < s ==> (#[trigger] subscribers@[i]).qos == 1,
        decreases subscribers@.len() - s,
    {
        if subscribers[s].qos != 1 {
            return Err(ContractError::SubscriptionQos);
        }
        s += 1;
    }
    let mut t: usize = 0;
    while t < layout.topics.len()
        invariant
            t <= layout.topics@.len(),
            forall|i: int|
                0 <= i < contract.mqtt.subscribers@.len() ==> (
                #[trigger] contract.mqtt.subscribers@[i]).qos == 1,
            command_fault_from(*contract, *layout, 0) == command_fault_from(
                *contract,
                *layout,
                t as int,
            ),
        decreases layout.topics@.len() - t,
    {
        let spec = &layout.topics[t];
        if let Some(topic) = &spec.raw_command_topic {
            if !subscribes_to(contract, topic.as_str()) {
                return Err(ContractError::MissingSubscription { topic: topic.clone() });
            }
        }
        match check_field_commands(contract, spec) {
            Ok(()) => {},
            Err(error) => {
                return Err(error);
            },
        }
        t += 1;
    }
    Ok(())
}

fn find_payload(payloads: &Vec<PackedPayload>, topic: &str) -> (found: Option<usize>)
    ensures
        found matches Some(p) ==> p < payloads@.len() && payload_index(
            payloads@,
            topic@,
            payloads@.len() as int,
        ) == Some(p as int),
        found is None ==> payload_index(payloads@, topic@, payloads@.len() as int) is None,
{
    let mut n: usize = payloads.len();
    while n > 0
        invariant
            n <= payloads@.len(),
            payload_index(payloads@, topic@, payloads@.len() as int) == payload_index(
                payloads@,
                topic@,
                n as int,
            ),
        decreases n,
    {
        if text_eq(payloads[n - 1].topic.as_str(), topic) {
            return Some(n - 1);
        }
        n -= 1;
    }
    None
}

fn value_type_text(value_type: ValueType) -> (name: &'static str)
    ensures
        name@ == wire_type_name(value_type),
{
    match value_type {
        ValueType::Bool => "bool",
        ValueType::Float => "float",
        ValueType::Int => "int",
        ValueType::Timestamp => "timestamp",
    }
}

fn check_packed_field(topic: &str, plc: &PackedField, field: &Field) -> (result: Result<
    (),
    ContractError,
>)
    ensures
        result is Ok <==> packed_field_fault(topic@, *plc, *field) is None,
        result matches Err(error) ==> packed_field_fault(topic@, *plc, *field) == Some(error@),
{
    let source = match &field.plc_source {
        Some(tag) => tag.as_str(),
        None => field.source.as_str(),
    };
    if !text_eq(plc.source.as_str(), source) || plc.length != field.length {
        return Err(
            ContractError::FieldDiffers {
                topic: topic.to_owned(),
                plc_source: plc.source.clone(),
                plc_length: plc.length,
                source: source.to_owned(),
                length: field.length,
            },
        );
    }
    let wire_type = plc.wire_type.as_str();
    let compatible = text_eq(wire_type, value_type_text(field.value_type)) || (text_eq(wire_type, "int")
        && field.value_type == ValueType::Float) || (text_eq(wire_type, "float")
        && field.value_type == ValueType::Int);
    if !compatible {
        return Err(
            ContractError::FieldTypeDiffers {
                topic: topic.to_owned(),
                plc_source: plc.source.clone(),
                wire_type: plc.wire_type.clone(),
                value_type: field.value_type,
            },
        );
    }
    if field.discovery.domain == Domain::Light && field.value_type != ValueType::Bool {
        return Err(ContractError::LightNotBool);
    }
    Ok(())
}

fn check_packed_topic(payloads: &Vec<PackedPayload>, spec: &TopicSpec) -> (result: Result<
    (),
    ContractError,
>)
    ensures
        result is Ok <==> packed_fault(payloads@, *spec) is None,
        result matches Err(error) ==> packed_fault(payloads@, *spec) == Some(error@),
{
    let topic = spec.source_topic.as_str();
    if ends_with(topic, "/clock") {
        return Ok(());
    }
    let payload = match find_payload(payloads, topic) {
        Some(p) => &payloads[p],
        None => {
            return Err(ContractError::MissingPayload { topic: topic.to_owned() });
        },
    };
    if payload.fields.len() != spec.fields.len() {
        return Err(
            ContractError::FieldCountDiffers {
                topic: topic.to_owned(),
                plc: payload.fields.len(),
                normalizer: spec.fields.len(),
            },
        );
    }
    let mut f: usize = 0;
    while f < spec.fields.len()
        invariant
            topic@ == spec.source_topic@,
            f <= spec.fields@.len(),
            payload.fields@.len() == spec.fields@.len(),
            packed_fault(payloads@, *spec) == packed_field_fault_from(*payload, *spec, f as int),
        decreases spec.fields@.len() - f,
    {
        match check_packed_field(topic, &payload.fields[f], &spec.fields[f]) {
            Ok(()) => {},
            Err(error) => {
                return Err(error);
            },
        }
        f += 1;
    }
    Ok(())
}

/// Checks that the layout agrees with the PLC's MQTT contract. The error is
/// the first disagreement found.
pub fn validate_layout_contract(layout: &Layout, contract: &PlcContract) -> (result: Result<
    (),
    ContractError,
>)
    ensures
        result is Ok <==> contract_fault(*contract, *layout) is None,
        result matches Err(error) ==> contract_fault(*contract, *layout) == Some(error@),
{
    match check_header(contract) {
        Ok(()) => {},
        Err(error) => {
            return Err(error);
        },
    }
    match check_publications(contract, layout) {
        Ok(()) => {},
        Err(error) => {
            return Err(error);
        },
    }
    match check_subscriptions(contract, layout) {
        Ok(()) => {},
        Err(error) => {
            return Err(error);
        },
    }
    let mut t: usize = 0;
    while t < layout.topics.len()
        invariant
            header_fault(*contract) is None,
            publishing_fault(*contract, *layout) is None,
            subscribing_fault(*contract, *layout) is None,
            t <= layout.topics@.len(),
            packed_fault_from(contract.packed_payloads@, *layout, 0) == packed_fault_from(
                contract.packed_payloads@,
                *layout,
                t as int,
            ),
        decreases layout.topics@.len() - t,
    {
        match check_packed_topic(&contract.packed_payloads, &layout.topics[t]) {
            Ok(()) => {},
            Err(error) => {
                return Err(error);
            },
        }
        t += 1;
    }
    Ok(())
}

/// The text of a disagreement.
pub open spec fn contract_message(fault: ContractFault) -> Seq<char> {
    match fault {
        ContractFault::UnsupportedSchema => "unsupported PLC contract schema"@,
        ContractFault::UnexpectedGenerator => "unexpected PLC contract generator"@,
        ContractFault::InvalidProvenance => "PLC contract has invalid source provenance"@,
        ContractFault::MissingLastWill =>
            "PLC contract does not provide the required retained offline LWT"@,
        ContractFault::DuplicatePublication { topic } => "duplicate PLC publication topic: "@
            + topic,
        ContractFault::MissingPublication { topic } => "layout topic missing from PLC contract: "@
            + topic,
        ContractFault::PublicationDiffers { topic } => "PLC publication metadata differs for "@
            + topic,
        ContractFault::StatusNotRetained => "PLC online status publication must be retained"@,
        ContractFault::SubscriptionQos => "PLC command subscription must use QoS 1"@,
        ContractFault::MissingSubscription { topic } =>
            "normalizer command topic missing from PLC contract: "@ + topic,
        ContractFault::MissingPayload { topic } => "packed PLC contract missing "@ + topic,
        ContractFault::FieldCountDiffers { topic, plc, normalizer } =>
            "packed field count differs for "@ + topic + ": PLC "@ + decimal(plc)
            + ", normalizer "@ + decimal(normalizer),
        ContractFault::FieldDiffers { topic, plc_source, plc_length, source, length } =>
            "packed field differs for "@ + topic + ": PLC "@ + plc_source + ":"@ + decimal(
            plc_length,
        ) + ", normalizer "@ + source + ":"@ + decimal(length),
        ContractFault::FieldTypeDiffers { topic, plc_source, wire_type, value_type } =>
            "packed field type differs for "@ + topic + "."@ + plc_source + ": PLC "@ + wire_type
            + ", normalizer "@ + wire_type_name(value_type),
        ContractFault::LightNotBool => "contract-backed light field must be boolean"@,
    }
}

impl ContractError {
    /// The text of the disagreement.
    pub fn message(&self) -> (text: String)
        ensures
            text@ == contract_message(self@),
    {
        match self {
            ContractError::UnsupportedSchema => "unsupported PLC contract schema".to_owned(),
            ContractError::UnexpectedGenerator => "unexpected PLC contract generator".to_owned(),
            ContractError::InvalidProvenance => {
                "PLC contract has invalid source provenance".to_owned()
            },
            ContractError::MissingLastWill => {
                "PLC contract does not provide the required retained offline LWT".to_owned()
            },
            ContractError::DuplicatePublication { topic } => {
                "duplicate PLC publication topic: ".to_owned().concat(topic.as_str())
            },
            ContractError::MissingPublication { topic } => {
                "layout topic missing from PLC contract: ".to_owned().concat(topic.as_str())
            },
            ContractError::PublicationDiffers { topic } => {
                "PLC publication metadata differs for ".to_owned().concat(topic.as_str())
            },
            ContractError::StatusNotRetained => {
                "PLC online status publication must be retained".to_owned()
            },
            ContractError::SubscriptionQos => "PLC command subscription must use QoS 1".to_owned(),
            ContractError::MissingSubscription { topic } => {
                "normalizer command topic missing from PLC contract: ".to_owned().concat(
                    topic.as_str(),
                )
            },
            ContractError::MissingPayload { topic } => {
                "packed PLC contract missing ".to_owned().concat(topic.as_str())
            },
            ContractError::FieldCountDiffers { topic, plc, normalizer } => {
                let mut text = concat3(
                    "packed field count differs for ",
                    topic.as_str(),
                    ": PLC ",
                );
                append_decimal(&mut text, *plc as u128);
                text.append(", normalizer ");
                append_decimal(&mut text, *normalizer as u128);
                text
            },
            ContractError::FieldDiffers { topic, plc_source, plc_length, source, length } => {
                let mut text = concat3("packed field differs for ", topic.as_str(), ": PLC ");
                text.append(plc_source.as_str());
                text.append(":");
                append_decimal(&mut text, *plc_length as u128);
                text.append(", normalizer ");
                text.append(source.as_str());
                text.append(":");
                append_decimal(&mut text, *length as u128);
                text
            },
            ContractError::FieldTypeDiffers { topic, plc_source, wire_type, value_type } => {
                let mut text = concat3("packed field type differs for ", topic.as_str(), ".");
                text.append(plc_source.as_str());
                text.append(": PLC ");
                text.append(wire_type.as_str());
                text.append(", normalizer ");
                text.append(value_type_text(*value_type));
                text
            },
            ContractError::LightNotBool => "contract-backed light field must be boolean".to_owned(),
        }
    }
}

/// Whether a packed payload has the fields of a topic: as many, in the same
/// order, each with the same tag, width and a compatible type.
pub open spec fn packs_fields(payload: PackedPayload, spec: TopicSpec) -> bool {
    &&& payload.fields@.len() == spec.fields@.len()
    &&& forall|f: int|
        0 <= f < spec.fields@.len() ==> agrees_on(payload.fields@[f], #[trigger] spec.fields@[f])
}

/// Whether a packed field is the layout's field: with the same tag, which is the
/// PLC's own where the layout has one, with the same width and a type that carries
/// the field's values. A light is a boolean.
pub open spec fn agrees_on(plc: PackedField, field: Field) -> bool {
    &&& is_same_field(plc, field)
    &&& carries(plc.wire_type@, field.value_type)
    &&& field.discovery.domain is Light ==> field.value_type is Bool
}

/// Whether a packed field has the tag and the width of the layout's field.
pub open spec fn is_same_field(plc: PackedField, field: Field) -> bool {
    &&& plc.source@ == (if field.plc_source is Some {
        field.plc_source->0@
    } else {
        field.source@
    })
    &&& plc.length == field.length
}

/// Whether a wire type carries values of a type: a boolean is carried as `bool`
/// alone, a timestamp as `timestamp` alone, and a number of either kind as `int`
/// or as `float`.
pub open spec fn carries(wire_type: Seq<char>, value_type: ValueType) -> bool {
    match value_type {
        ValueType::Bool => wire_type == "bool"@,
        ValueType::Timestamp => wire_type == "timestamp"@,
        ValueType::Int | ValueType::Float => wire_type == "int"@ || wire_type == "float"@,
    }
}

/// Whether a contract is genuine: of the one schema, from the one generator, made
/// of the one source file with a digest of 64 hexadecimal digits, and with a last
/// will that leaves `offline` on the PLC's status topic, retained, with QoS 1.
pub open spec fn is_genuine(contract: PlcContract) -> bool {
    let digest = contract.source.sha256@;
    let last_will = contract.mqtt.last_will;
    &&& contract.schema_version == 1
    &&& contract.generated_by@ == "aquarium-controller-plc-mqtt-contract"@
    &&& contract.source.file@ == "aquarium_controller.adpro"@
    &&& digest.len() == 64
    &&& forall|i: int|
        0 <= i < 64 ==> '0' <= #[trigger] digest[i] <= '9' || 'a' <= digest[i] <= 'f' || 'A'
            <= digest[i] <= 'F'
    &&& last_will.enabled
    &&& last_will.topic@ == "plc/aquarium/status"@
    &&& last_will.payload@ == "offline"@
    &&& last_will.qos == 1
    &&& last_will.retain
}

/// Whether a subscriber of the PLC hears a topic.
pub open spec fn hears(contract: PlcContract, topic: Seq<char>) -> bool {
    exists|s: int, m: int|
        #![trigger contract.mqtt.subscribers@[s].mappings@[m]]
        0 <= s < contract.mqtt.subscribers@.len() && 0 <= m
            < contract.mqtt.subscribers@[s].mappings@.len()
            && contract.mqtt.subscribers@[s].mappings@[m].topic@ == topic
}

/// Whether a packed payload is the one that counts for a topic: the last of those
/// that name it.
pub open spec fn is_payload_of(payloads: Seq<PackedPayload>, p: int, topic: Seq<char>) -> bool {
    &&& 0 <= p < payloads.len()
    &&& payloads[p].topic@ == topic
    &&& forall|later: int| p < later < payloads.len() ==> (#[trigger] payloads[later]).topic@ != topic
}

/// How the PLC is to publish a topic of the layout: at its interval, and not
/// retained.
pub open spec fn expected_publication(topic: Seq<char>) -> Publication {
    Publication {
        topic,
        interval_seconds: if has_suffix(topic, "/clock"@) {
            300
        } else if has_suffix(topic, "/gmp40_1"@) {
            1
        } else {
            10
        },
        qos: if has_suffix(topic, "/clock"@) {
            1
        } else {
            0
        },
        retain: Some(false),
    }
}

/// The PLC's online status, retained.
pub open spec fn status_publication() -> Publication {
    Publication {
        topic: "plc/aquarium/status"@,
        interval_seconds: 10,
        qos: 0,
        retain: Some(true),
    }
}

/// Whether a contract and a layout agree: the contract is genuine and has the
/// retained offline last will, the PLC publishes each topic once and as
/// expected, it takes every command with QoS 1, and it packs the fields of the
/// layout.
pub open spec fn contract_agrees(contract: PlcContract, layout: Layout) -> bool {
    let published = all_publications(contract);
    &&& is_genuine(contract)
    &&& forall|i: int, j: int|
        0 <= i < j < published.len() ==> (#[trigger] published[i]).topic != (
        #[trigger] published[j]).topic
    &&& forall|t: int|
        0 <= t < layout.topics@.len() ==> published.contains(
            expected_publication((#[trigger] layout.topics@[t]).source_topic@),
        )
    &&& published.contains(status_publication())
    &&& forall|s: int|
        0 <= s < contract.mqtt.subscribers@.len() ==> (#[trigger] contract.mqtt.subscribers@[s]).qos
            == 1
    &&& forall|t: int|
        0 <= t < layout.topics@.len() ==> takes_commands_of(
            contract,
            #[trigger] layout.topics@[t],
        )
    &&& forall|t: int|
        0 <= t < layout.topics@.len() && !has_suffix(
            (#[trigger] layout.topics@[t]).source_topic@,
            "/clock"@,
        ) ==> exists|p: int| #[trigger]
            is_payload_of(contract.packed_payloads@, p, layout.topics@[t].source_topic@)
                && packs_fields(contract.packed_payloads@[p], layout.topics@[t])
}

/// Whether the PLC subscribes to every command topic of a topic's fields.
pub open spec fn takes_commands_of(contract: PlcContract, spec: TopicSpec) -> bool {
    &&& spec.raw_command_topic is Some ==> hears(contract, spec.raw_command_topic->0@)
    &&& forall|f: int|
        0 <= f < spec.fields@.len() && (#[trigger] spec.fields@[f]).discovery.command_topic is Some
            && spec.fields@[f].discovery.command_mask is None ==> hears(
            contract,
            spec.fields@[f].discovery.command_topic->0@,
        )
}

proof fn lemma_duplicates(published: Seq<Publication>, i: int)
    requires
        0 <= i,
    ensures
        duplicate_fault_from(published, i) is None <==> forall|j: int, k: int|
            i <= k < published.len() && 0 <= j < k ==> (#[trigger] published[j]).topic != (
            #[trigger] published[k]).topic,
    decreases published.len() - i,
{
    if i < published.len() {
        lemma_duplicates(published, i + 1);
        if duplicate_fault_from(published, i) is None {
            assert forall|j: int, k: int| i <= k < published.len() && 0 <= j < k implies (
            #[trigger] published[j]).topic != (#[trigger] published[k]).topic by {}
        } else if exists|j: int|
            0 <= j < i && (#[trigger] published[j]).topic == published[i].topic {
            let j = choose|j: int|
                0 <= j < i && (#[trigger] published[j]).topic == published[i].topic;
            assert(published[j].topic == published[i].topic);
        }
    }
}

proof fn lemma_publication(published: Seq<Publication>, wanted: Publication, i: int)
    requires
        0 <= i,
        duplicate_fault_from(published, 0) is None,
    ensures
        publication_from(published, wanted.topic, i) == Some(wanted) <==> exists|k: int|
            i <= k < published.len() && #[trigger] published[k] == wanted,
    decreases published.len() - i,
{
    lemma_duplicates(published, 0);
    if i < published.len() {
        lemma_publication(published, wanted, i + 1);
        if published[i].topic == wanted.topic {
            assert forall|k: int| i < k < published.len() implies #[trigger] published[k]
                != wanted by {
                assert(published[i].topic != published[k].topic);
            }
        }
    }
}

proof fn lemma_publication_faults(published: Seq<Publication>, layout: Layout, t: int)
    requires
        0 <= t,
        duplicate_fault_from(published, 0) is None,
    ensures
        publication_fault_from(published, layout, t) is None <==> forall|k: int|
            t <= k < layout.topics@.len() ==> published.contains(
                expected_publication((#[trigger] layout.topics@[k]).source_topic@),
            ),
    decreases layout.topics@.len() - t,
{
    if t < layout.topics@.len() {
        let topic = layout.topics@[t].source_topic@;
        let wanted = expected_publication(topic);
        lemma_publication_faults(published, layout, t + 1);
        lemma_publication(published, wanted, 0);
        lemma_publication_has_topic(published, topic, 0);
        assert(publication_fault(published, topic) is None <==> publication_from(
            published,
            topic,
            0,
        ) == Some(wanted));
        assert(published.contains(wanted) <==> exists|k: int|
            0 <= k < published.len() && #[trigger] published[k] == wanted);
    }
}

proof fn lemma_publication_has_topic(published: Seq<Publication>, topic: Seq<char>, i: int)
    requires
        0 <= i,
    ensures
        publication_from(published, topic, i) matches Some(found) ==> found.topic == topic,
    decreases published.len() - i,
{
    if i < published.len() {
        lemma_publication_has_topic(published, topic, i + 1);
    }
}

proof fn lemma_hears(contract: PlcContract)
    ensures
        forall|topic: Seq<char>| #[trigger]
            hears(contract, topic) <==> is_subscribed(contract, topic),
{
}

proof fn lemma_payload_of(payloads: Seq<PackedPayload>, topic: Seq<char>, n: int)
    requires
        0 <= n <= payloads.len(),
        forall|later: int| n <= later < payloads.len() ==> (#[trigger] payloads[later]).topic@ != topic,
    ensures
        match payload_index(payloads, topic, n) {
            Some(last) => forall|p: int| #[trigger]
                is_payload_of(payloads, p, topic) <==> p == last,
            None => forall|p: int|
                0 <= p < payloads.len() ==> (#[trigger] payloads[p]).topic@ != topic,
        },
    decreases n,
{
    if n > 0 {
        if payloads[n - 1].topic@ != topic {
            lemma_payload_of(payloads, topic, n - 1);
        }
    }
}

proof fn lemma_genuine(contract: PlcContract)
    ensures
        header_fault(contract) is None <==> is_genuine(contract),
{
    let digest = contract.source.sha256@;
    if is_sha256(digest) {
        assert forall|i: int| 0 <= i < 64 implies '0' <= #[trigger] digest[i] <= '9' || 'a'
            <= digest[i] <= 'f' || 'A' <= digest[i] <= 'F' by {
            assert(is_hex_digit(digest[i]));
        }
    }
}

proof fn lemma_carries(wire_type: Seq<char>, value_type: ValueType)
    ensures
        is_compatible(wire_type, value_type) <==> carries(wire_type, value_type),
{
}

proof fn lemma_field_commands(contract: PlcContract, spec: TopicSpec, f: int)
    requires
        0 <= f,
    ensures
        field_command_fault_from(contract, spec, f) is None <==> forall|k: int|
            f <= k < spec.fields@.len() ==> (direct_command_topic(
                #[trigger] spec.fields@[k],
            ) matches Some(topic) ==> is_subscribed(contract, topic)),
    decreases spec.fields@.len() - f,
{
    if f < spec.fields@.len() {
        lemma_field_commands(contract, spec, f + 1);
    }
}

proof fn lemma_commands(contract: PlcContract, layout: Layout, t: int)
    requires
        0 <= t,
    ensures
        command_fault_from(contract, layout, t) is None <==> forall|k: int|
            t <= k < layout.topics@.len() ==> takes_commands_of(
                contract,
                #[trigger] layout.topics@[k],
            ),
    decreases layout.topics@.len() - t,
{
    if t < layout.topics@.len() {
        let spec = layout.topics@[t];
        lemma_commands(contract, layout, t + 1);
        lemma_field_commands(contract, spec, 0);
        lemma_hears(contract);
        assert forall|f: int| 0 <= f < spec.fields@.len() implies ((direct_command_topic(
            #[trigger] spec.fields@[f],
        ) matches Some(topic) ==> is_subscribed(contract, topic)) <==> (
        spec.fields@[f].discovery.command_topic is Some
            && spec.fields@[f].discovery.command_mask is None ==> hears(
            contract,
            spec.fields@[f].discovery.command_topic->0@,
        ))) by {}
    }
}

proof fn lemma_packed_fields(payload: PackedPayload, spec: TopicSpec, f: int)
    requires
        0 <= f,
    ensures
        packed_field_fault_from(payload, spec, f) is None <==> forall|k: int|
            f <= k < spec.fields@.len() ==> packed_field_fault(
                spec.source_topic@,
                payload.fields@[k],
                #[trigger] spec.fields@[k],
            ) is None,
    decreases spec.fields@.len() - f,
{
    if f < spec.fields@.len() {
        lemma_packed_fields(payload, spec, f + 1);
    }
}

proof fn lemma_packed(payloads: Seq<PackedPayload>, layout: Layout, t: int)
    requires
        0 <= t,
    ensures
        packed_fault_from(payloads, layout, t) is None <==> forall|k: int|
            t <= k < layout.topics@.len() ==> packed_fault(
                payloads,
                #[trigger] layout.topics@[k],
            ) is None,
    decreases layout.topics@.len() - t,
{
    if t < layout.topics@.len() {
        lemma_packed(payloads, layout, t + 1);
    }
}

/// A contract passes the check exactly where it agrees with the layout: any
/// drift in topics, intervals, quality of service, retention, field order,
/// type or width stops it.
pub proof fn contract_check_is_exact(contract: PlcContract, layout: Layout)
    ensures
        contract_fault(contract, layout) is None <==> contract_agrees(contract, layout),
{
    let published = all_publications(contract);
    let payloads = contract.packed_payloads@;
    lemma_duplicates(published, 0);
    if duplicate_fault_from(published, 0) is None {
        lemma_publication_faults(published, layout, 0);
        lemma_publication(published, status_publication(), 0);
        assert(published.contains(status_publication()) <==> exists|k: int|
            0 <= k < published.len() && #[trigger] published[k] == status_publication());
    }
    lemma_genuine(contract);
    lemma_commands(contract, layout, 0);
    lemma_packed(payloads, layout, 0);
    assert forall|t: int| 0 <= t < layout.topics@.len() implies (packed_fault(
        payloads,
        #[trigger] layout.topics@[t],
    ) is None <==> (has_suffix(layout.topics@[t].source_topic@, "/clock"@) || exists|p: int|
     #[trigger]
        is_payload_of(payloads, p, layout.topics@[t].source_topic@) && packs_fields(
            payloads[p],
            layout.topics@[t],
        ))) by {
        let spec = layout.topics@[t];
        lemma_payload_of(payloads, spec.source_topic@, payloads.len() as int);
        if let Some(last) = payload_index(payloads, spec.source_topic@, payloads.len() as int) {
            assert(is_payload_of(payloads, last, spec.source_topic@));
            lemma_packed_fields(payloads[last], spec, 0);
            assert forall|k: int| 0 <= k < spec.fields@.len() implies (packed_field_fault(
                spec.source_topic@,
                payloads[last].fields@[k],
                #[trigger] spec.fields@[k],
            ) is None <==> agrees_on(payloads[last].fields@[k], spec.fields@[k])) by {
                lemma_carries(payloads[last].fields@[k].wire_type@, spec.fields@[k].value_type);
            }
            assert(packs_fields(payloads[last], spec) <==> payloads[last].fields@.len()
                == spec.fields@.len() && forall|k: int|
                0 <= k < spec.fields@.len() ==> packed_field_fault(
                    spec.source_topic@,
                    payloads[last].fields@[k],
                    #[trigger] spec.fields@[k],
                ) is None);
        }
    }
}

/// How many topics the first `n` publishers publish.
pub open spec fn mappings_before(publishers: Seq<Publisher>, n: int) -> nat
    decreases n,
{
    if n <= 0 {
        0
    } else {
        mappings_before(publishers, n - 1) + publishers[n - 1].mappings@.len()
    }
}

proof fn lemma_mappings_before(publishers: Seq<Publisher>, n: int, end: int, i: int)
    requires
        0 <= n <= end,
    ensures
        publications(publishers, n).len() == mappings_before(publishers, n),
        mappings_before(publishers, n) <= mappings_before(publishers, end),
        0 <= i < mappings_before(publishers, n) ==> publications(publishers, end)[i]
            == publications(publishers, n)[i],
    decreases n + (end - n),
{
    if n < end {
        lemma_mappings_before(publishers, n, end - 1, i);
        lemma_mappings_before(publishers, end - 1, end - 1, i);
    } else if n > 0 {
        lemma_mappings_before(publishers, n - 1, n - 1, i);
    }
}

/// What the PLC publishes is what its publishers list, in order and each once:
/// every topic at its publisher's interval and quality of service, and retained
/// as the topic itself says.
pub proof fn publications_are_those_of_the_publishers(contract: PlcContract, p: int, m: int)
    requires
        0 <= p < contract.mqtt.publishers@.len(),
        0 <= m < contract.mqtt.publishers@[p].mappings@.len(),
    ensures
        ({
            let publishers = contract.mqtt.publishers@;
            let publisher = publishers[p];
            let published = all_publications(contract);
            let place = mappings_before(publishers, p) + m;
            &&& published.len() == mappings_before(publishers, publishers.len() as int)
            &&& 0 <= place < published.len()
            &&& published[place].topic == publisher.mappings@[m].topic@
            &&& published[place].interval_seconds == publisher.interval_seconds
            &&& published[place].qos == publisher.qos
            &&& published[place].retain == publisher.mappings@[m].retain
        }),
{
    let publishers = contract.mqtt.publishers@;
    let end = publishers.len() as int;
    let place = mappings_before(publishers, p) + m;
    lemma_mappings_before(publishers, end, end, place);
    lemma_mappings_before(publishers, p, p, place);
    lemma_mappings_before(publishers, p + 1, end, place);
    assert(publications(publishers, p + 1)[place] == publications_of(publishers[p])[m]);
}

/// Whether a topic is the first of the layout that the PLC does not publish as
/// expected.
pub open spec fn is_first_unpublished(
    published: Seq<Publication>,
    layout: Layout,
    topic: Seq<char>,
) -> bool {
    &&& !published.contains(expected_publication(topic))
    &&& exists|t: int|
        0 <= t < layout.topics@.len() && (#[trigger] layout.topics@[t]).source_topic@ == topic
            && forall|u: int|
            0 <= u < t ==> published.contains(
                expected_publication((#[trigger] layout.topics@[u]).source_topic@),
            )
}

/// Whether a command topic is the first of a topic that the PLC does not hear:
/// the one for encoded commands, else that of the first field that it does not
/// hear.
pub open spec fn is_first_unheard(contract: PlcContract, spec: TopicSpec, topic: Seq<char>) -> bool {
    &&& !hears(contract, topic)
    &&& if spec.raw_command_topic is Some && !hears(contract, spec.raw_command_topic->0@) {
        topic == spec.raw_command_topic->0@
    } else {
        exists|f: int| #[trigger] is_first_unheard_field(contract, spec, f, topic)
    }
}

/// Whether a field is the first of a topic whose direct commands the PLC does not
/// hear.
pub open spec fn is_first_unheard_field(
    contract: PlcContract,
    spec: TopicSpec,
    f: int,
    topic: Seq<char>,
) -> bool {
    &&& 0 <= f < spec.fields@.len()
    &&& spec.fields@[f].discovery.command_mask is None
    &&& spec.fields@[f].discovery.command_topic is Some
    &&& spec.fields@[f].discovery.command_topic->0@ == topic
    &&& forall|g: int|
        0 <= g < f && (#[trigger] spec.fields@[g]).discovery.command_topic is Some
            && spec.fields@[g].discovery.command_mask is None ==> hears(
            contract,
            spec.fields@[g].discovery.command_topic->0@,
        )
}

/// Whether a fault names the first disagreement on the packed fields of a topic.
pub open spec fn is_packed_fault(
    payloads: Seq<PackedPayload>,
    spec: TopicSpec,
    fault: ContractFault,
) -> bool {
    let source = spec.source_topic@;
    &&& !has_suffix(source, "/clock"@)
    &&& match fault {
        ContractFault::MissingPayload { topic } => topic == source && forall|p: int|
            0 <= p < payloads.len() ==> (#[trigger] payloads[p]).topic@ != source,
        ContractFault::FieldCountDiffers { topic, plc, normalizer } => topic == source
            && normalizer == spec.fields@.len() && plc != normalizer && exists|p: int| #[trigger]
            is_payload_of(payloads, p, source) && payloads[p].fields@.len() == plc,
        _ => exists|p: int, f: int| #[trigger]
            is_first_difference(payloads, p, f, spec) && is_field_fault(
                source,
                payloads[p].fields@[f],
                spec.fields@[f],
                fault,
            ),
    }
}

/// Whether the payload of a topic has as many fields as the layout, and the
/// fields before `f` agree.
pub open spec fn is_first_difference(
    payloads: Seq<PackedPayload>,
    p: int,
    f: int,
    spec: TopicSpec,
) -> bool {
    &&& is_payload_of(payloads, p, spec.source_topic@)
    &&& payloads[p].fields@.len() == spec.fields@.len()
    &&& 0 <= f < spec.fields@.len()
    &&& forall|g: int| 0 <= g < f ==> agrees_on(payloads[p].fields@[g], #[trigger] spec.fields@[g])
}

/// Whether a fault names what a packed field and the layout's field differ in:
/// the tag or the width, else the type, else that a light is no boolean.
pub open spec fn is_field_fault(
    topic: Seq<char>,
    plc: PackedField,
    field: Field,
    fault: ContractFault,
) -> bool {
    if !is_same_field(plc, field) {
        fault == (ContractFault::FieldDiffers {
            topic,
            plc_source: plc.source@,
            plc_length: plc.length as nat,
            source: if field.plc_source is Some {
                field.plc_source->0@
            } else {
                field.source@
            },
            length: field.length as nat,
        })
    } else if !carries(plc.wire_type@, field.value_type) {
        fault == (ContractFault::FieldTypeDiffers {
            topic,
            plc_source: plc.source@,
            wire_type: plc.wire_type@,
            value_type: field.value_type,
        })
    } else {
        fault is LightNotBool && field.discovery.domain is Light && !(field.value_type is Bool)
    }
}

/// Whether the packed fields of a topic agree with the layout; the clock is not
/// packed.
pub open spec fn packs_topic(payloads: Seq<PackedPayload>, spec: TopicSpec) -> bool {
    has_suffix(spec.source_topic@, "/clock"@) || exists|p: int| #[trigger]
        is_payload_of(payloads, p, spec.source_topic@) && packs_fields(payloads[p], spec)
}

/// Whether a fault names a real disagreement between a contract and a layout.
pub open spec fn is_real_fault(contract: PlcContract, layout: Layout, fault: ContractFault) -> bool {
    let published = all_publications(contract);
    match fault {
        ContractFault::UnsupportedSchema => contract.schema_version != 1,
        ContractFault::UnexpectedGenerator => contract.generated_by@
            != "aquarium-controller-plc-mqtt-contract"@,
        ContractFault::InvalidProvenance => contract.source.file@ != "aquarium_controller.adpro"@
            || contract.source.sha256@.len() != 64 || exists|i: int|
            0 <= i < 64 && !('0' <= #[trigger] contract.source.sha256@[i] <= '9' || 'a'
                <= contract.source.sha256@[i] <= 'f' || 'A' <= contract.source.sha256@[i] <= 'F'),
        ContractFault::MissingLastWill => {
            let last_will = contract.mqtt.last_will;
            !(last_will.enabled && last_will.topic@ == "plc/aquarium/status"@
                && last_will.payload@ == "offline"@ && last_will.qos == 1 && last_will.retain)
        },
        ContractFault::DuplicatePublication { topic } => exists|j: int| #[trigger]
            is_first_repeat(published, j) && published[j].topic == topic,
        ContractFault::MissingPublication { topic } => is_first_unpublished(
            published,
            layout,
            topic,
        ) && forall|i: int|
            0 <= i < published.len() ==> (#[trigger] published[i]).topic != topic,
        ContractFault::PublicationDiffers { topic } => is_first_unpublished(
            published,
            layout,
            topic,
        ) && exists|i: int|
            0 <= i < published.len() && (#[trigger] published[i]).topic == topic,
        ContractFault::StatusNotRetained => !published.contains(status_publication()),
        ContractFault::SubscriptionQos => exists|s: int|
            0 <= s < contract.mqtt.subscribers@.len() && (
            #[trigger] contract.mqtt.subscribers@[s]).qos != 1,
        ContractFault::MissingSubscription { topic } => exists|t: int|
            0 <= t < layout.topics@.len() && is_first_unheard(
                contract,
                #[trigger] layout.topics@[t],
                topic,
            ) && forall|u: int|
                0 <= u < t ==> takes_commands_of(contract, #[trigger] layout.topics@[u]),
        _ => exists|t: int|
            0 <= t < layout.topics@.len() && is_packed_fault(
                contract.packed_payloads@,
                #[trigger] layout.topics@[t],
                fault,
            ) && forall|u: int|
                0 <= u < t ==> packs_topic(
                    contract.packed_payloads@,
                    #[trigger] layout.topics@[u],
                ),
    }
}

/// Whether a publication is the first whose topic was published before.
pub open spec fn is_first_repeat(published: Seq<Publication>, j: int) -> bool {
    &&& 0 <= j < published.len()
    &&& exists|i: int| 0 <= i < j && (#[trigger] published[i]).topic == published[j].topic
    &&& forall|i: int, k: int|
        0 <= i < k < j ==> (#[trigger] published[i]).topic != (#[trigger] published[k]).topic
}

proof fn lemma_duplicate_is_real(published: Seq<Publication>, i: int)
    requires
        0 <= i,
        forall|j: int, k: int|
            0 <= j < k < i && k < published.len() ==> (#[trigger] published[j]).topic != (
            #[trigger] published[k]).topic,
    ensures
        duplicate_fault_from(published, i) matches Some(fault) ==> (
        fault matches ContractFault::DuplicatePublication { topic } && exists|j: int| #[trigger]
            is_first_repeat(published, j) && published[j].topic == topic),
    decreases published.len() - i,
{
    if i < published.len() {
        if exists|j: int| 0 <= j < i && (#[trigger] published[j]).topic == published[i].topic {
            assert(is_first_repeat(published, i));
        } else {
            lemma_duplicate_is_real(published, i + 1);
        }
    }
}

proof fn lemma_publication_found(published: Seq<Publication>, topic: Seq<char>, i: int)
    requires
        0 <= i,
    ensures
        match publication_from(published, topic, i) {
            Some(found) => found.topic == topic && exists|k: int|
                i <= k < published.len() && #[trigger] published[k] == found,
            None => forall|k: int|
                i <= k < published.len() ==> (#[trigger] published[k]).topic != topic,
        },
    decreases published.len() - i,
{
    if i < published.len() {
        lemma_publication_found(published, topic, i + 1);
        assert(published[i] == published[i]);
    }
}

proof fn lemma_publication_fault_is_real(contract: PlcContract, layout: Layout, t: int)
    requires
        0 <= t,
        duplicate_fault_from(all_publications(contract), 0) is None,
        forall|u: int|
            0 <= u < t && u < layout.topics@.len() ==> all_publications(contract).contains(
                expected_publication((#[trigger] layout.topics@[u]).source_topic@),
            ),
    ensures
        publication_fault_from(all_publications(contract), layout, t) matches Some(fault)
            ==> is_real_fault(contract, layout, fault),
    decreases layout.topics@.len() - t,
{
    if t < layout.topics@.len() {
        let published = all_publications(contract);
        let topic = layout.topics@[t].source_topic@;
        let wanted = expected_publication(topic);
        lemma_publication_found(published, topic, 0);
        lemma_publication(published, wanted, 0);
        assert(published.contains(wanted) <==> exists|k: int|
            0 <= k < published.len() && #[trigger] published[k] == wanted);
        if publication_fault(published, topic) is None {
            assert(publication_from(published, topic, 0) == Some(wanted));
            lemma_publication_fault_is_real(contract, layout, t + 1);
        } else {
            assert(!published.contains(wanted));
            assert(is_first_unpublished(published, layout, topic));
        }
    }
}

proof fn lemma_field_command_is_real(contract: PlcContract, spec: TopicSpec, f: int)
    requires
        0 <= f,
        forall|g: int|
            0 <= g < f && g < spec.fields@.len() && (
            #[trigger] spec.fields@[g]).discovery.command_topic is Some
                && spec.fields@[g].discovery.command_mask is None ==> hears(
                contract,
                spec.fields@[g].discovery.command_topic->0@,
            ),
    ensures
        field_command_fault_from(contract, spec, f) matches Some(fault) ==> (
        fault matches ContractFault::MissingSubscription { topic } && !hears(contract, topic)
            && exists|k: int| #[trigger] is_first_unheard_field(contract, spec, k, topic)),
    decreases spec.fields@.len() - f,
{
    lemma_hears(contract);
    if f < spec.fields@.len() {
        let field = spec.fields@[f];
        if direct_command_topic(field) is Some && !hears(contract, direct_command_topic(field)->0) {
            let topic = direct_command_topic(field)->0;
            assert(is_first_unheard_field(contract, spec, f, topic));
        } else {
            lemma_field_command_is_real(contract, spec, f + 1);
        }
    }
}

proof fn lemma_command_fault_is_real(contract: PlcContract, layout: Layout, t: int)
    requires
        0 <= t,
        forall|u: int|
            0 <= u < t && u < layout.topics@.len() ==> takes_commands_of(
                contract,
                #[trigger] layout.topics@[u],
            ),
    ensures
        command_fault_from(contract, layout, t) matches Some(fault) ==> is_real_fault(
            contract,
            layout,
            fault,
        ),
    decreases layout.topics@.len() - t,
{
    lemma_hears(contract);
    if t < layout.topics@.len() {
        let spec = layout.topics@[t];
        lemma_field_command_is_real(contract, spec, 0);
        if spec.raw_command_topic is Some && !hears(contract, spec.raw_command_topic->0@) {
            assert(is_first_unheard(contract, layout.topics@[t], spec.raw_command_topic->0@));
        } else if let Some(fault) = field_command_fault_from(contract, spec, 0) {
            let topic = fault->MissingSubscription_topic;
            assert(is_first_unheard(contract, layout.topics@[t], topic));
        } else {
            lemma_field_commands(contract, spec, 0);
            assert forall|f: int|
                0 <= f < spec.fields@.len() && (
                #[trigger] spec.fields@[f]).discovery.command_topic is Some
                    && spec.fields@[f].discovery.command_mask is None implies hears(
                contract,
                spec.fields@[f].discovery.command_topic->0@,
            ) by {
                assert(direct_command_topic(spec.fields@[f]) is Some);
            }
            assert(takes_commands_of(contract, layout.topics@[t]));
            lemma_command_fault_is_real(contract, layout, t + 1);
        }
    }
}

proof fn lemma_packed_field_is_real(
    payloads: Seq<PackedPayload>,
    p: int,
    spec: TopicSpec,
    f: int,
)
    requires
        0 <= f,
        is_payload_of(payloads, p, spec.source_topic@),
        payloads[p].fields@.len() == spec.fields@.len(),
        !has_suffix(spec.source_topic@, "/clock"@),
        forall|g: int|
            0 <= g < f && g < spec.fields@.len() ==> agrees_on(
                payloads[p].fields@[g],
                #[trigger] spec.fields@[g],
            ),
    ensures
        match packed_field_fault_from(payloads[p], spec, f) {
            Some(fault) => is_packed_fault(payloads, spec, fault),
            None => packs_fields(payloads[p], spec),
        },
    decreases spec.fields@.len() - f,
{
    if f < spec.fields@.len() {
        let field = spec.fields@[f];
        lemma_carries(payloads[p].fields@[f].wire_type@, field.value_type);
        match packed_field_fault(spec.source_topic@, payloads[p].fields@[f], field) {
            Some(fault) => {
                assert(is_first_difference(payloads, p, f, spec));
                assert(is_field_fault(spec.source_topic@, payloads[p].fields@[f], field, fault));
            },
            None => {
                assert(agrees_on(payloads[p].fields@[f], field));
                lemma_packed_field_is_real(payloads, p, spec, f + 1);
            },
        }
    }
}

proof fn lemma_packed_fault_is_real(contract: PlcContract, layout: Layout, t: int)
    requires
        0 <= t,
        forall|u: int|
            0 <= u < t && u < layout.topics@.len() ==> packs_topic(
                contract.packed_payloads@,
                #[trigger] layout.topics@[u],
            ),
    ensures
        packed_fault_from(contract.packed_payloads@, layout, t) matches Some(fault)
            ==> is_real_fault(contract, layout, fault),
    decreases layout.topics@.len() - t,
{
    if t < layout.topics@.len() {
        let payloads = contract.packed_payloads@;
        let spec = layout.topics@[t];
        let source = spec.source_topic@;
        if !is_clock_topic(source) {
            lemma_payload_of(payloads, source, payloads.len() as int);
            if let Some(p) = payload_index(payloads, source, payloads.len() as int) {
                assert(is_payload_of(payloads, p, source));
                if payloads[p].fields@.len() == spec.fields@.len() {
                    lemma_packed_field_is_real(payloads, p, spec, 0);
                }
            }
        }
        match packed_fault(payloads, spec) {
            Some(fault) => {
                assert(is_packed_fault(payloads, layout.topics@[t], fault));
            },
            None => {
                assert(packs_topic(payloads, layout.topics@[t]));
                lemma_packed_fault_is_real(contract, layout, t + 1);
            },
        }
    }
}

/// Whatever is reported is real: a contract that is refused is told what it and
/// the layout disagree on, at the first topic and field where they do.
pub proof fn contract_faults_are_real(contract: PlcContract, layout: Layout)
    ensures
        contract_fault(contract, layout) matches Some(fault) ==> is_real_fault(
            contract,
            layout,
            fault,
        ),
{
    let published = all_publications(contract);
    lemma_duplicate_is_real(published, 0);
    lemma_command_fault_is_real(contract, layout, 0);
    lemma_packed_fault_is_real(contract, layout, 0);
    if duplicate_fault_from(published, 0) is None {
        lemma_publication_fault_is_real(contract, layout, 0);
        lemma_publication(published, status_publication(), 0);
    }
    let digest = contract.source.sha256@;
    if digest.len() == 64 && !is_sha256(digest) {
        let i = choose|i: int| 0 <= i < digest.len() && !is_hex_digit(#[trigger] digest[i]);
        assert(!('0' <= digest[i] <= '9' || 'a' <= digest[i] <= 'f' || 'A' <= digest[i] <= 'F'));
    }
}

/// In which order disagreements are looked for.
pub open spec fn fault_stage(fault: ContractFault) -> int {
    match fault {
        ContractFault::UnsupportedSchema => 0,
        ContractFault::UnexpectedGenerator => 1,
        ContractFault::InvalidProvenance => 2,
        ContractFault::MissingLastWill => 3,
        ContractFault::DuplicatePublication { .. } => 4,
        ContractFault::MissingPublication { .. } | ContractFault::PublicationDiffers { .. } => 5,
        ContractFault::StatusNotRetained => 6,
        ContractFault::SubscriptionQos => 7,
        ContractFault::MissingSubscription { .. } => 8,
        _ => 9,
    }
}

/// Of several disagreements the first one is reported: on the contract itself,
/// then on what is published, the status last, then on the commands, and last on
/// the packed fields. What is looked at before it agrees.
pub proof fn the_first_disagreement_is_reported(contract: PlcContract, layout: Layout)
    requires
        contract_fault(contract, layout) is Some,
    ensures
        ({
            let stage = fault_stage(contract_fault(contract, layout)->0);
            let published = all_publications(contract);
            &&& stage > 0 ==> contract.schema_version == 1
            &&& stage > 1 ==> contract.generated_by@ == "aquarium-controller-plc-mqtt-contract"@
            &&& stage > 2 ==> contract.source.file@ == "aquarium_controller.adpro"@
                && contract.source.sha256@.len() == 64 && forall|i: int|
                0 <= i < 64 ==> '0' <= #[trigger] contract.source.sha256@[i] <= '9' || 'a'
                    <= contract.source.sha256@[i] <= 'f' || 'A' <= contract.source.sha256@[i]
                    <= 'F'
            &&& stage > 3 ==> is_genuine(contract)
            &&& stage > 4 ==> forall|i: int, j: int|
                0 <= i < j < published.len() ==> (#[trigger] published[i]).topic != (
                #[trigger] published[j]).topic
            &&& stage > 5 ==> forall|t: int|
                0 <= t < layout.topics@.len() ==> published.contains(
                    expected_publication((#[trigger] layout.topics@[t]).source_topic@),
                )
            &&& stage > 6 ==> published.contains(status_publication())
            &&& stage > 7 ==> forall|s: int|
                0 <= s < contract.mqtt.subscribers@.len() ==> (
                #[trigger] contract.mqtt.subscribers@[s]).qos == 1
            &&& stage > 8 ==> forall|t: int|
                0 <= t < layout.topics@.len() ==> takes_commands_of(
                    contract,
                    #[trigger] layout.topics@[t],
                )
        }),
{
    let published = all_publications(contract);
    let digest = contract.source.sha256@;
    if is_sha256(digest) {
        assert forall|i: int| 0 <= i < 64 implies '0' <= #[trigger] digest[i] <= '9' || 'a'
            <= digest[i] <= 'f' || 'A' <= digest[i] <= 'F' by {
            assert(is_hex_digit(digest[i]));
        }
    }
    lemma_genuine(contract);
    lemma_duplicates(published, 0);
    lemma_duplicate_is_real(published, 0);
    lemma_publication_stage(published, layout, 0);
    lemma_command_stage(contract, layout, 0);
    if duplicate_fault_from(published, 0) is None {
        lemma_publication_faults(published, layout, 0);
        lemma_publication(published, status_publication(), 0);
        assert(published.contains(status_publication()) <==> exists|k: int|
            0 <= k < published.len() && #[trigger] published[k] == status_publication());
    }
    lemma_commands(contract, layout, 0);
}

proof fn lemma_publication_stage(published: Seq<Publication>, layout: Layout, t: int)
    requires
        0 <= t,
    ensures
        publication_fault_from(published, layout, t) matches Some(fault) ==> fault_stage(fault)
            == 5,
    decreases layout.topics@.len() - t,
{
    if t < layout.topics@.len() {
        lemma_publication_stage(published, layout, t + 1);
    }
}

proof fn lemma_command_stage(contract: PlcContract, layout: Layout, t: int)
    requires
        0 <= t,
    ensures
        command_fault_from(contract, layout, t) matches Some(fault) ==> fault_stage(fault) == 8,
    decreases layout.topics@.len() - t,
{
    if t < layout.topics@.len() {
        lemma_field_command_is_real(contract, layout.topics@[t], 0);
        lemma_command_stage(contract, layout, t + 1);
    }
}

/// A fault with another topic in place of its own.
pub open spec fn about_topic(fault: ContractFault, other: Seq<char>) -> ContractFault {
    match fault {
        ContractFault::DuplicatePublication { topic } => ContractFault::DuplicatePublication {
            topic: other,
        },
        ContractFault::MissingPublication { topic } => ContractFault::MissingPublication {
            topic: other,
        },
        ContractFault::PublicationDiffers { topic } => ContractFault::PublicationDiffers {
            topic: other,
        },
        ContractFault::MissingSubscription { topic } => ContractFault::MissingSubscription {
            topic: other,
        },
        ContractFault::MissingPayload { topic } => ContractFault::MissingPayload { topic: other },
        ContractFault::FieldCountDiffers { topic, plc, normalizer } =>
            ContractFault::FieldCountDiffers { topic: other, plc, normalizer },
        ContractFault::FieldDiffers { topic, plc_source, plc_length, source, length } =>
            ContractFault::FieldDiffers { topic: other, plc_source, plc_length, source, length },
        ContractFault::FieldTypeDiffers { topic, plc_source, wire_type, value_type } =>
            ContractFault::FieldTypeDiffers { topic: other, plc_source, wire_type, value_type },
        _ => fault,
    }
}

/// Whether the text of a fault has its topic at `k`, whatever the topic is, and
/// is the same around it.
pub open spec fn tells_topic_at(fault: ContractFault, k: int) -> bool {
    let around = contract_message(about_topic(fault, Seq::empty()));
    &&& 0 <= k <= around.len()
    &&& forall|topic: Seq<char>| #[trigger]
        contract_message(about_topic(fault, topic)) == around.take(k) + topic + around.skip(k)
}

/// The text of a fault that is about a topic names it word for word, always in
/// the same place.
pub proof fn contract_messages_name_their_topic(fault: ContractFault)
    requires
        fault is DuplicatePublication || fault is MissingPublication || fault is PublicationDiffers
            || fault is MissingSubscription || fault is MissingPayload || fault is FieldCountDiffers
            || fault is FieldDiffers || fault is FieldTypeDiffers,
    ensures
        exists|k: int| tells_topic_at(fault, k),
{
    let k: int = match fault {
        ContractFault::DuplicatePublication { .. } =>
            "duplicate PLC publication topic: "@.len() as int,
        ContractFault::MissingPublication { .. } =>
            "layout topic missing from PLC contract: "@.len() as int,
        ContractFault::PublicationDiffers { .. } =>
            "PLC publication metadata differs for "@.len() as int,
        ContractFault::MissingSubscription { .. } =>
            "normalizer command topic missing from PLC contract: "@.len() as int,
        ContractFault::MissingPayload { .. } => "packed PLC contract missing "@.len() as int,
        ContractFault::FieldCountDiffers { .. } => "packed field count differs for "@.len() as int,
        ContractFault::FieldDiffers { .. } => "packed field differs for "@.len() as int,
        _ => "packed field type differs for "@.len() as int,
    };
    let around = contract_message(about_topic(fault, Seq::empty()));
    assert forall|topic: Seq<char>| #[trigger]
        contract_message(about_topic(fault, topic)) == around.take(k) + topic + around.skip(k) by {
        assert(contract_message(about_topic(fault, topic)) =~= around.take(k) + topic + around.skip(
            k,
        ));
    }
    assert(tells_topic_at(fault, k));
}

/// The texts of faults on packed fields end in what the layout has there: the
/// number of its fields, the width of the field, or the name of its type.
pub proof fn contract_messages_end_in_what_is_expected(fault: ContractFault)
    ensures
        fault matches ContractFault::FieldCountDiffers { topic, plc, normalizer } ==> has_suffix(
            contract_message(fault),
            ": PLC "@ + decimal(plc) + ", normalizer "@ + decimal(normalizer),
        ),
        fault matches ContractFault::FieldDiffers { topic, plc_source, plc_length, source, length }
            ==> has_suffix(
            contract_message(fault),
            ": PLC "@ + plc_source + ":"@ + decimal(plc_length) + ", normalizer "@ + source + ":"@
                + decimal(length),
        ),
        fault matches ContractFault::FieldTypeDiffers { topic, plc_source, wire_type, value_type }
            ==> has_suffix(
            contract_message(fault),
            "."@ + plc_source + ": PLC "@ + wire_type + ", normalizer "@ + (match value_type {
                ValueType::Bool => "bool"@,
                ValueType::Float => "float"@,
                ValueType::Int => "int"@,
                ValueType::Timestamp => "timestamp"@,
            }),
        ),
{
    let text = contract_message(fault);
    match fault {
        ContractFault::FieldCountDiffers { topic, plc, normalizer } => {
            let end = ": PLC "@ + decimal(plc) + ", normalizer "@ + decimal(normalizer);
            assert(text.skip(text.len() - end.len()) =~= end);
        },
        ContractFault::FieldDiffers { topic, plc_source, plc_length, source, length } => {
            let end = ": PLC "@ + plc_source + ":"@ + decimal(plc_length) + ", normalizer "@
                + source + ":"@ + decimal(length);
            assert(text.skip(text.len() - end.len()) =~= end);
        },
        ContractFault::FieldTypeDiffers { topic, plc_source, wire_type, value_type } => {
            let end = "."@ + plc_source + ": PLC "@ + wire_type + ", normalizer "@
                + wire_type_name(value_type);
            assert(text.skip(text.len() - end.len()) =~= end);
        },
        _ => {},
    }
}

} // verus!
