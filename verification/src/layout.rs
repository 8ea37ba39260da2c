//! The packed MQTT layout: which topics the PLC publishes, which fields each
//! payload packs, and how each field is presented to Home Assistant.

use vstd::prelude::*;
use vstd::string::*;

use crate::text::{
    ascii_lower, concat3, is_all_white, lemma_trimmed_to_nothing, lower_char, text_eq, trimmed,
};

verus! {

/// The group of PLC values that a topic carries.
#[derive(Debug, Clone, Copy, PartialEq, Eq, Structural)]
pub enum TopicKind {
    Di,
    Do,
    Ai,
    Inputs,
    Alarms,
    Ato,
    TimeSync,
    Gmp40,
    Clock,
}

/// The type of one packed value.
#[derive(Debug, Clone, Copy, PartialEq, Eq, Structural)]
pub enum ValueType {
    Bool,
    Float,
    Int,
    Timestamp,
}

/// The base in which a packed integer is written.
#[derive(Debug, Clone, Copy, PartialEq, Eq, Structural)]
pub enum IntFormat {
    Decimal,
    Hexadecimal,
}

/// The Home Assistant domain of a discovered entity.
#[derive(Debug, Clone, Copy, PartialEq, Eq, Hash, Structural)]
pub enum Domain {
    BinarySensor,
    Light,
    Switch,
    Select,
    Number,
    Sensor,
}

/// The packed MQTT layout.
#[derive(Debug)]
pub struct Layout {
    /// Retained discovery records of entities that no longer exist.
    pub removed_discovery: Vec<RemovedDiscovery>,
    /// The packed topics, in the order in which they are handled.
    pub topics: Vec<TopicSpec>,
}

/// A retained discovery record to remove.
#[derive(Debug)]
pub struct RemovedDiscovery {
    pub domain: Domain,
    pub object_id: String,
}

/// One packed field.
#[derive(Debug)]
pub struct Field {
    /// The key of the field in the normalized state.
    pub source: String,
    /// The PLC's own tag, where it differs from `source`.
    pub plc_source: Option<String>,
    /// The packed width in characters.
    pub length: usize,
    pub value_type: ValueType,
    /// The base of an integer field.
    pub int_format: IntFormat,
    /// The raw level that means active, for a boolean field.
    pub active_when: Option<bool>,
    pub discovery: FieldDiscovery,
}

/// A name for one value of an enumerated field.
#[derive(Debug)]
pub struct ValueName {
    pub name: String,
    pub value: i64,
}

/// How a field is presented to Home Assistant.
#[derive(Debug)]
pub struct FieldDiscovery {
    pub domain: Domain,
    pub name: String,
    pub component_id: Option<String>,
    pub default_entity_id: Option<String>,
    pub command_topic: Option<String>,
    pub command_mask: Option<u8>,
    pub min: Option<i64>,
    pub max: Option<i64>,
    pub options: Option<Vec<String>>,
    /// Names for the values of an enumerated field.
    pub value_map: Option<Vec<ValueName>>,
    pub unit_of_measurement: Option<String>,
    pub device_class: Option<String>,
    pub state_class: Option<String>,
    pub suggested_display_precision: Option<u8>,
    pub entity_category: Option<String>,
    pub enabled_by_default: bool,
}

/// One packed topic.
#[derive(Debug)]
pub struct TopicSpec {
    pub kind: TopicKind,
    /// The topic that the PLC publishes.
    pub source_topic: String,
    /// The topic of the normalized state.
    pub state_topic: String,
    /// The topic of encoded commands, where the PLC takes any.
    pub raw_command_topic: Option<String>,
    pub fields: Vec<Field>,
}

/// The name of a domain in discovery topics.
pub open spec fn domain_name(domain: Domain) -> Seq<char> {
    match domain {
        Domain::BinarySensor => "binary_sensor"@,
        Domain::Light => "light"@,
        Domain::Switch => "switch"@,
        Domain::Select => "select"@,
        Domain::Number => "number"@,
        Domain::Sensor => "sensor"@,
    }
}

impl Domain {
    /// The name of the domain in discovery topics.
    pub fn as_str(self) -> (name: &'static str)
        ensures
            name@ == domain_name(self),
    {
        match self {
            Domain::BinarySensor => "binary_sensor",
            Domain::Light => "light",
            Domain::Switch => "switch",
            Domain::Select => "select",
            Domain::Number => "number",
            Domain::Sensor => "sensor",
        }
    }
}

/// Whether an entity of the domain takes commands.
pub open spec fn is_controllable(domain: Domain) -> bool {
    domain is Light || domain is Switch || domain is Select || domain is Number
}

impl Domain {
    /// Whether an entity of the domain takes commands.
    pub fn takes_commands(self) -> (controllable: bool)
        ensures
            controllable == is_controllable(self),
    {
        match self {
            Domain::Light | Domain::Switch | Domain::Select | Domain::Number => true,
            Domain::BinarySensor | Domain::Sensor => false,
        }
    }
}

/// Entities are enabled unless the layout says otherwise.
pub fn default_enabled_by_default() -> (enabled: bool)
    ensures
        enabled,
{
    true
}

/// Whether `c` is an ASCII letter or digit.
pub open spec fn is_ascii_alphanumeric(c: char) -> bool {
    'a' <= c <= 'z' || 'A' <= c <= 'Z' || '0' <= c <= '9'
}

/// The component id made from a source tag: lower case, with an underscore for
/// every character that is no ASCII letter or digit.
pub open spec fn derived_component_id(source: Seq<char>) -> Seq<char> {
    source.map_values(
        |c: char|
            if is_ascii_alphanumeric(c) {
                ascii_lower(c)
            } else {
                '_'
            },
    )
}

/// The component id of a field: its own, or the one made from its source.
pub open spec fn component_id_of(field: Field) -> Seq<char> {
    match field.discovery.component_id {
        Some(id) => id@,
        None => derived_component_id(field.source@),
    }
}

/// Makes a component id from a source tag.
pub fn component_id(source: &str) -> (id: String)
    ensures
        id@ == derived_component_id(source@),
{
    let mut id = String::new();
    for c in iter: source.chars()
        invariant
            iter.seq() == source@,
            id@ == derived_component_id(source@.take(iter.index() as int)),
    {
        let ghost before = source@.take(iter.index() as int);
        let keep = ('a' <= c && c <= 'z') || ('A' <= c && c <= 'Z') || ('0' <= c && c <= '9');
        if keep {
            id.push(lower_char(c));
        } else {
            id.push('_');
        }
        assert(source@.take(iter.index() + 1) =~= before.push(c));
        assert(id@ =~= derived_component_id(before.push(c)));
    }
    assert(source@.take(source@.len() as int) =~= source@);
    id
}

/// The component id of a field.
pub fn field_component_id(field: &Field) -> (id: String)
    ensures
        id@ == component_id_of(*field),
{
    match &field.discovery.component_id {
        Some(id) => id.clone(),
        None => component_id(field.source.as_str()),
    }
}

/// What can be wrong with a layout.
#[derive(Debug, Clone, Copy, PartialEq, Eq, Structural)]
pub enum LayoutFault {
    NoTopics,
    EmptyRemovedObjectId,
    DuplicateRemovedDiscovery(Domain),
    EmptySourceTopic,
    EmptyStateTopic,
    DuplicateSourceTopic,
    DuplicateStateTopic,
    NoFields,
    EmptyFieldSource,
    InvalidLength,
    DuplicateFieldSource,
    EmptyDiscoveryName,
    EmptyComponentId,
    DuplicateComponentId,
    IncompatibleDomain,
    ActiveWhenOnNonBool,
    MissingCommandTopic,
    UnexpectedCommandTopic,
    MissingRawCommandTopic,
    InvalidCommandDomain,
}

/// Why a layout is rejected.
#[derive(Debug)]
pub struct LayoutError {
    pub fault: LayoutFault,
    /// The topic, tag or id that the fault is about; empty where it is about none.
    pub subject: String,
}

impl View for LayoutError {
    type V = (LayoutFault, Seq<char>);

    open spec fn view(&self) -> (LayoutFault, Seq<char>) {
        (self.fault, self.subject@)
    }
}

/// Whether a text is empty or white space only.
pub open spec fn is_blank(text: Seq<char>) -> bool {
    trimmed(text).len() == 0
}

/// Whether position (`t1`, `f1`) stands before position (`t2`, `f2`).
pub open spec fn stands_before(t1: int, f1: int, t2: int, f2: int) -> bool {
    t1 < t2 || (t1 == t2 && f1 < f2)
}

/// Whether the layout has a field at (`t`, `f`).
pub open spec fn has_field(layout: Layout, t: int, f: int) -> bool {
    0 <= t < layout.topics@.len() && 0 <= f < layout.topics@[t].fields@.len()
}

/// The field at (`t`, `f`).
pub open spec fn field_at(layout: Layout, t: int, f: int) -> Field {
    layout.topics@[t].fields@[f]
}

/// Whether the source of the field at (`t`, `f`) was used by an earlier field.
pub open spec fn source_taken(layout: Layout, t: int, f: int) -> bool {
    exists|t1: int, f1: int|
        #![trigger field_at(layout, t1, f1)]
        has_field(layout, t1, f1) && stands_before(t1, f1, t, f) && field_at(layout, t1, f1).source@
            == field_at(layout, t, f).source@
}

/// Whether the component id of the field at (`t`, `f`) was used by an earlier
/// field.
pub open spec fn component_taken(layout: Layout, t: int, f: int) -> bool {
    exists|t1: int, f1: int|
        #![trigger field_at(layout, t1, f1)]
        has_field(layout, t1, f1) && stands_before(t1, f1, t, f) && component_id_of(
            field_at(layout, t1, f1),
        ) == component_id_of(field_at(layout, t, f))
}

/// Whether values of the type can be shown in the domain.
pub open spec fn domain_fits(value_type: ValueType, domain: Domain) -> bool {
    match value_type {
        ValueType::Bool => domain is BinarySensor || domain is Light || domain is Switch,
        ValueType::Int => domain is Sensor || domain is Select || domain is Number,
        ValueType::Float | ValueType::Timestamp => domain is Sensor,
    }
}

/// What is wrong with the removed discovery record at `i`.
pub open spec fn removed_fault(layout: Layout, i: int) -> Option<(LayoutFault, Seq<char>)> {
    let removed = layout.removed_discovery@[i];
    if is_blank(removed.object_id@) {
        Some((LayoutFault::EmptyRemovedObjectId, Seq::empty()))
    } else if exists|j: int|
        0 <= j < i && (#[trigger] layout.removed_discovery@[j]).domain == removed.domain
            && layout.removed_discovery@[j].object_id@ == removed.object_id@ {
        Some((LayoutFault::DuplicateRemovedDiscovery(removed.domain), removed.object_id@))
    } else {
        None
    }
}

/// What is wrong with the topic at `t`, its fields left aside.
pub open spec fn topic_fault(layout: Layout, t: int) -> Option<(LayoutFault, Seq<char>)> {
    let spec = layout.topics@[t];
    if is_blank(spec.source_topic@) {
        Some((LayoutFault::EmptySourceTopic, Seq::empty()))
    } else if is_blank(spec.state_topic@) {
        Some((LayoutFault::EmptyStateTopic, Seq::empty()))
    } else if exists|j: int|
        0 <= j < t && (#[trigger] layout.topics@[j]).source_topic@ == spec.source_topic@ {
        Some((LayoutFault::DuplicateSourceTopic, spec.source_topic@))
    } else if exists|j: int|
        0 <= j < t && (#[trigger] layout.topics@[j]).state_topic@ == spec.state_topic@ {
        Some((LayoutFault::DuplicateStateTopic, spec.state_topic@))
    } else if spec.fields@.len() == 0 {
        Some((LayoutFault::NoFields, spec.source_topic@))
    } else {
        None
    }
}

/// What is wrong with the field at (`t`, `f`).
pub open spec fn field_fault(layout: Layout, t: int, f: int) -> Option<(LayoutFault, Seq<char>)> {
    let spec = layout.topics@[t];
    let field = field_at(layout, t, f);
    let discovery = field.discovery;
    if is_blank(field.source@) {
        Some((LayoutFault::EmptyFieldSource, spec.source_topic@))
    } else if field.length == 0 {
        Some((LayoutFault::InvalidLength, field.source@))
    } else if source_taken(layout, t, f) {
        Some((LayoutFault::DuplicateFieldSource, field.source@))
    } else if is_blank(discovery.name@) {
        Some((LayoutFault::EmptyDiscoveryName, field.source@))
    } else if is_blank(component_id_of(field)) {
        Some((LayoutFault::EmptyComponentId, field.source@))
    } else if component_taken(layout, t, f) {
        Some((LayoutFault::DuplicateComponentId, component_id_of(field)))
    } else if !domain_fits(field.value_type, discovery.domain) {
        Some((LayoutFault::IncompatibleDomain, field.source@))
    } else if field.value_type != ValueType::Bool && field.active_when is Some {
        Some((LayoutFault::ActiveWhenOnNonBool, field.source@))
    } else if is_controllable(discovery.domain) && (discovery.command_topic is None || is_blank(
        discovery.command_topic->0@,
    )) {
        Some((LayoutFault::MissingCommandTopic, field.source@))
    } else if !is_controllable(discovery.domain) && discovery.command_topic is Some {
        Some((LayoutFault::UnexpectedCommandTopic, field.source@))
    } else if discovery.command_mask is Some && spec.raw_command_topic is None {
        Some((LayoutFault::MissingRawCommandTopic, field.source@))
    } else if discovery.command_mask is Some && !(discovery.domain is Switch
        || discovery.domain is Select || discovery.domain is Number) {
        Some((LayoutFault::InvalidCommandDomain, field.source@))
    } else {
        None
    }
}

/// The first fault among the removed discovery records from `i` on.
pub open spec fn removed_fault_from(layout: Layout, i: int) -> Option<(LayoutFault, Seq<char>)>
    decreases layout.removed_discovery@.len() - i,
{
    if 0 <= i < layout.removed_discovery@.len() {
        match removed_fault(layout, i) {
            Some(fault) => Some(fault),
            None => removed_fault_from(layout, i + 1),
        }
    } else {
        None
    }
}

/// The first fault among the fields of topic `t` from `f` on.
pub open spec fn field_fault_from(layout: Layout, t: int, f: int) -> Option<
    (LayoutFault, Seq<char>),
>
    decreases layout.topics@[t].fields@.len() - f,
{
    if 0 <= f < layout.topics@[t].fields@.len() {
        match field_fault(layout, t, f) {
            Some(fault) => Some(fault),
            None => field_fault_from(layout, t, f + 1),
        }
    } else {
        None
    }
}

/// The first fault among the topics from `t` on: of each topic itself, then of
/// its fields.
pub open spec fn topic_fault_from(layout: Layout, t: int) -> Option<(LayoutFault, Seq<char>)>
    decreases layout.topics@.len() - t,
{
    if 0 <= t < layout.topics@.len() {
        match topic_fault(layout, t) {
            Some(fault) => Some(fault),
            None => match field_fault_from(layout, t, 0) {
                Some(fault) => Some(fault),
                None => topic_fault_from(layout, t + 1),
            },
        }
    } else {
        None
    }
}

/// The first fault of a layout: no topics at all, then the removed discovery
/// records, then the topics in order.
pub open spec fn layout_fault(layout: Layout) -> Option<(LayoutFault, Seq<char>)> {
    if layout.topics@.len() == 0 {
        Some((LayoutFault::NoTopics, Seq::empty()))
    } else {
        match removed_fault_from(layout, 0) {
            Some(fault) => Some(fault),
            None => topic_fault_from(layout, 0),
        }
    }
}

fn fault_about(fault: LayoutFault, subject: &str) -> (error: LayoutError)
    ensures
        error@ == (fault, subject@),
{
    LayoutError { fault, subject: subject.to_owned() }
}

fn fault_alone(fault: LayoutFault) -> (error: LayoutError)
    ensures
        error@ == (fault, Seq::<char>::empty()),
{
    LayoutError { fault, subject: String::new() }
}

/// Whether a text is empty or white space only.
pub fn blank(text: &str) -> (is: bool)
    ensures
        is == is_blank(text@),
{
    text.trim().is_empty()
}

fn check_removed(layout: &Layout, i: usize) -> (result: Result<(), LayoutError>)
    requires
        i < layout.removed_discovery@.len(),
    ensures
        result is Ok <==> removed_fault(*layout, i as int) is None,
        result matches Err(error) ==> removed_fault(*layout, i as int) == Some(error@),
{
    let removed = &layout.removed_discovery[i];
    if blank(removed.object_id.as_str()) {
        return Err(fault_alone(LayoutFault::EmptyRemovedObjectId));
    }
    let mut j: usize = 0;
    while j < i
        invariant
            i < layout.removed_discovery@.len(),
            j <= i,
            *removed == layout.removed_discovery@[i as int],
            !is_blank(removed.object_id@),
            forall|k: int|
                0 <= k < j ==> (#[trigger] layout.removed_discovery@[k]).domain != removed.domain
                    || layout.removed_discovery@[k].object_id@ != removed.object_id@,
        decreases i - j,
    {
        let earlier = &layout.removed_discovery[j];
        if earlier.domain == removed.domain && text_eq(
            earlier.object_id.as_str(),
            removed.object_id.as_str(),
        ) {
            return Err(
                fault_about(
                    LayoutFault::DuplicateRemovedDiscovery(removed.domain),
                    removed.object_id.as_str(),
                ),
            );
        }
        j += 1;
    }
    Ok(())
}

fn check_topic(layout: &Layout, t: usize) -> (result: Result<(), LayoutError>)
    requires
        t < layout.topics@.len(),
    ensures
        result is Ok <==> topic_fault(*layout, t as int) is None,
        result matches Err(error) ==> topic_fault(*layout, t as int) == Some(error@),
{
    let spec = &layout.topics[t];
    if blank(spec.source_topic.as_str()) {
        return Err(fault_alone(LayoutFault::EmptySourceTopic));
    }
    if blank(spec.state_topic.as_str()) {
        return Err(fault_alone(LayoutFault::EmptyStateTopic));
    }
    let mut same_source = false;
    let mut same_state = false;
    let mut j: usize = 0;
    while j < t
        invariant
            t < layout.topics@.len(),
            j <= t,
            *spec == layout.topics@[t as int],
            same_source <==> exists|k: int|
                0 <= k < j && (#[trigger] layout.topics@[k]).source_topic@ == spec.source_topic@,
            same_state <==> exists|k: int|
                0 <= k < j && (#[trigger] layout.topics@[k]).state_topic@ == spec.state_topic@,
        decreases t - j,
    {
        let earlier = &layout.topics[j];
        if text_eq(earlier.source_topic.as_str(), spec.source_topic.as_str()) {
            same_source = true;
        }
        if text_eq(earlier.state_topic.as_str(), spec.state_topic.as_str()) {
            same_state = true;
        }
        j += 1;
    }
    if same_source {
        return Err(fault_about(LayoutFault::DuplicateSourceTopic, spec.source_topic.as_str()));
    }
    if same_state {
        return Err(fault_about(LayoutFault::DuplicateStateTopic, spec.state_topic.as_str()));
    }
    if spec.fields.len() == 0 {
        return Err(fault_about(LayoutFault::NoFields, spec.source_topic.as_str()));
    }
    Ok(())
}

/// Whether the source of a field was used by an earlier field.
fn is_source_taken(layout: &Layout, t: usize, f: usize) -> (taken: bool)
    requires
        has_field(*layout, t as int, f as int),
    ensures
        taken == source_taken(*layout, t as int, f as int),
{
    let field = &layout.topics[t].fields[f];
    let topic_count = layout.topics.len();
    let mut i: usize = 0;
    while i <= t
        invariant
            has_field(*layout, t as int, f as int),
            t < topic_count,
            i <= t + 1,
            *field == field_at(*layout, t as int, f as int),
            forall|t1: int, f1: int|
                #![trigger field_at(*layout, t1, f1)]
                t1 < i && has_field(*layout, t1, f1) && stands_before(t1, f1, t as int, f as int)
                    ==> field_at(*layout, t1, f1).source@ != field.source@,
        decreases t + 1 - i,
    {
        let fields = &layout.topics[i].fields;
        let end: usize = if i < t {
            fields.len()
        } else {
            f
        };
        let mut j: usize = 0;
        while j < end
            invariant
                has_field(*layout, t as int, f as int),
                i <= t < topic_count,
                *fields == layout.topics@[i as int].fields,
                end as int == (if i < t { fields@.len() as int } else { f as int }),
                end <= fields@.len(),
                j <= end,
                *field == field_at(*layout, t as int, f as int),
                forall|f1: int|
                    #![trigger field_at(*layout, i as int, f1)]
                    0 <= f1 < j ==> field_at(*layout, i as int, f1).source@ != field.source@,
            decreases end - j,
        {
            assert(fields@[j as int] == field_at(*layout, i as int, j as int));
            if text_eq(fields[j].source.as_str(), field.source.as_str()) {
                return true;
            }
            j += 1;
        }
        i += 1;
    }
    false
}

/// Whether the component id of a field was used by an earlier field.
fn is_component_taken(layout: &Layout, t: usize, f: usize, id: &str) -> (taken: bool)
    requires
        has_field(*layout, t as int, f as int),
        id@ == component_id_of(field_at(*layout, t as int, f as int)),
    ensures
        taken == component_taken(*layout, t as int, f as int),
{
    let topic_count = layout.topics.len();
    let mut i: usize = 0;
    while i <= t
        invariant
            has_field(*layout, t as int, f as int),
            t < topic_count,
            i <= t + 1,
            id@ == component_id_of(field_at(*layout, t as int, f as int)),
            forall|t1: int, f1: int|
                #![trigger field_at(*layout, t1, f1)]
                t1 < i && has_field(*layout, t1, f1) && stands_before(t1, f1, t as int, f as int)
                    ==> component_id_of(field_at(*layout, t1, f1)) != id@,
        decreases t + 1 - i,
    {
        let fields = &layout.topics[i].fields;
        let end: usize = if i < t {
            fields.len()
        } else {
            f
        };
        let mut j: usize = 0;
        while j < end
            invariant
                has_field(*layout, t as int, f as int),
                i <= t < topic_count,
                *fields == layout.topics@[i as int].fields,
                end as int == (if i < t { fields@.len() as int } else { f as int }),
                end <= fields@.len(),
                j <= end,
                id@ == component_id_of(field_at(*layout, t as int, f as int)),
                forall|f1: int|
                    #![trigger field_at(*layout, i as int, f1)]
                    0 <= f1 < j ==> component_id_of(field_at(*layout, i as int, f1)) != id@,
            decreases end - j,
        {
            assert(fields@[j as int] == field_at(*layout, i as int, j as int));
            if text_eq(field_component_id(&fields[j]).as_str(), id) {
                return true;
            }
            j += 1;
        }
        i += 1;
    }
    false
}

fn check_field(layout: &Layout, t: usize, f: usize) -> (result: Result<(), LayoutError>)
    requires
        has_field(*layout, t as int, f as int),
    ensures
        result is Ok <==> field_fault(*layout, t as int, f as int) is None,
        result matches Err(error) ==> field_fault(*layout, t as int, f as int) == Some(error@),
{
    let spec = &layout.topics[t];
    let field = &spec.fields[f];
    assert(*field == field_at(*layout, t as int, f as int));
    let source = field.source.as_str();
    let discovery = &field.discovery;
    if blank(source) {
        return Err(fault_about(LayoutFault::EmptyFieldSource, spec.source_topic.as_str()));
    }
    if field.length == 0 {
        return Err(fault_about(LayoutFault::InvalidLength, source));
    }
    if is_source_taken(layout, t, f) {
        return Err(fault_about(LayoutFault::DuplicateFieldSource, source));
    }
    if blank(discovery.name.as_str()) {
        return Err(fault_about(LayoutFault::EmptyDiscoveryName, source));
    }
    let id = field_component_id(field);
    if blank(id.as_str()) {
        return Err(fault_about(LayoutFault::EmptyComponentId, source));
    }
    if is_component_taken(layout, t, f, id.as_str()) {
        return Err(fault_about(LayoutFault::DuplicateComponentId, id.as_str()));
    }
    let fits = match (field.value_type, discovery.domain) {
        (ValueType::Bool, Domain::BinarySensor | Domain::Light | Domain::Switch) => true,
        (ValueType::Int, Domain::Sensor | Domain::Select | Domain::Number) => true,
        (ValueType::Float | ValueType::Timestamp, Domain::Sensor) => true,
        _ => false,
    };
    if !fits {
        return Err(fault_about(LayoutFault::IncompatibleDomain, source));
    }
    if field.value_type != ValueType::Bool && field.active_when.is_some() {
        return Err(fault_about(LayoutFault::ActiveWhenOnNonBool, source));
    }
    if discovery.domain.takes_commands() {
        let usable = match &discovery.command_topic {
            Some(topic) => !blank(topic.as_str()),
            None => false,
        };
        if !usable {
            return Err(fault_about(LayoutFault::MissingCommandTopic, source));
        }
    } else if discovery.command_topic.is_some() {
        return Err(fault_about(LayoutFault::UnexpectedCommandTopic, source));
    }
    if discovery.command_mask.is_some() {
        if spec.raw_command_topic.is_none() {
            return Err(fault_about(LayoutFault::MissingRawCommandTopic, source));
        }
        match discovery.domain {
            Domain::Switch | Domain::Select | Domain::Number => {},
            _ => {
                return Err(fault_about(LayoutFault::InvalidCommandDomain, source));
            },
        }
    }
    Ok(())
}

/// Checks a layout: its topics, fields, ids and removed discovery records. The
/// error is the first fault found.
pub fn validate_layout(layout: &Layout) -> (result: Result<(), LayoutError>)
    ensures
        result is Ok <==> layout_fault(*layout) is None,
        result matches Err(error) ==> layout_fault(*layout) == Some(error@),
{
    if layout.topics.len() == 0 {
        return Err(fault_alone(LayoutFault::NoTopics));
    }
    let mut i: usize = 0;
    while i < layout.removed_discovery.len()
        invariant
            i <= layout.removed_discovery@.len(),
            layout.topics@.len() > 0,
            removed_fault_from(*layout, 0) == removed_fault_from(*layout, i as int),
        decreases layout.removed_discovery@.len() - i,
    {
        match check_removed(layout, i) {
            Ok(()) => {},
            Err(error) => {
                return Err(error);
            },
        }
        i += 1;
    }
    let mut t: usize = 0;
    while t < layout.topics.len()
        invariant
            t <= layout.topics@.len(),
            layout.topics@.len() > 0,
            removed_fault_from(*layout, 0) is None,
            topic_fault_from(*layout, 0) == topic_fault_from(*layout, t as int),
        decreases layout.topics@.len() - t,
    {
        match check_topic(layout, t) {
            Ok(()) => {},
            Err(error) => {
                return Err(error);
            },
        }
        let mut f: usize = 0;
        while f < layout.topics[t].fields.len()
            invariant
                t < layout.topics@.len(),
                f <= layout.topics@[t as int].fields@.len(),
                layout.topics@.len() > 0,
                removed_fault_from(*layout, 0) is None,
                topic_fault_from(*layout, 0) == topic_fault_from(*layout, t as int),
                topic_fault(*layout, t as int) is None,
                field_fault_from(*layout, t as int, 0) == field_fault_from(
                    *layout,
                    t as int,
                    f as int,
                ),
            decreases layout.topics@[t as int].fields@.len() - f,
        {
            match check_field(layout, t, f) {
                Ok(()) => {},
                Err(error) => {
                    return Err(error);
                },
            }
            f += 1;
        }
        t += 1;
    }
    Ok(())
}

/// The text of a fault.
pub open spec fn layout_message(fault: LayoutFault, subject: Seq<char>) -> Seq<char> {
    match fault {
        LayoutFault::NoTopics => "packed MQTT layout has no topics"@,
        LayoutFault::EmptyRemovedObjectId => "removed discovery object_id cannot be empty"@,
        LayoutFault::DuplicateRemovedDiscovery(domain) => "duplicate removed discovery topic: "@
            + domain_name(domain) + "/"@ + subject,
        LayoutFault::EmptySourceTopic => "packed MQTT layout has an empty source topic"@,
        LayoutFault::EmptyStateTopic => "packed MQTT layout has an empty state topic"@,
        LayoutFault::DuplicateSourceTopic => "duplicate source topic in packed MQTT layout: "@
            + subject,
        LayoutFault::DuplicateStateTopic => "duplicate state topic in packed MQTT layout: "@
            + subject,
        LayoutFault::NoFields => "packed MQTT layout topic "@ + subject + " has no fields"@,
        LayoutFault::EmptyFieldSource => "packed MQTT layout topic "@ + subject
            + " has an empty field source"@,
        LayoutFault::InvalidLength => "packed MQTT layout field "@ + subject
            + " has an invalid length"@,
        LayoutFault::DuplicateFieldSource => "duplicate field source in packed MQTT layout: "@
            + subject,
        LayoutFault::EmptyDiscoveryName => "packed MQTT layout field "@ + subject
            + " has an empty discovery name"@,
        LayoutFault::EmptyComponentId => "packed MQTT layout field "@ + subject
            + " has an empty component_id"@,
        LayoutFault::DuplicateComponentId =>
            "duplicate discovery component_id in packed MQTT layout: "@ + subject,
        LayoutFault::IncompatibleDomain => "packed MQTT layout field "@ + subject
            + " has incompatible value_type/domain"@,
        LayoutFault::ActiveWhenOnNonBool => "packed MQTT layout field "@ + subject
            + " uses active_when on a non-bool field"@,
        LayoutFault::MissingCommandTopic => "packed MQTT controllable field "@ + subject
            + " requires command_topic"@,
        LayoutFault::UnexpectedCommandTopic => "packed MQTT layout field "@ + subject
            + " uses command_topic outside the light domain"@,
        LayoutFault::MissingRawCommandTopic => "encoded command field "@ + subject
            + " requires raw_command_topic"@,
        LayoutFault::InvalidCommandDomain => "encoded command field "@ + subject
            + " has invalid domain"@,
    }
}

impl LayoutError {
    /// The text of the error.
    pub fn message(&self) -> (text: String)
        ensures
            text@ == layout_message(self.fault, self.subject@),
    {
        let subject = self.subject.as_str();
        match self.fault {
            LayoutFault::NoTopics => "packed MQTT layout has no topics".to_owned(),
            LayoutFault::EmptyRemovedObjectId => {
                "removed discovery object_id cannot be empty".to_owned()
            },
            LayoutFault::DuplicateRemovedDiscovery(domain) => {
                concat3("duplicate removed discovery topic: ", domain.as_str(), "/").concat(subject)
            },
            LayoutFault::EmptySourceTopic => {
                "packed MQTT layout has an empty source topic".to_owned()
            },
            LayoutFault::EmptyStateTopic => "packed MQTT layout has an empty state topic".to_owned(),
            LayoutFault::DuplicateSourceTopic => {
                "duplicate source topic in packed MQTT layout: ".to_owned().concat(subject)
            },
            LayoutFault::DuplicateStateTopic => {
                "duplicate state topic in packed MQTT layout: ".to_owned().concat(subject)
            },
            LayoutFault::NoFields => {
                concat3("packed MQTT layout topic ", subject, " has no fields")
            },
            LayoutFault::EmptyFieldSource => {
                concat3("packed MQTT layout topic ", subject, " has an empty field source")
            },
            LayoutFault::InvalidLength => {
                concat3("packed MQTT layout field ", subject, " has an invalid length")
            },
            LayoutFault::DuplicateFieldSource => {
                "duplicate field source in packed MQTT layout: ".to_owned().concat(subject)
            },
            LayoutFault::EmptyDiscoveryName => {
                concat3("packed MQTT layout field ", subject, " has an empty discovery name")
            },
            LayoutFault::EmptyComponentId => {
                concat3("packed MQTT layout field ", subject, " has an empty component_id")
            },
            LayoutFault::DuplicateComponentId => {
                "duplicate discovery component_id in packed MQTT layout: ".to_owned().concat(subject)
            },
            LayoutFault::IncompatibleDomain => {
                concat3("packed MQTT layout field ", subject, " has incompatible value_type/domain")
            },
            LayoutFault::ActiveWhenOnNonBool => {
                concat3(
                    "packed MQTT layout field ",
                    subject,
                    " uses active_when on a non-bool field",
                )
            },
            LayoutFault::MissingCommandTopic => {
                concat3("packed MQTT controllable field ", subject, " requires command_topic")
            },
            LayoutFault::UnexpectedCommandTopic => {
                concat3(
                    "packed MQTT layout field ",
                    subject,
                    " uses command_topic outside the light domain",
                )
            },
            LayoutFault::MissingRawCommandTopic => {
                concat3("encoded command field ", subject, " requires raw_command_topic")
            },
            LayoutFault::InvalidCommandDomain => {
                concat3("encoded command field ", subject, " has invalid domain")
            },
        }
    }
}

/// What validation promises of a layout: it has topics, each with fields and
/// with a source and a state topic of its own; every field has a source and a
/// component id of its own; removed records are distinct; commands have topics
/// exactly where an entity takes them.
pub open spec fn is_valid_layout(layout: Layout) -> bool {
    &&& layout.topics@.len() > 0
    &&& forall|i: int|
        0 <= i < layout.removed_discovery@.len() ==> !is_all_white(
            (#[trigger] layout.removed_discovery@[i]).object_id@,
        )
    &&& forall|i: int, j: int|
        0 <= i < j < layout.removed_discovery@.len() ==> (
        #[trigger] layout.removed_discovery@[i]).domain != (
        #[trigger] layout.removed_discovery@[j]).domain || layout.removed_discovery@[i].object_id@
            != layout.removed_discovery@[j].object_id@
    &&& forall|t: int|
        0 <= t < layout.topics@.len() ==> {
            let spec = #[trigger] layout.topics@[t];
            !is_all_white(spec.source_topic@) && !is_all_white(spec.state_topic@) && spec.fields@.len() > 0
        }
    &&& forall|i: int, j: int|
        0 <= i < j < layout.topics@.len() ==> (#[trigger] layout.topics@[i]).source_topic@ != (
        #[trigger] layout.topics@[j]).source_topic@ && layout.topics@[i].state_topic@
            != layout.topics@[j].state_topic@
    &&& forall|t: int, f: int| #[trigger]
        has_field(layout, t, f) ==> is_valid_field(layout.topics@[t], field_at(layout, t, f))
    &&& forall|t1: int, f1: int, t2: int, f2: int|
        #![trigger field_at(layout, t1, f1), field_at(layout, t2, f2)]
        has_field(layout, t1, f1) && has_field(layout, t2, f2) && stands_before(t1, f1, t2, f2)
            ==> field_at(layout, t1, f1).source@ != field_at(layout, t2, f2).source@
            && component_id_of(field_at(layout, t1, f1)) != component_id_of(
            field_at(layout, t2, f2),
        )
}

/// What validation promises of one field of a topic.
pub open spec fn is_valid_field(spec: TopicSpec, field: Field) -> bool {
    let discovery = field.discovery;
    &&& !is_all_white(field.source@)
    &&& field.length > 0
    &&& !is_all_white(discovery.name@)
    &&& !is_all_white(component_id_of(field))
    &&& shows_in(field.value_type, discovery.domain)
    &&& field.active_when is Some ==> field.value_type is Bool
    &&& (discovery.domain is Sensor || discovery.domain is BinarySensor)
        <==> discovery.command_topic is None
    &&& discovery.command_topic is Some ==> !is_all_white(discovery.command_topic->0@)
    &&& discovery.command_mask is Some ==> spec.raw_command_topic is Some && (
    discovery.domain is Switch || discovery.domain is Select || discovery.domain is Number)
}

/// Which values an entity shows: a light, a switch or a binary sensor shows
/// booleans, a select or a number shows integers, and a sensor shows anything
/// but booleans.
pub open spec fn shows_in(value_type: ValueType, domain: Domain) -> bool {
    match domain {
        Domain::Light | Domain::Switch | Domain::BinarySensor => value_type is Bool,
        Domain::Select | Domain::Number => value_type is Int,
        Domain::Sensor => !(value_type is Bool),
    }
}

proof fn lemma_blank_is_white(text: Seq<char>)
    ensures
        is_blank(text) <==> is_all_white(text),
{
    lemma_trimmed_to_nothing(text);
}

proof fn lemma_blanks_are_white()
    ensures
        forall|text: Seq<char>| #[trigger] is_blank(text) <==> is_all_white(text),
{
    assert forall|text: Seq<char>| #[trigger] is_blank(text) <==> is_all_white(text) by {
        lemma_blank_is_white(text);
    }
}

proof fn lemma_removed_fault_from(layout: Layout, i: int)
    requires
        0 <= i,
    ensures
        removed_fault_from(layout, i) is None <==> forall|k: int|
            i <= k < layout.removed_discovery@.len() ==> #[trigger] removed_fault(layout, k) is None,
    decreases layout.removed_discovery@.len() - i,
{
    if i < layout.removed_discovery@.len() {
        lemma_removed_fault_from(layout, i + 1);
        assert(removed_fault(layout, i) is None || removed_fault(layout, i) is Some);
    }
}

proof fn lemma_field_fault_from(layout: Layout, t: int, f: int)
    requires
        0 <= f,
    ensures
        field_fault_from(layout, t, f) is None <==> forall|k: int|
            f <= k < layout.topics@[t].fields@.len() ==> #[trigger] field_fault(layout, t, k) is None,
    decreases layout.topics@[t].fields@.len() - f,
{
    if f < layout.topics@[t].fields@.len() {
        lemma_field_fault_from(layout, t, f + 1);
        assert(field_fault(layout, t, f) is None || field_fault(layout, t, f) is Some);
    }
}

proof fn lemma_topic_fault_from(layout: Layout, t: int)
    requires
        0 <= t,
    ensures
        topic_fault_from(layout, t) is None <==> forall|k: int|
            t <= k < layout.topics@.len() ==> #[trigger] topic_fault(layout, k) is None
                && field_fault_from(layout, k, 0) is None,
    decreases layout.topics@.len() - t,
{
    if t < layout.topics@.len() {
        lemma_topic_fault_from(layout, t + 1);
        assert(topic_fault(layout, t) is None || topic_fault(layout, t) is Some);
    }
}

/// A layout passes validation exactly where everything that validation
/// promises holds of it.
pub proof fn validation_is_exact(layout: Layout)
    ensures
        layout_fault(layout) is None <==> is_valid_layout(layout),
{
    lemma_blanks_are_white();
    lemma_removed_fault_from(layout, 0);
    lemma_topic_fault_from(layout, 0);
    assert forall|t: int| 0 <= t < layout.topics@.len() implies (#[trigger] field_fault_from(
        layout,
        t,
        0,
    ) is None <==> forall|k: int|
        0 <= k < layout.topics@[t].fields@.len() ==> #[trigger] field_fault(layout, t, k) is None)
        by {
        lemma_field_fault_from(layout, t, 0);
    }
    if layout_fault(layout) is None {
        assert forall|i: int| 0 <= i < layout.removed_discovery@.len() implies !is_all_white(
            (#[trigger] layout.removed_discovery@[i]).object_id@,
        ) by {
            assert(removed_fault(layout, i) is None);
        }
        assert forall|i: int, j: int| 0 <= i < j < layout.removed_discovery@.len() implies (
        #[trigger] layout.removed_discovery@[i]).domain != (
        #[trigger] layout.removed_discovery@[j]).domain || layout.removed_discovery@[i].object_id@
            != layout.removed_discovery@[j].object_id@ by {
            assert(removed_fault(layout, j) is None);
        }
        assert forall|t: int| 0 <= t < layout.topics@.len() implies {
            let spec = #[trigger] layout.topics@[t];
            !is_all_white(spec.source_topic@) && !is_all_white(spec.state_topic@) && spec.fields@.len() > 0
        } by {
            assert(topic_fault(layout, t) is None);
        }
        assert forall|i: int, j: int| 0 <= i < j < layout.topics@.len() implies (
        #[trigger] layout.topics@[i]).source_topic@ != (#[trigger] layout.topics@[j]).source_topic@
            && layout.topics@[i].state_topic@ != layout.topics@[j].state_topic@ by {
            assert(topic_fault(layout, j) is None);
        }
        assert forall|t: int, f: int| #[trigger] has_field(layout, t, f) implies is_valid_field(
            layout.topics@[t],
            field_at(layout, t, f),
        ) by {
            assert(topic_fault(layout, t) is None);
            assert(field_fault(layout, t, f) is None);
        }
        assert forall|t1: int, f1: int, t2: int, f2: int|
            #![trigger field_at(layout, t1, f1), field_at(layout, t2, f2)]
            has_field(layout, t1, f1) && has_field(layout, t2, f2) && stands_before(
                t1,
                f1,
                t2,
                f2,
            ) implies field_at(layout, t1, f1).source@ != field_at(layout, t2, f2).source@
            && component_id_of(field_at(layout, t1, f1)) != component_id_of(
            field_at(layout, t2, f2),
        ) by {
            assert(topic_fault(layout, t2) is None);
            assert(field_fault(layout, t2, f2) is None);
        }
    }
    if is_valid_layout(layout) {
        assert forall|t: int| 0 <= t < layout.topics@.len() implies #[trigger] topic_fault(
            layout,
            t,
        ) is None && field_fault_from(layout, t, 0) is None by {
            assert forall|k: int| 0 <= k < layout.topics@[t].fields@.len() implies
                #[trigger] field_fault(layout, t, k) is None by {
                assert(has_field(layout, t, k));
                assert(field_at(layout, t, k) == field_at(layout, t, k));
            }
        }
    }
}

/// A component id is the one that the layout gives, or else the source tag with
/// its capitals made small and everything that is no ASCII letter or digit made
/// an underscore, character by character.
pub proof fn component_ids_are_given_or_derived(field: Field)
    ensures
        field.discovery.component_id is Some ==> component_id_of(field)
            == field.discovery.component_id->0@,
        field.discovery.component_id is None ==> {
            let id = component_id_of(field);
            &&& id.len() == field.source@.len()
            &&& forall|i: int|
                0 <= i < id.len() ==> {
                    let code = field.source@[i] as int;
                    #[trigger] id[i] as int == (if 65 <= code <= 90 {
                        code + 32
                    } else if 97 <= code <= 122 || 48 <= code <= 57 {
                        code
                    } else {
                        95
                    })
                }
        },
{
}

/// Whether a field is one that a fault of fields can be about.
pub open spec fn is_faulty_field(spec: TopicSpec, field: Field, fault: LayoutFault) -> bool {
    let discovery = field.discovery;
    let controllable = !(discovery.domain is Sensor || discovery.domain is BinarySensor);
    match fault {
        LayoutFault::InvalidLength => field.length == 0,
        LayoutFault::EmptyDiscoveryName => is_all_white(discovery.name@),
        LayoutFault::EmptyComponentId => is_all_white(component_id_of(field)),
        LayoutFault::IncompatibleDomain => !shows_in(field.value_type, discovery.domain),
        LayoutFault::ActiveWhenOnNonBool => field.active_when is Some && !(
        field.value_type is Bool),
        LayoutFault::MissingCommandTopic => controllable && (discovery.command_topic is None
            || is_all_white(discovery.command_topic->0@)),
        LayoutFault::UnexpectedCommandTopic => !controllable && discovery.command_topic is Some,
        LayoutFault::MissingRawCommandTopic => discovery.command_mask is Some
            && spec.raw_command_topic is None,
        LayoutFault::InvalidCommandDomain => discovery.command_mask is Some && (
        discovery.domain is Light || discovery.domain is Sensor
            || discovery.domain is BinarySensor),
        _ => false,
    }
}

/// In which order the faults of a topic and of its fields are looked for.
pub open spec fn fault_order(fault: LayoutFault) -> int {
    match fault {
        LayoutFault::EmptySourceTopic => 0,
        LayoutFault::EmptyStateTopic => 1,
        LayoutFault::DuplicateSourceTopic => 2,
        LayoutFault::DuplicateStateTopic => 3,
        LayoutFault::NoFields => 4,
        LayoutFault::EmptyFieldSource => 5,
        LayoutFault::InvalidLength => 6,
        LayoutFault::DuplicateFieldSource => 7,
        LayoutFault::EmptyDiscoveryName => 8,
        LayoutFault::EmptyComponentId => 9,
        LayoutFault::DuplicateComponentId => 10,
        LayoutFault::IncompatibleDomain => 11,
        LayoutFault::ActiveWhenOnNonBool => 12,
        LayoutFault::MissingCommandTopic => 13,
        LayoutFault::UnexpectedCommandTopic => 14,
        LayoutFault::MissingRawCommandTopic => 15,
        LayoutFault::InvalidCommandDomain => 16,
        _ => -1,
    }
}

/// Whether a topic, its fields left aside, has a fault.
pub open spec fn topic_has(layout: Layout, t: int, fault: LayoutFault) -> bool {
    let spec = layout.topics@[t];
    match fault {
        LayoutFault::EmptySourceTopic => is_all_white(spec.source_topic@),
        LayoutFault::EmptyStateTopic => is_all_white(spec.state_topic@),
        LayoutFault::DuplicateSourceTopic => exists|u: int|
            0 <= u < t && (#[trigger] layout.topics@[u]).source_topic@ == spec.source_topic@,
        LayoutFault::DuplicateStateTopic => exists|u: int|
            0 <= u < t && (#[trigger] layout.topics@[u]).state_topic@ == spec.state_topic@,
        LayoutFault::NoFields => spec.fields@.len() == 0,
        _ => false,
    }
}

/// Whether a field has a fault.
pub open spec fn field_has(layout: Layout, t: int, f: int, fault: LayoutFault) -> bool {
    let spec = layout.topics@[t];
    let field = spec.fields@[f];
    match fault {
        LayoutFault::EmptyFieldSource => is_all_white(field.source@),
        LayoutFault::DuplicateFieldSource => exists|t1: int, f1: int|
            #![trigger field_at(layout, t1, f1)]
            has_field(layout, t1, f1) && (t1 < t || t1 == t && f1 < f) && field_at(
                layout,
                t1,
                f1,
            ).source@ == field.source@,
        LayoutFault::DuplicateComponentId => exists|t1: int, f1: int|
            #![trigger field_at(layout, t1, f1)]
            has_field(layout, t1, f1) && (t1 < t || t1 == t && f1 < f) && component_id_of(
                field_at(layout, t1, f1),
            ) == component_id_of(field),
        _ => is_faulty_field(spec, field, fault),
    }
}

/// What a fault of a topic or of a field is reported about: the component id
/// that is taken, the source topic of a topic without fields or of a field
/// without a source, the topic that is taken, and else the field's source.
pub open spec fn fault_subject(layout: Layout, t: int, f: int, fault: LayoutFault) -> Seq<char> {
    let spec = layout.topics@[t];
    match fault {
        LayoutFault::EmptySourceTopic | LayoutFault::EmptyStateTopic => Seq::empty(),
        LayoutFault::DuplicateSourceTopic
        | LayoutFault::NoFields
        | LayoutFault::EmptyFieldSource => spec.source_topic@,
        LayoutFault::DuplicateStateTopic => spec.state_topic@,
        LayoutFault::DuplicateComponentId => component_id_of(spec.fields@[f]),
        _ => spec.fields@[f].source@,
    }
}

/// Whether nothing is wrong with a topic, its fields left aside.
pub open spec fn topic_is_sound(layout: Layout, t: int) -> bool {
    forall|fault: LayoutFault| !#[trigger] topic_has(layout, t, fault)
}

/// Whether nothing is wrong with a field.
pub open spec fn field_is_sound(layout: Layout, t: int, f: int) -> bool {
    forall|fault: LayoutFault| !#[trigger] field_has(layout, t, f, fault)
}

/// Whether nothing is wrong with a topic and its fields.
pub open spec fn topic_is_wholly_sound(layout: Layout, t: int) -> bool {
    topic_is_sound(layout, t) && forall|f: int|
        0 <= f < layout.topics@[t].fields@.len() ==> #[trigger] field_is_sound(layout, t, f)
}

/// Whether a fault is the first of a topic, where every field before `f` is
/// sound.
pub open spec fn is_first_of_topic(
    layout: Layout,
    t: int,
    fault: LayoutFault,
    subject: Seq<char>,
) -> bool {
    ||| {
        &&& topic_has(layout, t, fault)
        &&& subject == fault_subject(layout, t, 0, fault)
        &&& forall|other: LayoutFault|
            fault_order(other) < fault_order(fault) ==> !#[trigger] topic_has(layout, t, other)
    }
    ||| topic_is_sound(layout, t) && exists|f: int| #[trigger]
        is_first_of_fields(layout, t, f, fault, subject)
}

/// Whether a fault is the first of a topic's fields, and the field's at `f`.
pub open spec fn is_first_of_fields(
    layout: Layout,
    t: int,
    f: int,
    fault: LayoutFault,
    subject: Seq<char>,
) -> bool {
    &&& 0 <= f < layout.topics@[t].fields@.len()
    &&& field_has(layout, t, f, fault)
    &&& subject == fault_subject(layout, t, f, fault)
    &&& forall|other: LayoutFault|
        fault_order(other) < fault_order(fault) ==> !#[trigger] field_has(layout, t, f, other)
    &&& forall|g: int| 0 <= g < f ==> #[trigger] field_is_sound(layout, t, g)
}

proof fn lemma_first_of_topic(layout: Layout, t: int)
    requires
        0 <= t < layout.topics@.len(),
    ensures
        match topic_fault(layout, t) {
            Some((fault, subject)) => topic_has(layout, t, fault) && subject == fault_subject(
                layout,
                t,
                0,
                fault,
            ) && forall|other: LayoutFault|
                fault_order(other) < fault_order(fault) ==> !#[trigger] topic_has(layout, t, other),
            None => topic_is_sound(layout, t),
        },
{
    let spec = layout.topics@[t];
    lemma_blank_is_white(spec.source_topic@);
    lemma_blank_is_white(spec.state_topic@);
}

proof fn lemma_first_of_field(layout: Layout, t: int, f: int)
    requires
        has_field(layout, t, f),
    ensures
        match field_fault(layout, t, f) {
            Some((fault, subject)) => field_has(layout, t, f, fault) && subject == fault_subject(
                layout,
                t,
                f,
                fault,
            ) && forall|other: LayoutFault|
                fault_order(other) < fault_order(fault) ==> !#[trigger] field_has(
                    layout,
                    t,
                    f,
                    other,
                ),
            None => field_is_sound(layout, t, f),
        },
{
    let field = field_at(layout, t, f);
    lemma_blank_is_white(field.source@);
    lemma_blank_is_white(field.discovery.name@);
    lemma_blank_is_white(component_id_of(field));
    if field.discovery.command_topic is Some {
        lemma_blank_is_white(field.discovery.command_topic->0@);
    }
}

proof fn lemma_first_of_fields(layout: Layout, t: int, f: int)
    requires
        0 <= t < layout.topics@.len(),
        0 <= f,
        forall|g: int|
            0 <= g < f && g < layout.topics@[t].fields@.len() ==> #[trigger] field_is_sound(
                layout,
                t,
                g,
            ),
    ensures
        match field_fault_from(layout, t, f) {
            Some((fault, subject)) => exists|k: int| #[trigger]
                is_first_of_fields(layout, t, k, fault, subject),
            None => forall|g: int|
                0 <= g < layout.topics@[t].fields@.len() ==> #[trigger] field_is_sound(
                    layout,
                    t,
                    g,
                ),
        },
    decreases layout.topics@[t].fields@.len() - f,
{
    if f < layout.topics@[t].fields@.len() {
        lemma_first_of_field(layout, t, f);
        match field_fault(layout, t, f) {
            Some((fault, subject)) => {
                assert(is_first_of_fields(layout, t, f, fault, subject));
            },
            None => {
                lemma_first_of_fields(layout, t, f + 1);
            },
        }
    }
}

proof fn lemma_first_of_topics(layout: Layout, t: int)
    requires
        0 <= t,
        forall|u: int|
            0 <= u < t && u < layout.topics@.len() ==> #[trigger] topic_is_wholly_sound(layout, u),
    ensures
        match topic_fault_from(layout, t) {
            Some((fault, subject)) => exists|u: int|
                0 <= u < layout.topics@.len() && #[trigger] is_first_of_topic(
                    layout,
                    u,
                    fault,
                    subject,
                ) && forall|v: int| 0 <= v < u ==> #[trigger] topic_is_wholly_sound(layout, v),
            None => true,
        },
    decreases layout.topics@.len() - t,
{
    if t < layout.topics@.len() {
        lemma_first_of_topic(layout, t);
        match topic_fault(layout, t) {
            Some((fault, subject)) => {
                assert(is_first_of_topic(layout, t, fault, subject));
            },
            None => {
                lemma_first_of_fields(layout, t, 0);
                match field_fault_from(layout, t, 0) {
                    Some((fault, subject)) => {
                        assert(is_first_of_topic(layout, t, fault, subject));
                    },
                    None => {
                        assert(topic_is_wholly_sound(layout, t));
                        lemma_first_of_topics(layout, t + 1);
                    },
                }
            },
        }
    }
}

/// A layout that is refused has the fault that is reported, and of several the
/// first one is. The removed records are looked at before the topics, the topics
/// in their order, each before its fields, the fields in their order, and the
/// faults of each in a fixed one.
pub proof fn the_first_layout_fault_is_reported(layout: Layout)
    requires
        layout_fault(layout) is Some,
    ensures
        ({
            let (fault, subject) = layout_fault(layout)->0;
            let removed = layout.removed_discovery@;
            match fault {
                LayoutFault::NoTopics => layout.topics@.len() == 0 && subject.len() == 0,
                LayoutFault::EmptyRemovedObjectId
                | LayoutFault::DuplicateRemovedDiscovery(_) => layout.topics@.len() > 0 && exists|
                    i: int,
                | #[trigger]
                    is_first_removed_fault(removed, i, fault, subject),
                _ => {
                    &&& forall|i: int| 0 <= i < removed.len() ==> #[trigger] is_sound_removed(removed, i)
                    &&& exists|t: int|
                        0 <= t < layout.topics@.len() && #[trigger] is_first_of_topic(
                            layout,
                            t,
                            fault,
                            subject,
                        ) && forall|u: int|
                            0 <= u < t ==> #[trigger] topic_is_wholly_sound(layout, u)
                },
            }
        }),
{
    lemma_first_removed(layout, 0);
    lemma_first_of_topics(layout, 0);
    if layout.topics@.len() > 0 && removed_fault_from(layout, 0) is None {
        let (fault, subject) = topic_fault_from(layout, 0)->0;
        let t = choose|t: int|
            0 <= t < layout.topics@.len() && #[trigger] is_first_of_topic(
                layout,
                t,
                fault,
                subject,
            ) && forall|u: int| 0 <= u < t ==> #[trigger] topic_is_wholly_sound(layout, u);
        assert(is_first_of_topic(layout, t, fault, subject));
    }
}

/// Whether a removed record has an id and no earlier one is the same.
pub open spec fn is_sound_removed(removed: Seq<RemovedDiscovery>, i: int) -> bool {
    &&& !is_all_white(removed[i].object_id@)
    &&& forall|j: int|
        0 <= j < i ==> (#[trigger] removed[j]).domain != removed[i].domain
            || removed[j].object_id@ != removed[i].object_id@
}

/// Whether a fault is that of the first removed record with one.
pub open spec fn is_first_removed_fault(
    removed: Seq<RemovedDiscovery>,
    i: int,
    fault: LayoutFault,
    subject: Seq<char>,
) -> bool {
    &&& 0 <= i < removed.len()
    &&& forall|j: int| 0 <= j < i ==> #[trigger] is_sound_removed(removed, j)
    &&& !is_sound_removed(removed, i)
    &&& if is_all_white(removed[i].object_id@) {
        fault is EmptyRemovedObjectId && subject.len() == 0
    } else {
        fault == LayoutFault::DuplicateRemovedDiscovery(removed[i].domain) && subject
            == removed[i].object_id@
    }
}

proof fn lemma_first_removed(layout: Layout, i: int)
    requires
        0 <= i,
        forall|j: int|
            0 <= j < i && j < layout.removed_discovery@.len() ==> #[trigger] is_sound_removed(
                layout.removed_discovery@,
                j,
            ),
    ensures
        match removed_fault_from(layout, i) {
            Some((fault, subject)) => (fault is EmptyRemovedObjectId
                || fault is DuplicateRemovedDiscovery) && exists|k: int| #[trigger]
                is_first_removed_fault(layout.removed_discovery@, k, fault, subject),
            None => forall|j: int|
                0 <= j < layout.removed_discovery@.len() ==> #[trigger] is_sound_removed(
                    layout.removed_discovery@,
                    j,
                ),
        },
    decreases layout.removed_discovery@.len() - i,
{
    let removed = layout.removed_discovery@;
    if i < removed.len() {
        lemma_blank_is_white(removed[i].object_id@);
        match removed_fault(layout, i) {
            Some((fault, subject)) => {
                assert(is_first_removed_fault(removed, i, fault, subject));
            },
            None => {
                assert(is_sound_removed(removed, i));
                lemma_first_removed(layout, i + 1);
            },
        }
    }
}

/// Whether the text of a fault has its subject at `k`, whatever the subject is,
/// and is the same around it.
pub open spec fn names_subject_at(fault: LayoutFault, k: int) -> bool {
    let around = layout_message(fault, Seq::empty());
    &&& 0 <= k <= around.len()
    &&& forall|subject: Seq<char>| #[trigger]
        layout_message(fault, subject) == around.take(k) + subject + around.skip(k)
}

/// The text of a fault names its subject word for word, always in the same
/// place; the text of a fault that is about none is always the same.
pub proof fn layout_messages_name_their_subject(fault: LayoutFault)
    ensures
        if fault is NoTopics || fault is EmptyRemovedObjectId || fault is EmptySourceTopic
            || fault is EmptyStateTopic {
            forall|subject: Seq<char>| #[trigger]
                layout_message(fault, subject) == layout_message(fault, Seq::empty())
        } else {
            exists|k: int| names_subject_at(fault, k)
        },
{
    let k: int = match fault {
        LayoutFault::DuplicateRemovedDiscovery(domain) => ("duplicate removed discovery topic: "@
            + domain_name(domain) + "/"@).len() as int,
        LayoutFault::DuplicateSourceTopic =>
            "duplicate source topic in packed MQTT layout: "@.len() as int,
        LayoutFault::DuplicateStateTopic =>
            "duplicate state topic in packed MQTT layout: "@.len() as int,
        LayoutFault::NoFields | LayoutFault::EmptyFieldSource =>
            "packed MQTT layout topic "@.len() as int,
        LayoutFault::DuplicateFieldSource =>
            "duplicate field source in packed MQTT layout: "@.len() as int,
        LayoutFault::DuplicateComponentId =>
            "duplicate discovery component_id in packed MQTT layout: "@.len() as int,
        LayoutFault::MissingCommandTopic => "packed MQTT controllable field "@.len() as int,
        LayoutFault::MissingRawCommandTopic | LayoutFault::InvalidCommandDomain =>
            "encoded command field "@.len() as int,
        _ => "packed MQTT layout field "@.len() as int,
    };
    if !(fault is NoTopics || fault is EmptyRemovedObjectId || fault is EmptySourceTopic
        || fault is EmptyStateTopic) {
        let around = layout_message(fault, Seq::empty());
        assert forall|subject: Seq<char>| #[trigger] layout_message(fault, subject) == around.take(
            k,
        ) + subject + around.skip(k) by {
            assert(layout_message(fault, subject) =~= around.take(k) + subject + around.skip(k));
        }
        assert(names_subject_at(fault, k));
    }
}

} // verus!
