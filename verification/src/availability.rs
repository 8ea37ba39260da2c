//! Recovery after a lost connection: how long to wait, and what to replay.

use vstd::arithmetic::power2::{lemma2_to64, lemma_pow2_unfold, pow2};
use vstd::prelude::*;

use crate::layout::Layout;
use crate::text::text_eq;
use crate::{
    CLOCK_TOPIC_HEALTH_EXPIRE_AFTER_SECONDS, DEFAULT_TOPIC_HEALTH_EXPIRE_AFTER_SECONDS,
};

verus! {

/// A cached state is replayed for this long after it was received.
pub const REPLAY_MAX_AGE_NANOS: u128 = 60_000_000_000;

/// The delay before each attempt to reconnect, in nanoseconds.
#[derive(Debug)]
pub struct ReconnectBackoff {
    pub initial: u128,
    pub current: u128,
    pub max: u128,
}

/// Twice a delay, but never more than the longest one.
pub open spec fn doubled_delay(delay: u128, max: u128) -> u128 {
    if 2 * delay <= max {
        (2 * delay) as u128
    } else {
        max
    }
}

impl ReconnectBackoff {
    /// A backoff that starts at `initial`.
    pub fn new(initial: u128, max: u128) -> (backoff: Self)
        ensures
            backoff.initial == initial,
            backoff.current == initial,
            backoff.max == max,
    {
        ReconnectBackoff { initial, current: initial, max }
    }

    /// The delay before the next attempt; the one after it is twice as long,
    /// up to the longest one.
    pub fn next_delay(&mut self) -> (delay: u128)
        ensures
            delay == old(self).current,
            final(self).current == doubled_delay(old(self).current, old(self).max),
            final(self).initial == old(self).initial,
            final(self).max == old(self).max,
    {
        let delay = self.current;
        self.current =
        if delay <= self.max / 2 {
            2 * delay
        } else {
            self.max
        };
        delay
    }

    /// Starts over, after a connection succeeded.
    pub fn reset(&mut self)
        ensures
            final(self).current == old(self).initial,
            final(self).initial == old(self).initial,
            final(self).max == old(self).max,
    {
        self.current = self.initial;
    }
}

/// The delay before attempt `n` after a success, counted from zero.
pub open spec fn delay_before(backoff: ReconnectBackoff, n: nat) -> u128
    decreases n,
{
    if n == 0 {
        backoff.initial
    } else {
        doubled_delay(delay_before(backoff, (n - 1) as nat), backoff.max)
    }
}

/// Delays double until they reach the longest one, never shrink and never
/// exceed it, where the first one does not.
pub proof fn delays_double_up_to_the_longest(backoff: ReconnectBackoff, n: nat)
    requires
        backoff.initial <= backoff.max,
    ensures
        delay_before(backoff, n) <= delay_before(backoff, n + 1) <= backoff.max,
        delay_before(backoff, n + 1) == 2 * delay_before(backoff, n) || delay_before(backoff, n + 1)
            == backoff.max,
    decreases n,
{
    reveal_with_fuel(delay_before, 2);
    if n > 0 {
        delays_double_up_to_the_longest(backoff, (n - 1) as nat);
    }
}

/// A normalized state as it was last published.
#[derive(Debug)]
pub struct CachedState {
    pub payload: String,
    /// When it was received, in nanoseconds on a monotonic clock.
    pub updated_at: u128,
}

impl View for CachedState {
    type V = (Seq<char>, u128);

    open spec fn view(&self) -> (Seq<char>, u128) {
        (self.payload@, self.updated_at)
    }
}

#[derive(Debug)]
struct CacheEntry {
    topic: String,
    state: CachedState,
}

/// The last state of each state topic.
#[derive(Debug)]
pub struct StateCache {
    entries: Vec<CacheEntry>,
}

spec fn distinct_topics(entries: Seq<CacheEntry>) -> bool {
    forall|i: int, j: int|
        0 <= i < j < entries.len() ==> (#[trigger] entries[i]).topic@ != (
        #[trigger] entries[j]).topic@
}

spec fn entries_map(entries: Seq<CacheEntry>) -> Map<Seq<char>, (Seq<char>, u128)>
    decreases entries.len(),
{
    if entries.len() == 0 {
        Map::empty()
    } else {
        entries_map(entries.drop_last()).insert(entries.last().topic@, entries.last().state@)
    }
}

proof fn lemma_entries_map(entries: Seq<CacheEntry>)
    requires
        distinct_topics(entries),
    ensures
        forall|i: int|
            0 <= i < entries.len() ==> entries_map(entries).contains_key(
                (#[trigger] entries[i]).topic@,
            ) && entries_map(entries)[entries[i].topic@] == entries[i].state@,
        forall|topic: Seq<char>| #[trigger]
            entries_map(entries).contains_key(topic) ==> exists|i: int|
                0 <= i < entries.len() && (#[trigger] entries[i]).topic@ == topic,
    decreases entries.len(),
{
    if entries.len() > 0 {
        let before = entries.drop_last();
        lemma_entries_map(before);
        assert forall|i: int| 0 <= i < entries.len() implies entries_map(entries).contains_key(
            (#[trigger] entries[i]).topic@,
        ) && entries_map(entries)[entries[i].topic@] == entries[i].state@ by {
            if i < before.len() {
                assert(before[i] == entries[i]);
                assert(entries[i].topic@ != entries.last().topic@);
            }
        }
        assert forall|topic: Seq<char>| #[trigger]
            entries_map(entries).contains_key(topic) implies exists|i: int|
            0 <= i < entries.len() && (#[trigger] entries[i]).topic@ == topic by {
            if topic == entries.last().topic@ {
                assert(entries[entries.len() - 1].topic@ == topic);
            } else {
                assert(entries_map(before).contains_key(topic));
                let i = choose|i: int|
                    0 <= i < before.len() && (#[trigger] before[i]).topic@ == topic;
                assert(entries[i].topic@ == topic);
            }
        }
    }
}

impl View for StateCache {
    type V = Map<Seq<char>, (Seq<char>, u128)>;

    closed spec fn view(&self) -> Map<Seq<char>, (Seq<char>, u128)> {
        entries_map(self.entries@)
    }
}

impl StateCache {
    /// Whether every topic has one entry at most.
    pub closed spec fn is_well_formed(&self) -> bool {
        distinct_topics(self.entries@)
    }

    /// A cache without states.
    pub fn new() -> (cache: Self)
        ensures
            cache.is_well_formed(),
            cache@ == Map::<Seq<char>, (Seq<char>, u128)>::empty(),
    {
        StateCache { entries: Vec::new() }
    }

    /// The place of a topic's entry.
    fn position(&self, topic: &str) -> (place: Option<usize>)
        requires
            self.is_well_formed(),
        ensures
            place is Some <==> self@.contains_key(topic@),
            place matches Some(i) ==> i < self.entries@.len() && self.entries@[i as int].topic@
                == topic@ && self.entries@[i as int].state@ == self@[topic@],
            place is None ==> forall|i: int|
                0 <= i < self.entries@.len() ==> (#[trigger] self.entries@[i]).topic@ != topic@,
    {
        proof {
            lemma_entries_map(self.entries@);
        }
        let mut i: usize = 0;
        while i < self.entries.len()
            invariant
                i <= self.entries@.len(),
                forall|j: int| 0 <= j < i ==> (#[trigger] self.entries@[j]).topic@ != topic@,
            ensures
                i <= self.entries@.len(),
                forall|j: int| 0 <= j < i ==> (#[trigger] self.entries@[j]).topic@ != topic@,
                i < self.entries@.len() ==> self.entries@[i as int].topic@ == topic@,
            decreases self.entries@.len() - i,
        {
            if text_eq(self.entries[i].topic.as_str(), topic) {
                break;
            }
            i += 1;
        }
        if i < self.entries.len() {
            Some(i)
        } else {
            None
        }
    }

    /// The state of a topic.
    pub fn get(&self, topic: &str) -> (state: Option<&CachedState>)
        requires
            self.is_well_formed(),
        ensures
            state is Some <==> self@.contains_key(topic@),
            state matches Some(found) ==> found@ == self@[topic@],
    {
        match self.position(topic) {
            Some(i) => Some(&self.entries[i].state),
            None => None,
        }
    }

    /// Keeps the state of a topic, in place of an earlier one.
    pub fn insert(&mut self, topic: &str, state: CachedState)
        requires
            old(self).is_well_formed(),
        ensures
            final(self).is_well_formed(),
            final(self)@ == old(self)@.insert(topic@, state@),
    {
        let ghost before = self.entries@;
        let entry = CacheEntry { topic: topic.to_owned(), state };
        proof {
            lemma_entries_map(before);
        }
        match self.position(topic) {
            Some(i) => {
                self.entries[i] = entry;
                proof {
                    let after = self.entries@;
                    assert forall|j: int, k: int| 0 <= j < k < after.len() implies (
                    #[trigger] after[j]).topic@ != (#[trigger] after[k]).topic@ by {
                        assert(before[j].topic@ != before[k].topic@);
                    }
                    lemma_entries_map(after);
                    let wanted = entries_map(before).insert(topic@, state@);
                    assert(entries_map(after) =~= wanted) by {
                        assert forall|key: Seq<char>|
                            entries_map(after).contains_key(key) <==> wanted.contains_key(key) by {
                            if entries_map(after).contains_key(key) {
                                let j = choose|j: int|
                                    0 <= j < after.len() && (#[trigger] after[j]).topic@ == key;
                                assert(before[j].topic@ == key);
                            }
                            if entries_map(before).contains_key(key) {
                                let j = choose|j: int|
                                    0 <= j < before.len() && (#[trigger] before[j]).topic@ == key;
                                assert(after[j].topic@ == key);
                            }
                            assert(after[i as int].topic@ == topic@);
                        }
                        assert forall|key: Seq<char>| entries_map(after).contains_key(key) implies
                            entries_map(after)[key] == wanted[key] by {
                            let j = choose|j: int|
                                0 <= j < after.len() && (#[trigger] after[j]).topic@ == key;
                            assert(before[j].topic@ == key);
                        }
                    }
                }
            },
            None => {
                self.entries.push(entry);
                assert(self.entries@.drop_last() =~= before);
            },
        }
    }
}

/// How long ago something happened; nothing where the clock says it is still
/// to come.
pub open spec fn age(now: u128, then_at: u128) -> int {
    if now >= then_at {
        now - then_at
    } else {
        0
    }
}

/// Whether a topic has a cached state that is recent enough to be replayed.
pub open spec fn is_fresh(
    cached: Map<Seq<char>, (Seq<char>, u128)>,
    topic: Seq<char>,
    now: u128,
) -> bool {
    cached.contains_key(topic) && age(now, cached[topic].1) <= REPLAY_MAX_AGE_NANOS
}

/// The fresh states of the first `n` topics, in the order of the layout.
pub open spec fn fresh_states(
    layout: Layout,
    cached: Map<Seq<char>, (Seq<char>, u128)>,
    now: u128,
    n: int,
) -> Seq<(Seq<char>, Seq<char>)>
    decreases n,
{
    if n <= 0 {
        Seq::empty()
    } else {
        let before = fresh_states(layout, cached, now, n - 1);
        let topic = layout.topics@[n - 1].state_topic@;
        if is_fresh(cached, topic, now) {
            before.push((topic, cached[topic].0))
        } else {
            before
        }
    }
}

/// The views of pairs of texts.
pub open spec fn pair_views(pairs: Seq<(&str, &str)>) -> Seq<(Seq<char>, Seq<char>)> {
    pairs.map_values(|pair: (&str, &str)| (pair.0@, pair.1@))
}

/// The cached states that are recent enough to be replayed, each with its
/// topic, in the order of the layout.
pub fn fresh_cached_states<'a>(
    layout: &'a Layout,
    last_states: &'a StateCache,
    now: u128,
) -> (fresh: Vec<(&'a str, &'a str)>)
    requires
        last_states.is_well_formed(),
    ensures
        pair_views(fresh@) == fresh_states(
            *layout,
            last_states@,
            now,
            layout.topics@.len() as int,
        ),
{
    let mut fresh: Vec<(&'a str, &'a str)> = Vec::new();
    let mut t: usize = 0;
    assert(pair_views(fresh@) =~= Seq::empty());
    while t < layout.topics.len()
        invariant
            last_states.is_well_formed(),
            t <= layout.topics@.len(),
            pair_views(fresh@) == fresh_states(*layout, last_states@, now, t as int),
        decreases layout.topics@.len() - t,
    {
        let topic = layout.topics[t].state_topic.as_str();
        if let Some(cached) = last_states.get(topic) {
            let elapsed: u128 = if now >= cached.updated_at {
                now - cached.updated_at
            } else {
                0
            };
            if elapsed <= REPLAY_MAX_AGE_NANOS {
                let ghost before = fresh@;
                let pair = (topic, cached.payload.as_str());
                fresh.push(pair);
                assert(pair_views(fresh@) =~= pair_views(before).push((pair.0@, pair.1@)));
            }
        }
        t += 1;
    }
    fresh
}

proof fn lemma_fresh_lengths(
    layout: Layout,
    cached: Map<Seq<char>, (Seq<char>, u128)>,
    now: u128,
    n: int,
    end: int,
)
    requires
        n <= end,
    ensures
        fresh_states(layout, cached, now, n).len() <= fresh_states(layout, cached, now, end).len(),
        forall|i: int|
            0 <= i < fresh_states(layout, cached, now, n).len() ==> #[trigger] fresh_states(
                layout,
                cached,
                now,
                n,
            )[i] == fresh_states(layout, cached, now, end)[i],
    decreases end - n,
{
    if n < end {
        lemma_fresh_lengths(layout, cached, now, n, end - 1);
    }
}

/// The topic of the layout that the state at `i` belongs to.
proof fn lemma_fresh_place(
    layout: Layout,
    cached: Map<Seq<char>, (Seq<char>, u128)>,
    now: u128,
    n: int,
    i: int,
) -> (t: int)
    requires
        0 <= i < fresh_states(layout, cached, now, n).len(),
    ensures
        0 <= t < n,
        fresh_states(layout, cached, now, t).len() == i,
        is_fresh(cached, layout.topics@[t].state_topic@, now),
        fresh_states(layout, cached, now, n)[i] == (
            layout.topics@[t].state_topic@,
            cached[layout.topics@[t].state_topic@].0,
        ),
    decreases n,
{
    if i < fresh_states(layout, cached, now, n - 1).len() {
        lemma_fresh_place(layout, cached, now, n - 1, i)
    } else {
        n - 1
    }
}

/// Exactly the fresh states are replayed: every topic of the layout whose state
/// is fresh, and nothing else.
pub proof fn exactly_the_fresh_states_are_replayed(
    layout: Layout,
    cached: Map<Seq<char>, (Seq<char>, u128)>,
    now: u128,
    topic: Seq<char>,
    payload: Seq<char>,
)
    ensures
        fresh_states(layout, cached, now, layout.topics@.len() as int).contains((topic, payload))
            <==> (is_fresh(cached, topic, now) && payload == cached[topic].0 && exists|t: int|
            0 <= t < layout.topics@.len() && (#[trigger] layout.topics@[t]).state_topic@ == topic),
{
    let n = layout.topics@.len() as int;
    let all = fresh_states(layout, cached, now, n);
    if all.contains((topic, payload)) {
        let i = choose|i: int| 0 <= i < all.len() && all[i] == (topic, payload);
        let t = lemma_fresh_place(layout, cached, now, n, i);
        assert(layout.topics@[t].state_topic@ == topic);
    }
    if is_fresh(cached, topic, now) && payload == cached[topic].0 && exists|t: int|
        0 <= t < n && (#[trigger] layout.topics@[t]).state_topic@ == topic {
        let t = choose|t: int|
            0 <= t < n && (#[trigger] layout.topics@[t]).state_topic@ == topic;
        let before = fresh_states(layout, cached, now, t);
        lemma_fresh_lengths(layout, cached, now, t + 1, n);
        assert(fresh_states(layout, cached, now, t + 1)[before.len() as int] == (topic, payload));
        assert(all[before.len() as int] == (topic, payload));
    }
}

/// States are replayed in the order of the layout.
pub proof fn replay_follows_the_layout(
    layout: Layout,
    cached: Map<Seq<char>, (Seq<char>, u128)>,
    now: u128,
    i: int,
    j: int,
)
    requires
        0 <= i < j < fresh_states(layout, cached, now, layout.topics@.len() as int).len(),
    ensures
        exists|s: int, t: int|
            #![trigger layout.topics@[s], layout.topics@[t]]
            0 <= s < t < layout.topics@.len() && layout.topics@[s].state_topic@ == fresh_states(
                layout,
                cached,
                now,
                layout.topics@.len() as int,
            )[i].0 && layout.topics@[t].state_topic@ == fresh_states(
                layout,
                cached,
                now,
                layout.topics@.len() as int,
            )[j].0,
{
    let n = layout.topics@.len() as int;
    let s = lemma_fresh_place(layout, cached, now, n, i);
    let t = lemma_fresh_place(layout, cached, now, n, j);
    if t <= s {
        lemma_fresh_lengths(layout, cached, now, t, s);
    }
    assert(layout.topics@[s].state_topic@ == fresh_states(layout, cached, now, n)[i].0);
    assert(layout.topics@[t].state_topic@ == fresh_states(layout, cached, now, n)[j].0);
}

/// A state is replayed within the expiry of the telemetry topics and well
/// within that of the clock, so a replay never revives an expired state.
pub proof fn replay_stays_within_every_expiry(
    cached: Map<Seq<char>, (Seq<char>, u128)>,
    topic: Seq<char>,
    now: u128,
)
    requires
        is_fresh(cached, topic, now),
    ensures
        age(now, cached[topic].1) <= DEFAULT_TOPIC_HEALTH_EXPIRE_AFTER_SECONDS * 1_000_000_000,
        age(now, cached[topic].1) < CLOCK_TOPIC_HEALTH_EXPIRE_AFTER_SECONDS * 1_000_000_000,
{
}

/// A delay is the first one doubled once for each failed attempt, or the longest
/// one where that is shorter.
pub proof fn delays_are_doubled_for_each_failure(backoff: ReconnectBackoff, n: nat)
    requires
        backoff.initial <= backoff.max,
    ensures
        pow2(n) * backoff.initial <= backoff.max ==> delay_before(backoff, n) == pow2(n)
            * backoff.initial,
        pow2(n) * backoff.initial > backoff.max ==> delay_before(backoff, n) == backoff.max,
    decreases n,
{
    reveal(pow2);
    if n == 0 {
        lemma2_to64();
    } else {
        let before = pow2((n - 1) as nat);
        delays_are_doubled_for_each_failure(backoff, (n - 1) as nat);
        lemma_pow2_unfold(n);
        assert(pow2(n) == 2 * before);
        assert((2 * before) * backoff.initial == 2 * (before * backoff.initial))
            by (nonlinear_arith);
        assert(before * backoff.initial >= 0) by (nonlinear_arith)
            requires
                before >= 0,
                backoff.initial >= 0,
        ;
    }
}

/// A cached state is replayed exactly where at most a minute has passed since it
/// was received; one that the clock says is still to come counts as new.
pub proof fn states_are_replayed_for_a_minute(
    layout: Layout,
    cached: Map<Seq<char>, (Seq<char>, u128)>,
    now: u128,
    topic: Seq<char>,
    payload: Seq<char>,
)
    ensures
        fresh_states(layout, cached, now, layout.topics@.len() as int).contains((topic, payload))
            <==> {
            &&& cached.contains_key(topic)
            &&& payload == cached[topic].0
            &&& now <= cached[topic].1 + 60_000_000_000
            &&& exists|t: int|
                0 <= t < layout.topics@.len() && (#[trigger] layout.topics@[t]).state_topic@
                    == topic
        },
{
    exactly_the_fresh_states_are_replayed(layout, cached, now, topic, payload);
}

/// How many of the first `n` topics have a state that was received within the
/// last minute.
pub open spec fn recent_before(
    layout: Layout,
    cached: Map<Seq<char>, (Seq<char>, u128)>,
    now: u128,
    n: int,
) -> nat
    decreases n,
{
    if n <= 0 {
        0
    } else {
        let topic = layout.topics@[n - 1].state_topic@;
        recent_before(layout, cached, now, n - 1) + (if cached.contains_key(topic) && now
            <= cached[topic].1 + 60_000_000_000 {
            1nat
        } else {
            0
        })
    }
}

/// Each recent state is replayed once, in the place of its topic.
pub proof fn each_recent_state_is_replayed_once(
    layout: Layout,
    cached: Map<Seq<char>, (Seq<char>, u128)>,
    now: u128,
    t: int,
)
    requires
        0 <= t < layout.topics@.len(),
    ensures
        ({
            let topic = layout.topics@[t].state_topic@;
            let all = fresh_states(layout, cached, now, layout.topics@.len() as int);
            let place = recent_before(layout, cached, now, t) as int;
            &&& all.len() == recent_before(layout, cached, now, layout.topics@.len() as int)
            &&& cached.contains_key(topic) && now <= cached[topic].1 + 60_000_000_000 ==> place
                < all.len() && all[place] == (topic, cached[topic].0)
        }),
{
    let count = layout.topics@.len() as int;
    lemma_recent_before(layout, cached, now, count);
    lemma_recent_before(layout, cached, now, t);
    lemma_fresh_lengths(layout, cached, now, t + 1, count);
    let topic = layout.topics@[t].state_topic@;
    if cached.contains_key(topic) && now <= cached[topic].1 + 60_000_000_000 {
        let place = recent_before(layout, cached, now, t) as int;
        assert(fresh_states(layout, cached, now, t + 1)[place] == (topic, cached[topic].0));
    }
}

proof fn lemma_recent_before(
    layout: Layout,
    cached: Map<Seq<char>, (Seq<char>, u128)>,
    now: u128,
    n: int,
)
    ensures
        fresh_states(layout, cached, now, n).len() == recent_before(layout, cached, now, n),
    decreases n,
{
    if n > 0 {
        lemma_recent_before(layout, cached, now, n - 1);
    }
}

} // verus!
