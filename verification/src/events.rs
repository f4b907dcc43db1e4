//! The event bus: per-event-type fan-out with bounded channels and a
//! per-type subscriber cap. The bus tracks which subscriber listens to which
//! event types and how many receivers a publish reaches; the broadcast
//! channels themselves live in the surrounding runtime, keyed by event type.

use vstd::prelude::*;
use crate::table::{Table, table_filter, lemma_table_filter, lemma_table_map};
use crate::config::EventConfig;
use crate::messages::EventMessage;
use crate::ids::{fresh_uuid, valid_connection_id};

verus! {

/// One subscriber and the event types it listens to.
#[derive(Debug)]
pub struct SubscriberInfo {
    pub subscriber_id: String,
    pub event_types: Vec<String>,
    pub subscribed_at: u64,
    pub events_received: u64,
}

/// The view of a subscriber record.
#[verifier::ext_equal]
pub ghost struct SubscriberInfoView {
    pub subscriber_id: Seq<char>,
    pub event_types: Seq<Seq<char>>,
    pub subscribed_at: u64,
    pub events_received: u64,
}

impl View for SubscriberInfo {
    type V = SubscriberInfoView;

    open spec fn view(&self) -> SubscriberInfoView {
        SubscriberInfoView {
            subscriber_id: self.subscriber_id@,
            event_types: self.event_types@.map_values(|s: String| s@),
            subscribed_at: self.subscribed_at,
            events_received: self.events_received,
        }
    }
}

impl SubscriberInfo {
    /// A field-for-field copy.
    pub fn duplicate(&self) -> (r: Self)
        ensures
            r@ == self@,
    {
        let r = SubscriberInfo {
            subscriber_id: self.subscriber_id.clone(),
            event_types: crate::connection::clone_strings(&self.event_types),
            subscribed_at: self.subscribed_at,
            events_received: self.events_received,
        };
        proof {
            assert(r@ =~= self@);
        }
        r
    }
}

/// Counters of the bus.
#[derive(Clone, Copy, Debug)]
pub struct EventStats {
    pub active_event_types: usize,
    pub total_subscribers: usize,
    pub events_published: u64,
    pub events_delivered: u64,
    pub delivery_failures: u64,
}

impl Default for EventStats {
    fn default() -> (r: Self)
        ensures
            r.active_event_types == 0,
            r.total_subscribers == 0,
            r.events_published == 0,
            r.events_delivered == 0,
            r.delivery_failures == 0,
    {
        EventStats {
            active_event_types: 0,
            total_subscribers: 0,
            events_published: 0,
            events_delivered: 0,
            delivery_failures: 0,
        }
    }
}

/// What can go wrong on the bus. `NoSubscribers` reports a publish that
/// reached nobody; it is distinct from success.
#[derive(Debug)]
pub enum EventError {
    NoSubscribers { event_type: String },
    ChannelFull { event_type: String },
    InvalidEventType { event_type: String },
    SubscriberLimitExceeded { event_type: String },
    Internal(String),
}

/// One lazily created broadcast channel: its bounded capacity.
#[derive(Clone, Copy, Debug)]
pub struct ChannelState {
    pub capacity: usize,
}

/// Whether a subscriber record lists `et`.
pub open spec fn listens_to(et: Seq<char>) -> spec_fn(SubscriberInfo) -> bool {
    |s: SubscriberInfo| s@.event_types.contains(et)
}

/// How many current subscribers listen to `et`.
pub open spec fn spec_subscriber_count(
    subs: Seq<(String, SubscriberInfo)>,
    et: Seq<char>,
) -> nat {
    table_filter(subs, listens_to(et)).len()
}

/// Adds to `x`, stopping at the counter's ceiling.
pub fn saturating_add_u64(x: u64, d: u64) -> (r: u64)
    ensures
        r as int == if x + d <= u64::MAX {
            x + d
        } else {
            u64::MAX as int
        },
{
    if x <= u64::MAX - d {
        x + d
    } else {
        u64::MAX
    }
}

/// Whether some string of `v` reads as `s`.
pub fn string_vec_contains(v: &Vec<String>, s: &str) -> (r: bool)
    ensures
        r == v@.map_values(|x: String| x@).contains(s@),
{
    let ghost vs = v@.map_values(|x: String| x@);
    let owned: String = s.to_owned();
    let n = v.len();
    for i in 0..n
        invariant
            n == v@.len(),
            owned@ == s@,
            vs == v@.map_values(|x: String| x@),
            forall|j: int| 0 <= j < i ==> vs[j] != s@,
    {
        if v[i].eq(&owned) {
            assert(vs[i as int] == s@);
            return true;
        }
    }
    false
}

/// The event bus.
pub struct EventBus {
    pub channels: Table<ChannelState>,
    pub subscribers: Table<SubscriberInfo>,
    pub stats: EventStats,
    pub config: EventConfig,
}

impl EventBus {
    /// Keys are unique; each subscriber record is keyed by its identifier.
    pub open spec fn wf(&self) -> bool {
        &&& self.channels.wf()
        &&& self.subscribers.wf()
        &&& forall|i: int|
            0 <= i < self.subscribers.entries@.len()
                ==> (#[trigger] self.subscribers.entries@[i]).0@
                == self.subscribers.entries@[i].1.subscriber_id@
    }

    /// An empty bus.
    pub fn new(config: EventConfig) -> (r: Self)
        ensures
            r.wf(),
            r.channels.spec_len() == 0,
            r.subscribers.spec_len() == 0,
            r.stats.events_published == 0,
            r.stats.events_delivered == 0,
            r.config == config,
    {
        EventBus {
            channels: Table::new(),
            subscribers: Table::new(),
            stats: EventStats::default(),
            config,
        }
    }

    /// How many subscribers listen to `event_type` right now.
    #[verifier::loop_isolation(false)]
    pub fn get_subscriber_count_for_type(&self, event_type: &str) -> (r: usize)
        ensures
            r == spec_subscriber_count(self.subscribers.entries@, event_type@),
    {
        let ghost subs = self.subscribers.entries@;
        let ghost p = listens_to(event_type@);
        let mut count: usize = 0;
        let n = self.subscribers.entries.len();
        proof {
            assert(subs.take(0int) =~= Seq::<(String, SubscriberInfo)>::empty());
        }
        for i in 0..n
            invariant
                count as int == table_filter(subs.take(i as int), p).len(),
                count <= i,
        {
            let hit = string_vec_contains(&self.subscribers.entries[i].1.event_types, event_type);
            proof {
                assert(subs.take(i + 1int).drop_last() =~= subs.take(i as int));
                assert(subs.take(i + 1int).last() == subs[i as int]);
                assert(hit == p(subs[i as int].1));
            }
            if hit {
                count = count + 1;
            }
        }
        proof {
            assert(subs.take(n as int) =~= subs);
        }
        count
    }

    /// Records that `subscriber_id` listens to `event_type`: appends the
    /// type to an existing record, or opens a record stamped `now`.
    pub fn update_subscriber_info(&mut self, subscriber_id: &str, event_type: &str, now: u64)
        requires
            old(self).wf(),
        ensures
            final(self).wf(),
            final(self).channels == old(self).channels,
            final(self).stats == old(self).stats,
            final(self).config == old(self).config,
            final(self).subscribers.view_map().contains_key(subscriber_id@),
            final(self).subscribers.view_map()[subscriber_id@]@.event_types.contains(event_type@),
            final(self).subscribers.view_map() == old(self).subscribers.view_map().insert(
                subscriber_id@,
                final(self).subscribers.view_map()[subscriber_id@],
            ),
            old(self).subscribers.view_map().contains_key(subscriber_id@) ==> {
                let o = old(self).subscribers.view_map()[subscriber_id@]@;
                let f = final(self).subscribers.view_map()[subscriber_id@]@;
                f == if o.event_types.contains(event_type@) {
                    o
                } else {
                    SubscriberInfoView { event_types: o.event_types.push(event_type@), ..o }
                }
            },
            !old(self).subscribers.view_map().contains_key(subscriber_id@) ==> {
                let f = final(self).subscribers.view_map()[subscriber_id@]@;
                &&& f.subscriber_id == subscriber_id@
                &&& f.event_types =~= seq![event_type@]
                &&& f.subscribed_at == now
                &&& f.events_received == 0
            },
    {
        let ghost m0 = self.subscribers.view_map();
        let ghost es0 = self.subscribers.entries@;
        proof {
            lemma_table_map(es0);
            assert forall|k2: Seq<char>| #[trigger] m0.contains_key(k2) implies m0[k2].subscriber_id@
                == k2 by {
                let b = choose|b: int| 0 <= b < es0.len() && #[trigger] es0[b].0@ == k2;
                assert(crate::table::table_map(es0)[k2] == es0[b].1);
            }
        }
        match self.subscribers.remove(subscriber_id) {
            Some(mut info) => {
                let ghost iv0 = info@;
                if !string_vec_contains(&info.event_types, event_type) {
                    info.event_types.push(event_type.to_owned());
                    proof {
                        assert(info@.event_types =~= iv0.event_types.push(event_type@));
                        assert(info@ =~= SubscriberInfoView {
                            event_types: iv0.event_types.push(event_type@),
                            ..iv0
                        });
                        assert(info@.event_types[info@.event_types.len() - 1] == event_type@);
                        assert(info@.event_types.contains(event_type@));
                    }
                } else {
                    proof {
                        assert(info@.event_types.contains(event_type@));
                    }
                }
                let ghost iv1 = info@;
                let _ = self.subscribers.insert(subscriber_id.to_owned(), info);
                proof {
                    assert(self.subscribers.view_map()[subscriber_id@]@ == iv1);
                    assert(self.subscribers.view_map() =~= m0.insert(
                        subscriber_id@,
                        self.subscribers.view_map()[subscriber_id@],
                    ));
                    self.lemma_subscribers_keyed(m0, subscriber_id@);
                }
            },
            None => {
                let mut types: Vec<String> = Vec::new();
                types.push(event_type.to_owned());
                let info = SubscriberInfo {
                    subscriber_id: subscriber_id.to_owned(),
                    event_types: types,
                    subscribed_at: now,
                    events_received: 0,
                };
                let ghost iv1 = info@;
                proof {
                    assert(iv1.event_types =~= seq![event_type@]);
                    assert(iv1.event_types[0] == event_type@);
                    assert(iv1.event_types.contains(event_type@));
                }
                let _ = self.subscribers.insert(subscriber_id.to_owned(), info);
                proof {
                    assert(self.subscribers.view_map()[subscriber_id@]@ == iv1);
                    assert(self.subscribers.view_map() =~= m0.insert(
                        subscriber_id@,
                        self.subscribers.view_map()[subscriber_id@],
                    ));
                    self.lemma_subscribers_keyed(m0, subscriber_id@);
                }
            },
        }
    }

    /// Makes sure the broadcast channel for `event_type` exists, creating it
    /// with the configured capacity on first use.
    pub fn get_or_create_channel(&mut self, event_type: &str)
        requires
            old(self).wf(),
        ensures
            final(self).wf(),
            final(self).subscribers == old(self).subscribers,
            final(self).stats == old(self).stats,
            final(self).config == old(self).config,
            final(self).channels.view_map() == if old(self).channels.view_map().contains_key(
                event_type@,
            ) {
                old(self).channels.view_map()
            } else {
                old(self).channels.view_map().insert(
                    event_type@,
                    ChannelState { capacity: old(self).config.channel_capacity },
                )
            },
            final(self).channels.view_map().contains_key(event_type@),
    {
        let ghost m0 = self.channels.view_map();
        if !self.channels.contains_key(event_type) {
            let _ = self.channels.insert(
                event_type.to_owned(),
                ChannelState { capacity: self.config.channel_capacity },
            );
        } else {
            proof {
                assert(self.channels.view_map() =~= m0);
            }
        }
    }

    /// Publishes an event: refuses an empty event type, mints an identifier
    /// when the event has none, stamps `now` when the timestamp is zero,
    /// opens the type's channel, and reports how many subscribers the event
    /// reaches. Reaching nobody is the error `NoSubscribers`; otherwise the
    /// enriched event and the positive receiver count come back, and the
    /// counters advance when metrics are on.
    pub fn publish_event(&mut self, event: EventMessage, now: u64) -> (r: Result<
        (EventMessage, usize),
        EventError,
    >)
        requires
            old(self).wf(),
        ensures
            final(self).wf(),
            final(self).subscribers == old(self).subscribers,
            final(self).config == old(self).config,
            event.event_type@.len() == 0 ==> {
                &&& r matches Err(EventError::InvalidEventType { .. })
                &&& final(self).channels == old(self).channels
                &&& final(self).stats == old(self).stats
            },
            event.event_type@.len() > 0 ==> {
                &&& final(self).channels.view_map().contains_key(event.event_type@)
                &&& spec_subscriber_count(old(self).subscribers.entries@, event.event_type@) == 0
                    <==> (r matches Err(EventError::NoSubscribers { .. }))
            },
            match r {
                Ok((e2, count)) => {
                    &&& count == spec_subscriber_count(
                        old(self).subscribers.entries@,
                        event.event_type@,
                    )
                    &&& count > 0
                    &&& e2.event_type@ == event.event_type@
                    &&& e2.payload@ == event.payload@
                    &&& e2.publisher_id@ == event.publisher_id@
                    &&& e2.metadata@ == event.metadata@
                    &&& (event.event_id@.len() > 0 ==> e2.event_id@ == event.event_id@)
                    &&& (event.event_id@.len() == 0 ==> valid_connection_id(e2.event_id@))
                    &&& e2.timestamp == (if event.timestamp == 0 {
                        now
                    } else {
                        event.timestamp
                    })
                    &&& final(self).stats.events_published as int == (if old(self).config.enable_metrics {
                        if old(self).stats.events_published + 1 <= u64::MAX {
                            old(self).stats.events_published + 1
                        } else {
                            u64::MAX as int
                        }
                    } else {
                        old(self).stats.events_published as int
                    })
                    &&& final(self).stats.events_delivered as int == (if old(self).config.enable_metrics {
                        if old(self).stats.events_delivered + count <= u64::MAX {
                            old(self).stats.events_delivered + count
                        } else {
                            u64::MAX as int
                        }
                    } else {
                        old(self).stats.events_delivered as int
                    })
                },
                Err(_) => final(self).stats == old(self).stats,
            },
    {
        if event.event_type.as_str().is_empty() {
            let EventMessage { event_type, .. } = event;
            return Err(EventError::InvalidEventType { event_type });
        }
        let mut event = event;
        if event.event_id.as_str().is_empty() {
            event.event_id = fresh_uuid();
        }
        if event.timestamp == 0 {
            event.timestamp = now;
        }
        self.get_or_create_channel(event.event_type.as_str());
        let count = self.get_subscriber_count_for_type(event.event_type.as_str());
        if count == 0 {
            let EventMessage { event_type, .. } = event;
            return Err(EventError::NoSubscribers { event_type });
        }
        if self.config.enable_metrics {
            self.stats.events_published = saturating_add_u64(self.stats.events_published, 1);
            self.stats.events_delivered = saturating_add_u64(
                self.stats.events_delivered,
                count as u64,
            );
        }
        Ok((event, count))
    }

    /// Subscribes `subscriber_id` to `event_type`, enforcing the per-type
    /// subscriber cap; on success the record and the type's channel exist.
    pub fn subscribe_event_type(&mut self, event_type: &str, subscriber_id: &str, now: u64) -> (r:
        Result<(), EventError>)
        requires
            old(self).wf(),
        ensures
            final(self).wf(),
            final(self).config == old(self).config,
            spec_subscriber_count(old(self).subscribers.entries@, event_type@) >= old(self).config.max_subscribers_per_type ==> {
                &&& r matches Err(EventError::SubscriberLimitExceeded { .. })
                &&& *final(self) == *old(self)
            },
            spec_subscriber_count(old(self).subscribers.entries@, event_type@) < old(self).config.max_subscribers_per_type ==> {
                &&& r is Ok
                &&& final(self).channels.view_map().contains_key(event_type@)
                &&& final(self).subscribers.view_map().contains_key(subscriber_id@)
                &&& final(self).subscribers.view_map()[subscriber_id@]@.event_types.contains(
                    event_type@,
                )
            },
    {
        let current = self.get_subscriber_count_for_type(event_type);
        if current >= self.config.max_subscribers_per_type {
            return Err(EventError::SubscriberLimitExceeded { event_type: event_type.to_owned() });
        }
        self.get_or_create_channel(event_type);
        self.update_subscriber_info(subscriber_id, event_type, now);
        if self.config.enable_metrics {
            self.stats.total_subscribers = self.stats.total_subscribers.saturating_add(1);
        }
        Ok(())
    }

    /// The event types a subscriber currently listens to; empty when the
    /// subscriber is unknown.
    pub fn get_subscriber_event_types(&self, subscriber_id: &str) -> (r: Vec<String>)
        requires
            self.wf(),
        ensures
            self.subscribers.view_map().contains_key(subscriber_id@) ==> r@.map_values(
                |s: String| s@,
            ) == self.subscribers.view_map()[subscriber_id@]@.event_types,
            !self.subscribers.view_map().contains_key(subscriber_id@) ==> r@.len() == 0,
    {
        match self.subscribers.get(subscriber_id) {
            Some(info) => crate::connection::clone_strings(&info.event_types),
            None => Vec::new(),
        }
    }

    /// Drops `subscriber_id`'s whole record; reports whether one existed.
    pub fn remove_subscriber(&mut self, subscriber_id: &str) -> (r: bool)
        requires
            old(self).wf(),
        ensures
            final(self).wf(),
            final(self).channels == old(self).channels,
            final(self).config == old(self).config,
            final(self).subscribers.view_map() == old(self).subscribers.view_map().remove(
                subscriber_id@,
            ),
            r == old(self).subscribers.view_map().contains_key(subscriber_id@),
    {
        let ghost es0 = self.subscribers.entries@;
        let removed = self.subscribers.remove(subscriber_id);
        proof {
            lemma_table_map(es0);
            lemma_table_map(self.subscribers.entries@);
            assert forall|i: int|
                0 <= i < self.subscribers.entries@.len() implies (
            #[trigger] self.subscribers.entries@[i]).0@
                == self.subscribers.entries@[i].1.subscriber_id@ by {
                let k = self.subscribers.entries@[i].0@;
                assert(crate::table::table_map(self.subscribers.entries@)[k]
                    == self.subscribers.entries@[i].1);
                let b = choose|b: int| 0 <= b < es0.len() && #[trigger] es0[b].0@ == k;
                assert(crate::table::table_map(es0)[k] == es0[b].1);
            }
        }
        let r = match removed {
            Some(info) => {
                if self.config.enable_metrics {
                    self.stats.total_subscribers = self.stats.total_subscribers.saturating_sub(
                        info.event_types.len(),
                    );
                }
                true
            },
            None => false,
        };
        r
    }

    /// A snapshot of the counters; the live table sizes override the stored
    /// ones.
    pub fn get_stats(&self) -> (r: EventStats)
        ensures
            r.active_event_types == self.channels.spec_len(),
            r.total_subscribers == self.subscribers.spec_len(),
            r.events_published == self.stats.events_published,
            r.events_delivered == self.stats.events_delivered,
            r.delivery_failures == self.stats.delivery_failures,
    {
        EventStats {
            active_event_types: self.channels.len(),
            total_subscribers: self.subscribers.len(),
            events_published: self.stats.events_published,
            events_delivered: self.stats.events_delivered,
            delivery_failures: self.stats.delivery_failures,
        }
    }

    /// Copies of every subscriber record.
    pub fn get_subscribers(&self) -> (r: Vec<SubscriberInfo>)
        ensures
            r@.len() == self.subscribers.entries@.len(),
            forall|i: int|
                0 <= i < r@.len() ==> #[trigger] r@[i]@ == self.subscribers.entries@[i].1@,
    {
        let mut out: Vec<SubscriberInfo> = Vec::new();
        let n = self.subscribers.entries.len();
        for i in 0..n
            invariant
                n == self.subscribers.entries@.len(),
                out@.len() == i,
                forall|j: int|
                    0 <= j < i ==> #[trigger] out@[j]@ == self.subscribers.entries@[j].1@,
        {
            out.push(self.subscribers.entries[i].1.duplicate());
        }
        out
    }

    /// The types of `ts` that are not listed in `rm`, in order.
    pub open spec fn kept_types(ts: Seq<Seq<char>>, rm: Seq<Seq<char>>) -> Seq<Seq<char>>
        decreases ts.len(),
    {
        if ts.len() == 0 {
            Seq::empty()
        } else if rm.contains(ts.last()) {
            Self::kept_types(ts.drop_last(), rm)
        } else {
            Self::kept_types(ts.drop_last(), rm).push(ts.last())
        }
    }

    /// Takes `subscriber_id` off the given event types; a record left with
    /// no type is dropped entirely.
    #[verifier::loop_isolation(false)]
    pub fn unsubscribe(&mut self, subscriber_id: &str, event_types: &Vec<String>)
        requires
            old(self).wf(),
        ensures
            final(self).wf(),
            final(self).channels == old(self).channels,
            final(self).config == old(self).config,
            !old(self).subscribers.view_map().contains_key(subscriber_id@) ==> final(self).subscribers.view_map() == old(self).subscribers.view_map(),
            old(self).subscribers.view_map().contains_key(subscriber_id@) ==> {
                let kept = Self::kept_types(
                    old(self).subscribers.view_map()[subscriber_id@]@.event_types,
                    event_types@.map_values(|s: String| s@),
                );
                if kept.len() == 0 {
                    final(self).subscribers.view_map() == old(self).subscribers.view_map().remove(
                        subscriber_id@,
                    )
                } else {
                    final(self).subscribers.view_map().contains_key(subscriber_id@) && final(self).subscribers.view_map()[subscriber_id@]@ == (SubscriberInfoView {
                        event_types: kept,
                        ..old(self).subscribers.view_map()[subscriber_id@]@
                    }) && final(self).subscribers.view_map() == old(self).subscribers.view_map().insert(
                        subscriber_id@,
                        final(self).subscribers.view_map()[subscriber_id@],
                    )
                }
            },
    {
        let ghost m0 = self.subscribers.view_map();
        let ghost es0 = self.subscribers.entries@;
        let ghost rmv = event_types@.map_values(|s: String| s@);
        proof {
            lemma_table_map(es0);
            assert forall|k2: Seq<char>| #[trigger] m0.contains_key(k2) implies m0[k2].subscriber_id@
                == k2 by {
                let b = choose|b: int| 0 <= b < es0.len() && #[trigger] es0[b].0@ == k2;
                assert(crate::table::table_map(es0)[k2] == es0[b].1);
            }
        }
        match self.subscribers.remove(subscriber_id) {
            None => {
                proof {
                    assert(self.subscribers.view_map() =~= m0);
                    assert forall|i: int|
                        0 <= i < self.subscribers.entries@.len() implies (
                    #[trigger] self.subscribers.entries@[i]).0@
                        == self.subscribers.entries@[i].1.subscriber_id@ by {
                        lemma_table_map(self.subscribers.entries@);
                        let k = self.subscribers.entries@[i].0@;
                        assert(crate::table::table_map(self.subscribers.entries@)[k]
                            == self.subscribers.entries@[i].1);
                        assert(m0.contains_key(k));
                    }
                }
            },
            Some(info) => {
                let ghost iv0 = info@;
                let ghost tsv = iv0.event_types;
                let mut kept: Vec<String> = Vec::new();
                let n = info.event_types.len();
                proof {
                    assert(tsv.take(0int) =~= Seq::<Seq<char>>::empty());
                    assert(kept@.map_values(|s: String| s@) =~= Self::kept_types(
                        tsv.take(0int),
                        rmv,
                    ));
                }
                for i in 0..n
                    invariant
                        kept@.map_values(|s: String| s@) == Self::kept_types(
                            tsv.take(i as int),
                            rmv,
                        ),
                {
                    let drop_it = string_vec_contains(event_types, info.event_types[i].as_str());
                    proof {
                        assert(tsv.take(i + 1int).drop_last() =~= tsv.take(i as int));
                        assert(tsv.take(i + 1int).last() == tsv[i as int]);
                        assert(tsv[i as int] == info.event_types@[i as int]@);
                        assert(drop_it == rmv.contains(tsv[i as int]));
                    }
                    if !drop_it {
                        let ghost kv0 = kept@.map_values(|s: String| s@);
                        kept.push(info.event_types[i].clone());
                        proof {
                            assert(kept@.map_values(|s: String| s@) =~= kv0.push(tsv[i as int]));
                        }
                    }
                }
                proof {
                    assert(tsv.take(n as int) =~= tsv);
                }
                if kept.len() == 0 {
                    if self.config.enable_metrics {
                        self.stats.total_subscribers = self.stats.total_subscribers.saturating_sub(
                            event_types.len(),
                        );
                    }
                    proof {
                        assert(self.subscribers.view_map() =~= m0.remove(subscriber_id@));
                        assert forall|i: int|
                            0 <= i < self.subscribers.entries@.len() implies (
                        #[trigger] self.subscribers.entries@[i]).0@
                            == self.subscribers.entries@[i].1.subscriber_id@ by {
                            lemma_table_map(self.subscribers.entries@);
                            let k = self.subscribers.entries@[i].0@;
                            assert(crate::table::table_map(self.subscribers.entries@)[k]
                                == self.subscribers.entries@[i].1);
                            assert(m0.contains_key(k));
                        }
                    }
                } else {
                    let info2 = SubscriberInfo {
                        subscriber_id: info.subscriber_id,
                        event_types: kept,
                        subscribed_at: info.subscribed_at,
                        events_received: info.events_received,
                    };
                    let ghost iv2 = info2@;
                    proof {
                        assert(iv2 =~= SubscriberInfoView {
                            event_types: Self::kept_types(tsv, rmv),
                            ..iv0
                        });
                    }
                    let _ = self.subscribers.insert(subscriber_id.to_owned(), info2);
                    if self.config.enable_metrics {
                        self.stats.total_subscribers = self.stats.total_subscribers.saturating_sub(
                            event_types.len(),
                        );
                    }
                    proof {
                        assert(self.subscribers.view_map()[subscriber_id@]@ == iv2);
                        assert(self.subscribers.view_map() =~= m0.remove(subscriber_id@).insert(
                            subscriber_id@,
                            self.subscribers.view_map()[subscriber_id@],
                        ));
                        assert(self.subscribers.view_map() =~= m0.insert(
                            subscriber_id@,
                            self.subscribers.view_map()[subscriber_id@],
                        ));
                        assert(iv0.subscriber_id == subscriber_id@);
                        self.lemma_subscribers_keyed(m0, subscriber_id@);
                    }
                }
            },
        }
    }

    /// Applies one subscription request: records the listed types for the
    /// subscriber, or takes the subscriber off them (a record left with no
    /// type is dropped).
    pub fn handle_subscription_request(
        &mut self,
        request: &crate::messages::SubscriptionRequest,
        now: u64,
    ) -> (r: Result<(), EventError>)
        requires
            old(self).wf(),
        ensures
            final(self).wf(),
            r is Ok,
            request.action == crate::messages::SubscriptionAction::Subscribe ==> {
                &&& request.event_types@.len() > 0 ==> final(self).subscribers.view_map().contains_key(request.subscriber_id@)
                &&& forall|j: int|
                    0 <= j < request.event_types@.len() ==> final(self).subscribers.view_map()[request.subscriber_id@]@.event_types.contains(
                        #[trigger] request.event_types@[j]@,
                    )
            },
            request.action == crate::messages::SubscriptionAction::Unsubscribe ==> {
                &&& final(self).channels == old(self).channels
                &&& (!old(self).subscribers.view_map().contains_key(request.subscriber_id@)
                    ==> final(self).subscribers.view_map() == old(self).subscribers.view_map())
                &&& (old(self).subscribers.view_map().contains_key(request.subscriber_id@) ==> {
                    let kept = Self::kept_types(
                        old(self).subscribers.view_map()[request.subscriber_id@]@.event_types,
                        request.event_types@.map_values(|s: String| s@),
                    );
                    if kept.len() == 0 {
                        final(self).subscribers.view_map() == old(self).subscribers.view_map().remove(
                            request.subscriber_id@,
                        )
                    } else {
                        final(self).subscribers.view_map().contains_key(request.subscriber_id@)
                            && final(self).subscribers.view_map()[request.subscriber_id@]@
                            == (SubscriberInfoView {
                            event_types: kept,
                            ..old(self).subscribers.view_map()[request.subscriber_id@]@
                        })
                    }
                })
            },
    {
        match request.action {
            crate::messages::SubscriptionAction::Subscribe => {
                let n = request.event_types.len();
                for i in 0..n
                    invariant
                        n == request.event_types@.len(),
                        self.wf(),
                        i > 0 ==> self.subscribers.view_map().contains_key(
                            request.subscriber_id@,
                        ),
                        forall|j: int|
                            0 <= j < i ==> self.subscribers.view_map().contains_key(
                                request.subscriber_id@,
                            ) && self.subscribers.view_map()[request.subscriber_id@]@.event_types.contains(
                                #[trigger] request.event_types@[j]@,
                            ),
                {
                    let ghost pre_map = self.subscribers.view_map();
                    self.update_subscriber_info(
                        request.subscriber_id.as_str(),
                        request.event_types[i].as_str(),
                        now,
                    );
                    proof {
                        assert forall|j: int|
                            0 <= j < i + 1 implies self.subscribers.view_map().contains_key(
                            request.subscriber_id@,
                        ) && self.subscribers.view_map()[request.subscriber_id@]@.event_types.contains(
                            #[trigger] request.event_types@[j]@,
                        ) by {
                            if j < i as int {
                                let opre = pre_map[request.subscriber_id@]@;
                                let o = self.subscribers.view_map()[request.subscriber_id@]@;
                                assert(opre.event_types.contains(request.event_types@[j]@));
                                let w = choose|w: int|
                                    0 <= w < opre.event_types.len() && opre.event_types[w]
                                        == request.event_types@[j]@;
                                if o.event_types != opre.event_types {
                                    assert(o.event_types == opre.event_types.push(
                                        request.event_types@[i as int]@,
                                    ));
                                    assert(o.event_types[w] == request.event_types@[j]@);
                                }
                                assert(o.event_types.contains(request.event_types@[j]@));
                            }
                        }
                    }
                }
                Ok(())
            },
            crate::messages::SubscriptionAction::Unsubscribe => {
                self.unsubscribe(request.subscriber_id.as_str(), &request.event_types);
                Ok(())
            },
        }
    }

    /// Drops the channels of event types that no subscriber listens to.
    #[verifier::loop_isolation(false)]
    pub fn cleanup_inactive_channels(&mut self)
        requires
            old(self).wf(),
        ensures
            final(self).wf(),
            final(self).subscribers == old(self).subscribers,
            final(self).stats == old(self).stats,
            final(self).config == old(self).config,
            forall|et: Seq<char>|
                #[trigger] final(self).channels.view_map().contains_key(et) <==> (old(self).channels.view_map().contains_key(et) && spec_subscriber_count(
                    old(self).subscribers.entries@,
                    et,
                ) > 0),
            forall|et: Seq<char>|
                final(self).channels.view_map().contains_key(et) ==> #[trigger] final(self).channels.view_map()[et] == old(self).channels.view_map()[et],
    {
        let ghost orig = self.channels.entries@;
        let ghost q = |et: Seq<char>, c: ChannelState|
            spec_subscriber_count(self.subscribers.entries@, et) > 0;
        let ghost mut j: int = 0;
        let mut i: usize = 0;
        proof {
            assert(orig.take(0int) =~= Seq::<(String, ChannelState)>::empty());
            assert(orig.skip(0int) =~= orig);
            assert(self.channels.entries@ =~= crate::table::table_filter_keyed(
                orig.take(0int),
                q,
            ) + orig.skip(0int));
        }
        while i < self.channels.entries.len()
            invariant
                0 <= j <= orig.len(),
                i as int == crate::table::table_filter_keyed(orig.take(j), q).len(),
                self.channels.entries@ == crate::table::table_filter_keyed(orig.take(j), q)
                    + orig.skip(j),
                self.subscribers == old(self).subscribers,
                self.stats == old(self).stats,
                self.config == old(self).config,
            decreases orig.len() - j,
        {
            proof {
                assert(orig.skip(j).len() > 0);
                assert(self.channels.entries@[i as int] == orig.skip(j)[0]);
                assert(orig.skip(j)[0] == orig[j]);
            }
            let receivers = self.get_subscriber_count_for_type(self.channels.entries[i].0.as_str());
            let stays = receivers > 0;
            proof {
                assert(stays == q(orig[j].0@, orig[j].1));
                assert(orig.take(j + 1).drop_last() =~= orig.take(j));
                assert(orig.take(j + 1).last() == orig[j]);
            }
            if stays {
                i = i + 1;
                proof {
                    assert(crate::table::table_filter_keyed(orig.take(j + 1), q)
                        == crate::table::table_filter_keyed(orig.take(j), q).push(orig[j]));
                    assert(self.channels.entries@ =~= crate::table::table_filter_keyed(
                        orig.take(j + 1),
                        q,
                    ) + orig.skip(j + 1));
                    j = j + 1;
                }
            } else {
                let ghost pre = self.channels.entries@;
                self.channels.entries.remove(i);
                proof {
                    assert(crate::table::table_filter_keyed(orig.take(j + 1), q)
                        == crate::table::table_filter_keyed(orig.take(j), q));
                    pre.remove_ensures(i as int);
                    assert(self.channels.entries@ =~= crate::table::table_filter_keyed(
                        orig.take(j + 1),
                        q,
                    ) + orig.skip(j + 1)) by {
                        assert(pre =~= crate::table::table_filter_keyed(orig.take(j), q)
                            + orig.skip(j));
                        assert forall|a: int|
                            0 <= a < self.channels.entries@.len()
                                implies self.channels.entries@[a] == (
                        crate::table::table_filter_keyed(orig.take(j + 1), q) + orig.skip(j + 1))[a]
                            by {
                            if a < i as int {
                                assert(self.channels.entries@[a] == pre[a]);
                            } else {
                                assert(self.channels.entries@[a] == pre[a + 1]);
                                assert(pre[a + 1] == orig.skip(j)[a + 1 - i]);
                                assert(orig.skip(j)[a + 1 - i] == orig[j + (a + 1 - i)]);
                                assert(orig.skip(j + 1)[a - i] == orig[j + 1 + (a - i)]);
                            }
                        }
                    };
                    j = j + 1;
                }
            }
        }
        proof {
            assert(orig.skip(j).len() == 0);
            assert(orig.take(j) =~= orig);
            assert(self.channels.entries@ =~= crate::table::table_filter_keyed(orig, q));
            crate::table::lemma_table_filter_keyed(orig, q);
        }
    }

    /// After an upsert whose inserted record is keyed by its own identifier,
    /// every record is still keyed by its identifier.
    proof fn lemma_subscribers_keyed(&self, m0: Map<Seq<char>, SubscriberInfo>, k: Seq<char>)
        requires
            self.subscribers.wf(),
            self.subscribers.view_map() == m0.insert(k, self.subscribers.view_map()[k]),
            self.subscribers.view_map().contains_key(k),
            self.subscribers.view_map()[k].subscriber_id@ == k,
            forall|k2: Seq<char>|
                #[trigger] m0.contains_key(k2) ==> m0[k2].subscriber_id@ == k2,
        ensures
            forall|i: int|
                0 <= i < self.subscribers.entries@.len()
                    ==> (#[trigger] self.subscribers.entries@[i]).0@
                    == self.subscribers.entries@[i].1.subscriber_id@,
    {
        lemma_table_map(self.subscribers.entries@);
        assert forall|i: int|
            0 <= i < self.subscribers.entries@.len() implies (
        #[trigger] self.subscribers.entries@[i]).0@
            == self.subscribers.entries@[i].1.subscriber_id@ by {
            let k2 = self.subscribers.entries@[i].0@;
            assert(crate::table::table_map(self.subscribers.entries@)[k2]
                == self.subscribers.entries@[i].1);
            if k2 != k {
                assert(m0.contains_key(k2));
            }
        }
    }
}

} // verus!
