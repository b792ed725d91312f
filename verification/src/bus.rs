//! The per-user broadcast bus: a registry of bounded channels created on
//! first use, each fanning out to any number of independent receivers.
//!
//! Publishing is best effort: with no channel or no live receiver the
//! event is dropped, which is not an error. A receiver that falls more
//! than the capacity behind observes one lag report, skips to the oldest
//! retained event, and keeps consuming: lag never terminates a receiver.
//!
//! Each receiver carries a ghost log of what it has delivered, with the
//! position every event had in the channel history. The channel
//! invariant pins that log to the history in strictly increasing
//! positions: a receiver delivers each published event at most once and
//! never out of order.

use vstd::prelude::*;
use crate::events::EventMessage;
use crate::events::EventView;

verus! {

/// What one call to receive can yield: nothing pending, a lag report, or
/// the next event. The bus owns every channel for the life of the
/// process, so a closed channel does not arise here.
#[derive(Debug, Clone, PartialEq, Eq)]
pub enum RecvOutcome {
    Empty,
    Lagged,
    Event(EventMessage),
}

/// Mathematical model of a [`RecvOutcome`].
pub enum RecvOutcomeView {
    Empty,
    Lagged,
    Event(EventView),
}

impl View for RecvOutcome {
    type V = RecvOutcomeView;

    open spec fn view(&self) -> RecvOutcomeView {
        match self {
            RecvOutcome::Empty => RecvOutcomeView::Empty,
            RecvOutcome::Lagged => RecvOutcomeView::Lagged,
            RecvOutcome::Event(e) => RecvOutcomeView::Event(e@),
        }
    }
}

/// One subscriber's read position, with the ghost log of everything it
/// has delivered: pairs of history position and event.
pub struct Receiver {
    cursor: usize,
    delivered: Ghost<Seq<(int, EventView)>>,
}

/// Mathematical model of a [`Receiver`].
pub struct ReceiverView {
    pub cursor: int,
    pub delivered: Seq<(int, EventView)>,
}

impl View for Receiver {
    type V = ReceiverView;

    closed spec fn view(&self) -> ReceiverView {
        ReceiverView { cursor: self.cursor as int, delivered: self.delivered@ }
    }
}

impl ReceiverView {
    /// The cursor stays within the history, and the delivered log lists
    /// events actually published, at strictly increasing positions, all
    /// already passed by the cursor.
    pub open spec fn wf(self, history: Seq<EventView>) -> bool {
        &&& 0 <= self.cursor <= history.len()
        &&& forall|k: int|
            0 <= k < self.delivered.len() ==> 0 <= (#[trigger] self.delivered[k]).0 < self.cursor
                && self.delivered[k].1 == history[self.delivered[k].0]
        &&& forall|k: int, j: int|
            #![trigger self.delivered[k], self.delivered[j]]
            0 <= k < j < self.delivered.len() ==> self.delivered[k].0 < self.delivered[j].0
    }
}

/// One user's bounded broadcast channel.
pub struct Channel {
    capacity: usize,
    history: Vec<EventMessage>,
    receivers: Vec<Receiver>,
}

/// Mathematical model of a [`Channel`]: everything ever published, and
/// each receiver's position in it.
pub struct ChannelView {
    pub capacity: int,
    pub history: Seq<EventView>,
    pub receivers: Seq<ReceiverView>,
}

impl View for Channel {
    type V = ChannelView;

    closed spec fn view(&self) -> ChannelView {
        ChannelView {
            capacity: self.capacity as int,
            history: self.history@.map_values(|e: EventMessage| e@),
            receivers: self.receivers@.map_values(|r: Receiver| r@),
        }
    }
}

impl ChannelView {
    /// A positive capacity, and every receiver well-formed against the
    /// history.
    pub open spec fn wf(self) -> bool {
        &&& 1 <= self.capacity <= usize::MAX
        &&& forall|i: int|
            0 <= i < self.receivers.len() ==> (#[trigger] self.receivers[i]).wf(self.history)
    }

    /// A channel delivers only while someone listens.
    pub open spec fn live(self) -> bool {
        self.receivers.len() > 0
    }

    /// What publishing does: append to the history while any receiver
    /// listens, drop the event otherwise.
    pub open spec fn publish(self, e: EventView) -> ChannelView {
        if self.live() {
            ChannelView { history: self.history.push(e), ..self }
        } else {
            self
        }
    }

    /// What subscribing does: one more receiver, reading from the
    /// present end of the history.
    pub open spec fn subscribe(self) -> ChannelView {
        ChannelView {
            receivers: self.receivers.push(
                ReceiverView { cursor: self.history.len() as int, delivered: Seq::empty() },
            ),
            ..self
        }
    }

    /// What one receive does for receiver `rid`: nothing when the cursor
    /// is at the end; a lag report that skips the cursor to the oldest
    /// retained event when the receiver fell more than `capacity`
    /// behind; otherwise the event at the cursor, logged and passed.
    pub open spec fn recv_step(self, rid: int) -> (ChannelView, RecvOutcomeView) {
        let rcv = self.receivers[rid];
        if rcv.cursor == self.history.len() {
            (self, RecvOutcomeView::Empty)
        } else if self.history.len() - rcv.cursor > self.capacity {
            (
                ChannelView {
                    receivers: self.receivers.update(
                        rid,
                        ReceiverView {
                            cursor: self.history.len() - self.capacity,
                            delivered: rcv.delivered,
                        },
                    ),
                    ..self
                },
                RecvOutcomeView::Lagged,
            )
        } else {
            (
                ChannelView {
                    receivers: self.receivers.update(
                        rid,
                        ReceiverView {
                            cursor: rcv.cursor + 1,
                            delivered: rcv.delivered.push((rcv.cursor, self.history[rcv.cursor])),
                        },
                    ),
                    ..self
                },
                RecvOutcomeView::Event(self.history[rcv.cursor]),
            )
        }
    }
}

impl Channel {
    /// An empty channel of the given capacity.
    pub fn new(capacity: usize) -> (ch: Channel)
        requires
            capacity >= 1,
        ensures
            ch@ == (ChannelView {
                capacity: capacity as int,
                history: Seq::<EventView>::empty(),
                receivers: Seq::<ReceiverView>::empty(),
            }),
            ch@.wf(),
    {
        let ch = Channel { capacity, history: Vec::new(), receivers: Vec::new() };
        proof {
            assert(ch@.history =~= Seq::<EventView>::empty());
            assert(ch@.receivers =~= Seq::<ReceiverView>::empty());
        }
        ch
    }

    /// Appends the event while anyone listens; reports whether it was
    /// kept.
    pub fn publish(&mut self, e: EventMessage) -> (kept: bool)
        requires
            old(self)@.wf(),
        ensures
            final(self)@.wf(),
            final(self)@ == old(self)@.publish(e@),
            kept == old(self)@.live(),
    {
        let ghost prior = self@;
        if self.receivers.len() > 0 {
            self.history.push(e);
            proof {
                assert(self@.history =~= prior.history.push(e@));
                assert(self@.receivers =~= prior.receivers);
                assert(self@ == prior.publish(e@));
                assert forall|i: int|
                    0 <= i < self@.receivers.len() implies (#[trigger] self@.receivers[i]).wf(
                    self@.history,
                ) by {
                    assert(prior.receivers[i].wf(prior.history));
                    assert(forall|k: int|
                        0 <= k < self@.receivers[i].delivered.len()
                            ==> (#[trigger] self@.receivers[i].delivered[k]).1
                            == prior.history[self@.receivers[i].delivered[k].0]);
                }
            }
            true
        } else {
            proof {
                assert(self@ == prior.publish(e@));
            }
            false
        }
    }

    /// Adds an independent receiver that starts at the present end of
    /// the history; hands back its handle.
    pub fn subscribe(&mut self) -> (rid: usize)
        requires
            old(self)@.wf(),
        ensures
            final(self)@.wf(),
            final(self)@ == old(self)@.subscribe(),
            rid as int == old(self)@.receivers.len(),
    {
        let ghost prior = self@;
        let rid = self.receivers.len();
        let cursor = self.history.len();
        self.receivers.push(Receiver { cursor, delivered: Ghost(Seq::empty()) });
        proof {
            assert(self@.receivers =~= prior.receivers.push(
                ReceiverView { cursor: cursor as int, delivered: Seq::empty() },
            ));
            assert(self@ == prior.subscribe());
        }
        rid
    }

    /// Receives the next outcome for receiver `rid`.
    pub fn recv(&mut self, rid: usize) -> (r: RecvOutcome)
        requires
            old(self)@.wf(),
            rid < old(self)@.receivers.len(),
        ensures
            final(self)@.wf(),
            (final(self)@, r@) == old(self)@.recv_step(rid as int),
    {
        let ghost prior = self@;
        proof {
            assert(self@.receivers[rid as int] == self.receivers@[rid as int]@);
        }
        let cursor = self.receivers[rid].cursor;
        if cursor == self.history.len() {
            proof {
                assert((prior, RecvOutcomeView::Empty) == prior.recv_step(rid as int));
            }
            RecvOutcome::Empty
        } else if self.history.len() - cursor > self.capacity {
            let new_cursor = self.history.len() - self.capacity;
            let receiver = &mut self.receivers[rid];
            receiver.cursor = new_cursor;
            proof {
                assert(self@.receivers =~= prior.receivers.update(
                    rid as int,
                    ReceiverView {
                        cursor: new_cursor as int,
                        delivered: prior.receivers[rid as int].delivered,
                    },
                ));
                assert(self@ == prior.recv_step(rid as int).0);
                assert forall|i: int|
                    0 <= i < self@.receivers.len() implies (#[trigger] self@.receivers[i]).wf(
                    self@.history,
                ) by {
                    assert(prior.receivers[i].wf(prior.history));
                }
            }
            RecvOutcome::Lagged
        } else {
            let event = self.history[cursor].duplicate();
            let ghost entry = (cursor as int, prior.history[cursor as int]);
            let receiver = &mut self.receivers[rid];
            receiver.cursor = cursor + 1;
            receiver.delivered = Ghost(receiver.delivered@.push(entry));
            proof {
                assert(self@.receivers =~= prior.receivers.update(
                    rid as int,
                    ReceiverView {
                        cursor: cursor as int + 1,
                        delivered: prior.receivers[rid as int].delivered.push(entry),
                    },
                ));
                assert(self@ == prior.recv_step(rid as int).0);
                assert forall|i: int|
                    0 <= i < self@.receivers.len() implies (#[trigger] self@.receivers[i]).wf(
                    self@.history,
                ) by {
                    assert(prior.receivers[i].wf(prior.history));
                    if i == rid as int {
                        let updated = self@.receivers[i];
                        assert(forall|k: int|
                            0 <= k < updated.delivered.len() - 1
                                ==> #[trigger] updated.delivered[k]
                                == prior.receivers[i].delivered[k]);
                    }
                }
            }
            RecvOutcome::Event(event)
        }
    }
}

/// The first channel registered for `user`, scanning from the front.
pub open spec fn spec_find_channel(channels: Seq<(int, ChannelView)>, user: int) -> Option<
    ChannelView,
>
    decreases channels.len(),
{
    if channels.len() == 0 {
        None
    } else if channels[0].0 == user {
        Some(channels[0].1)
    } else {
        spec_find_channel(channels.skip(1), user)
    }
}

proof fn lemma_find_channel_prefix(channels: Seq<(int, ChannelView)>, user: int, i: int)
    requires
        0 <= i <= channels.len(),
        forall|j: int| 0 <= j < i ==> (#[trigger] channels[j]).0 != user,
    ensures
        spec_find_channel(channels, user) == spec_find_channel(channels.skip(i), user),
    decreases i,
{
    if i == 0 {
        assert(channels.skip(0) =~= channels);
    } else {
        lemma_find_channel_prefix(channels, user, i - 1);
        assert(channels.skip(i - 1).len() > 0);
        assert(channels.skip(i - 1)[0] == channels[i - 1]);
        assert(spec_find_channel(channels.skip(i - 1), user) == spec_find_channel(
            channels.skip(i - 1).skip(1),
            user,
        ));
        assert(channels.skip(i - 1).skip(1) =~= channels.skip(i));
    }
}

proof fn lemma_find_channel_update(
    channels: Seq<(int, ChannelView)>,
    i: int,
    ch: ChannelView,
    user: int,
    v: int,
)
    requires
        0 <= i < channels.len(),
        channels[i].0 == user,
        forall|j: int| 0 <= j < i ==> (#[trigger] channels[j]).0 != user,
    ensures
        v == user ==> spec_find_channel(channels.update(i, (user, ch)), v) == Some(ch),
        v != user ==> spec_find_channel(channels.update(i, (user, ch)), v) == spec_find_channel(
            channels,
            v,
        ),
    decreases i,
{
    reveal_with_fuel(spec_find_channel, 2);
    let updated = channels.update(i, (user, ch));
    if i == 0 {
        assert(updated[0] == (user, ch));
        assert(updated.skip(1) =~= channels.skip(1));
    } else {
        lemma_find_channel_update(channels.skip(1), i - 1, ch, user, v);
        assert(channels.skip(1).update(i - 1, (user, ch)) =~= updated.skip(1));
        assert(updated[0] == channels[0]);
    }
}

proof fn lemma_find_channel_push(
    channels: Seq<(int, ChannelView)>,
    entry: (int, ChannelView),
    v: int,
)
    ensures
        spec_find_channel(channels.push(entry), v) == (match spec_find_channel(channels, v) {
            Some(ch) => Some(ch),
            None => if entry.0 == v {
                Some(entry.1)
            } else {
                None
            },
        }),
    decreases channels.len(),
{
    reveal_with_fuel(spec_find_channel, 2);
    if channels.len() == 0 {
        assert(channels.push(entry)[0] == entry);
        assert(channels.push(entry).skip(1) =~= Seq::<(int, ChannelView)>::empty());
        assert(channels.push(entry).skip(1).len() == 0);
    } else {
        lemma_find_channel_push(channels.skip(1), entry, v);
        assert(channels.push(entry)[0] == channels[0]);
        assert(channels.push(entry).skip(1) =~= channels.skip(1).push(entry));
    }
}

/// The registry mapping each user to its broadcast channel; channels are
/// created lazily, all with one capacity.
pub struct EventBus {
    capacity: usize,
    channels: Vec<(i64, Channel)>,
}

/// Mathematical model of the [`EventBus`] registry.
pub struct BusView {
    pub capacity: int,
    pub channels: Seq<(int, ChannelView)>,
}

impl View for EventBus {
    type V = BusView;

    closed spec fn view(&self) -> BusView {
        BusView {
            capacity: self.capacity as int,
            channels: self.channels@.map_values(|p: (i64, Channel)| (p.0 as int, p.1@)),
        }
    }
}

impl BusView {
    /// The channel registered for `user`, if any.
    pub open spec fn channel(self, user: int) -> Option<ChannelView> {
        spec_find_channel(self.channels, user)
    }

    /// A positive capacity, one channel per user at most, and every
    /// channel well-formed with the registry's capacity.
    pub open spec fn wf(self) -> bool {
        &&& 1 <= self.capacity <= usize::MAX
        &&& forall|i: int, j: int|
            #![trigger self.channels[i].0, self.channels[j].0]
            0 <= i < self.channels.len() && 0 <= j < self.channels.len() && i != j
                ==> self.channels[i].0 != self.channels[j].0
        &&& forall|i: int|
            0 <= i < self.channels.len() ==> (#[trigger] self.channels[i]).1.wf()
                && self.channels[i].1.capacity == self.capacity
    }
}

impl EventBus {
    /// An empty registry whose channels will all carry `capacity`
    /// pending events.
    pub fn new(capacity: usize) -> (bus: EventBus)
        requires
            capacity >= 1,
        ensures
            bus@.wf(),
            bus@.capacity == capacity as int,
            bus@.channels == Seq::<(int, ChannelView)>::empty(),
    {
        let bus = EventBus { capacity, channels: Vec::new() };
        proof {
            assert(bus@.channels =~= Seq::<(int, ChannelView)>::empty());
        }
        bus
    }

    /// Best-effort publish: appended to the user's channel history while
    /// the channel exists and anyone listens, silently dropped otherwise.
    /// Reports whether the event was kept.
    pub fn publish(&mut self, user_id: i64, e: EventMessage) -> (kept: bool)
        requires
            old(self)@.wf(),
        ensures
            final(self)@.wf(),
            final(self)@.capacity == old(self)@.capacity,
            final(self)@.channel(user_id as int) == (match old(self)@.channel(user_id as int) {
                Some(ch) => Some(ch.publish(e@)),
                None => None::<ChannelView>,
            }),
            forall|v: int|
                v != user_id as int ==> #[trigger] final(self)@.channel(v) == old(self)@.channel(
                    v,
                ),
            kept == (match old(self)@.channel(user_id as int) {
                Some(ch) => ch.live(),
                None => false,
            }),
    {
        let ghost prior = self@;
        let mut i: usize = 0;
        while i < self.channels.len()
            invariant
                0 <= i <= self.channels.len(),
                self@ == prior,
                prior == old(self)@,
                prior.wf(),
                self@.channels.len() == self.channels.len(),
                forall|j: int| 0 <= j < i ==> (#[trigger] self@.channels[j]).0 != user_id as int,
            decreases self.channels.len() - i,
        {
            proof {
                assert(self@.channels[i as int] == (
                    self.channels@[i as int].0 as int,
                    self.channels@[i as int].1@,
                ));
            }
            if self.channels[i].0 == user_id {
                let ghost pre_channel = self@.channels[i as int].1;
                let entry = &mut self.channels[i].1;
                proof {
                    assert(entry@ == pre_channel);
                    assert(pre_channel.wf());
                }
                let kept = entry.publish(e);
                proof {
                    assert(self@.channels =~= prior.channels.update(
                        i as int,
                        (user_id as int, pre_channel.publish(e@)),
                    ));
                    lemma_find_channel_prefix(prior.channels, user_id as int, i as int);
                    assert(prior.channels.skip(i as int)[0] == prior.channels[i as int]);
                    assert(prior.channel(user_id as int) == Some(pre_channel));
                    lemma_find_channel_update(
                        prior.channels,
                        i as int,
                        pre_channel.publish(e@),
                        user_id as int,
                        user_id as int,
                    );
                    assert forall|v: int| v != user_id as int implies #[trigger] self@.channel(v)
                        == prior.channel(v) by {
                        lemma_find_channel_update(
                            prior.channels,
                            i as int,
                            pre_channel.publish(e@),
                            user_id as int,
                            v,
                        );
                    }
                }
                return kept;
            }
            i = i + 1;
        }
        proof {
            lemma_find_channel_prefix(prior.channels, user_id as int, prior.channels.len() as int);
            assert(prior.channels.skip(prior.channels.len() as int).len() == 0);
        }
        false
    }

    /// Subscribes a new receiver for the user, creating the channel on
    /// first use; hands back the receiver's handle within that channel.
    pub fn subscribe(&mut self, user_id: i64) -> (rid: usize)
        requires
            old(self)@.wf(),
        ensures
            final(self)@.wf(),
            final(self)@.capacity == old(self)@.capacity,
            ({
                let pre_channel = (match old(self)@.channel(user_id as int) {
                    Some(ch) => ch,
                    None => ChannelView {
                        capacity: old(self)@.capacity,
                        history: Seq::empty(),
                        receivers: Seq::empty(),
                    },
                });
                final(self)@.channel(user_id as int) == Some(pre_channel.subscribe()) && rid
                    as int == pre_channel.receivers.len()
            }),
            forall|v: int|
                v != user_id as int ==> #[trigger] final(self)@.channel(v) == old(self)@.channel(
                    v,
                ),
    {
        let ghost prior = self@;
        let mut i: usize = 0;
        while i < self.channels.len()
            invariant
                0 <= i <= self.channels.len(),
                self@ == prior,
                prior == old(self)@,
                prior.wf(),
                self@.channels.len() == self.channels.len(),
                forall|j: int| 0 <= j < i ==> (#[trigger] self@.channels[j]).0 != user_id as int,
            decreases self.channels.len() - i,
        {
            proof {
                assert(self@.channels[i as int] == (
                    self.channels@[i as int].0 as int,
                    self.channels@[i as int].1@,
                ));
            }
            if self.channels[i].0 == user_id {
                let ghost pre_channel = self@.channels[i as int].1;
                let entry = &mut self.channels[i].1;
                proof {
                    assert(entry@ == pre_channel);
                    assert(pre_channel.wf());
                }
                let rid = entry.subscribe();
                proof {
                    assert(self@.channels =~= prior.channels.update(
                        i as int,
                        (user_id as int, pre_channel.subscribe()),
                    ));
                    lemma_find_channel_prefix(prior.channels, user_id as int, i as int);
                    assert(prior.channels.skip(i as int)[0] == prior.channels[i as int]);
                    assert(prior.channel(user_id as int) == Some(pre_channel));
                    lemma_find_channel_update(
                        prior.channels,
                        i as int,
                        pre_channel.subscribe(),
                        user_id as int,
                        user_id as int,
                    );
                    assert forall|v: int| v != user_id as int implies #[trigger] self@.channel(v)
                        == prior.channel(v) by {
                        lemma_find_channel_update(
                            prior.channels,
                            i as int,
                            pre_channel.subscribe(),
                            user_id as int,
                            v,
                        );
                    }
                }
                return rid;
            }
            i = i + 1;
        }
        proof {
            lemma_find_channel_prefix(prior.channels, user_id as int, prior.channels.len() as int);
            assert(prior.channels.skip(prior.channels.len() as int).len() == 0);
        }
        let mut fresh = Channel::new(self.capacity);
        let rid = fresh.subscribe();
        self.channels.push((user_id, fresh));
        proof {
            let ghost added = self@.channels[prior.channels.len() as int];
            assert(self@.channels =~= prior.channels.push(added));
            assert forall|v: int| true implies #[trigger] self@.channel(v) == (
                if v == user_id as int {
                    Some(added.1)
                } else {
                    prior.channel(v)
                }
            ) by {
                lemma_find_channel_push(prior.channels, added, v);
                if v == user_id as int {
                    lemma_find_channel_prefix(
                        prior.channels,
                        user_id as int,
                        prior.channels.len() as int,
                    );
                    assert(prior.channels.skip(prior.channels.len() as int).len() == 0);
                }
            }
        }
        rid
    }

    /// Receives the next outcome for one receiver of one user's channel.
    pub fn recv(&mut self, user_id: i64, rid: usize) -> (r: RecvOutcome)
        requires
            old(self)@.wf(),
            old(self)@.channel(user_id as int) matches Some(ch) && rid < ch.receivers.len(),
        ensures
            final(self)@.wf(),
            final(self)@.capacity == old(self)@.capacity,
            ({
                let ch = old(self)@.channel(user_id as int)->Some_0;
                let (post, outcome) = ch.recv_step(rid as int);
                final(self)@.channel(user_id as int) == Some(post) && r@ == outcome
            }),
            forall|v: int|
                v != user_id as int ==> #[trigger] final(self)@.channel(v) == old(self)@.channel(
                    v,
                ),
    {
        let ghost prior = self@;
        let mut i: usize = 0;
        while i < self.channels.len()
            invariant
                0 <= i <= self.channels.len(),
                self@ == prior,
                prior == old(self)@,
                prior.wf(),
                prior.channel(user_id as int) matches Some(ch) && rid < ch.receivers.len(),
                self@.channels.len() == self.channels.len(),
                forall|j: int| 0 <= j < i ==> (#[trigger] self@.channels[j]).0 != user_id as int,
            decreases self.channels.len() - i,
        {
            proof {
                assert(self@.channels[i as int] == (
                    self.channels@[i as int].0 as int,
                    self.channels@[i as int].1@,
                ));
            }
            if self.channels[i].0 == user_id {
                let ghost pre_channel = self@.channels[i as int].1;
                proof {
                    lemma_find_channel_prefix(prior.channels, user_id as int, i as int);
                    assert(prior.channels.skip(i as int)[0] == prior.channels[i as int]);
                    assert(prior.channel(user_id as int) == Some(pre_channel));
                }
                let entry = &mut self.channels[i].1;
                proof {
                    assert(entry@ == pre_channel);
                }
                let r = entry.recv(rid);
                proof {
                    assert(self@.channels =~= prior.channels.update(
                        i as int,
                        (user_id as int, pre_channel.recv_step(rid as int).0),
                    ));
                    lemma_find_channel_update(
                        prior.channels,
                        i as int,
                        pre_channel.recv_step(rid as int).0,
                        user_id as int,
                        user_id as int,
                    );
                    assert forall|v: int| v != user_id as int implies #[trigger] self@.channel(v)
                        == prior.channel(v) by {
                        lemma_find_channel_update(
                            prior.channels,
                            i as int,
                            pre_channel.recv_step(rid as int).0,
                            user_id as int,
                            v,
                        );
                    }
                }
                return r;
            }
            i = i + 1;
        }
        proof {
            lemma_find_channel_prefix(prior.channels, user_id as int, prior.channels.len() as int);
            assert(prior.channels.skip(prior.channels.len() as int).len() == 0);
            assert(false);
        }
        RecvOutcome::Empty
    }
}

/// A receiver delivers each published event at most once: no two entries
/// of its delivered log point at the same history position.
pub proof fn lemma_delivered_at_most_once(ch: ChannelView, rid: int, a: int, b: int)
    requires
        ch.wf(),
        0 <= rid < ch.receivers.len(),
        0 <= a < b < ch.receivers[rid].delivered.len(),
    ensures
        ch.receivers[rid].delivered[a].0 != ch.receivers[rid].delivered[b].0,
{
}

/// Order preservation: two events delivered by one receiver arrive in
/// the order the channel history holds them, and each is exactly the
/// event published at its position.
pub proof fn lemma_delivery_order(ch: ChannelView, rid: int, a: int, b: int)
    requires
        ch.wf(),
        0 <= rid < ch.receivers.len(),
        0 <= a < b < ch.receivers[rid].delivered.len(),
    ensures
        ch.receivers[rid].delivered[a].0 < ch.receivers[rid].delivered[b].0,
        ch.history[ch.receivers[rid].delivered[a].0] == ch.receivers[rid].delivered[a].1,
        ch.history[ch.receivers[rid].delivered[b].0] == ch.receivers[rid].delivered[b].1,
{
}

/// One receive step keeps the channel well-formed, never removes a
/// receiver, and never touches the history, the capacity, or anyone
/// else's state.
pub proof fn lemma_recv_step_wf(ch: ChannelView, rid: int)
    requires
        ch.wf(),
        0 <= rid < ch.receivers.len(),
    ensures
        ({
            let post = ch.recv_step(rid).0;
            &&& post.wf()
            &&& post.history == ch.history
            &&& post.capacity == ch.capacity
            &&& post.receivers.len() == ch.receivers.len()
            &&& forall|i: int|
                0 <= i < ch.receivers.len() && i != rid ==> #[trigger] post.receivers[i]
                    == ch.receivers[i]
        }),
{
    let post = ch.recv_step(rid).0;
    let rcv = ch.receivers[rid];
    if rcv.cursor == ch.history.len() {
    } else if ch.history.len() - rcv.cursor > ch.capacity {
        assert forall|i: int| 0 <= i < post.receivers.len() implies (#[trigger] post.receivers[i]).wf(
            post.history,
        ) by {
            assert(ch.receivers[i].wf(ch.history));
        }
    } else {
        assert forall|i: int| 0 <= i < post.receivers.len() implies (#[trigger] post.receivers[i]).wf(
            post.history,
        ) by {
            assert(ch.receivers[i].wf(ch.history));
            if i == rid {
                let updated = post.receivers[i];
                assert(forall|k: int|
                    0 <= k < updated.delivered.len() - 1 ==> #[trigger] updated.delivered[k]
                        == rcv.delivered[k]);
            }
        }
    }
}

/// Receives repeated `n` times for one receiver, with nothing published
/// in between.
pub open spec fn spec_drain(ch: ChannelView, rid: int, n: nat) -> ChannelView
    decreases n,
{
    if n == 0 {
        ch
    } else {
        spec_drain(ch, rid, (n - 1) as nat).recv_step(rid).0
    }
}

/// A receiver within the capacity window drains without loss: `n`
/// receives deliver exactly the next `n` events of the history, in
/// order, extending the delivered log one position at a time.
pub proof fn lemma_drain_delivers(ch: ChannelView, rid: int, n: nat)
    requires
        ch.wf(),
        0 <= rid < ch.receivers.len(),
        ch.history.len() - ch.receivers[rid].cursor <= ch.capacity,
        n <= ch.history.len() - ch.receivers[rid].cursor,
    ensures
        ({
            let cursor = ch.receivers[rid].cursor;
            let post = spec_drain(ch, rid, n);
            &&& post.wf()
            &&& post.history == ch.history
            &&& post.capacity == ch.capacity
            &&& post.receivers.len() == ch.receivers.len()
            &&& post.receivers[rid].cursor == cursor + n
            &&& post.receivers[rid].delivered == ch.receivers[rid].delivered + Seq::new(
                n,
                |k: int| (cursor + k, ch.history[cursor + k]),
            )
            &&& forall|i: int|
                0 <= i < ch.receivers.len() && i != rid ==> #[trigger] post.receivers[i]
                    == ch.receivers[i]
        }),
    decreases n,
{
    let cursor = ch.receivers[rid].cursor;
    if n == 0 {
        assert(ch.receivers[rid].delivered + Seq::new(
            0,
            |k: int| (cursor + k, ch.history[cursor + k]),
        ) =~= ch.receivers[rid].delivered);
    } else {
        lemma_drain_delivers(ch, rid, (n - 1) as nat);
        let mid = spec_drain(ch, rid, (n - 1) as nat);
        lemma_recv_step_wf(mid, rid);
        let post = mid.recv_step(rid).0;
        assert(mid.receivers[rid].cursor == cursor + n - 1);
        assert(mid.receivers[rid].cursor < mid.history.len());
        assert(mid.history.len() - mid.receivers[rid].cursor <= mid.capacity);
        assert(post.receivers[rid].delivered =~= ch.receivers[rid].delivered + Seq::new(
            n,
            |k: int| (cursor + k, ch.history[cursor + k]),
        ));
    }
}

/// Lag survival: a receiver forced more than the capacity behind is not
/// terminated. One receive reports the lag, moves the cursor to the
/// oldest retained event and loses nothing already delivered; from
/// there, the most recent `capacity` events, which cover everything
/// published after the overflow, drain in order without further loss.
pub proof fn lemma_lag_survival(ch: ChannelView, rid: int)
    requires
        ch.wf(),
        0 <= rid < ch.receivers.len(),
        ch.history.len() - ch.receivers[rid].cursor > ch.capacity,
    ensures
        ch.recv_step(rid).1 is Lagged,
        ({
            let post = ch.recv_step(rid).0;
            let oldest = ch.history.len() - ch.capacity;
            let drained = spec_drain(post, rid, ch.capacity as nat);
            &&& post.receivers.len() == ch.receivers.len()
            &&& post.receivers[rid].cursor == oldest
            &&& post.receivers[rid].delivered == ch.receivers[rid].delivered
            &&& drained.receivers[rid].cursor == ch.history.len()
            &&& drained.receivers[rid].delivered == ch.receivers[rid].delivered + Seq::new(
                ch.capacity as nat,
                |k: int| (oldest + k, ch.history[oldest + k]),
            )
        }),
{
    lemma_recv_step_wf(ch, rid);
    let post = ch.recv_step(rid).0;
    lemma_drain_delivers(post, rid, ch.capacity as nat);
}

/// A fresh subscriber starts at the end of the history it skipped: its
/// cursor sits past everything already published, so its first receive
/// is empty and nothing replayed as backlog can reach it as live.
pub proof fn lemma_subscribe_starts_at_the_end(ch: ChannelView)
    requires
        ch.wf(),
    ensures
        ch.subscribe().receivers[ch.receivers.len() as int].cursor == ch.history.len(),
        ch.subscribe().recv_step(ch.receivers.len() as int).1 is Empty,
{
}

/// A receive never moves a cursor backward, and extends the delivered
/// log only with the event at the cursor: whatever a receiver ever
/// delivers was published at or after the position where it subscribed.
pub proof fn lemma_recv_cursor_monotone(ch: ChannelView, rid: int)
    requires
        ch.wf(),
        0 <= rid < ch.receivers.len(),
    ensures
        ch.recv_step(rid).0.receivers[rid].cursor >= ch.receivers[rid].cursor,
        match ch.recv_step(rid).1 {
            RecvOutcomeView::Event(e) => ch.recv_step(rid).0.receivers[rid].delivered
                == ch.receivers[rid].delivered.push((ch.receivers[rid].cursor, e)),
            _ => ch.recv_step(rid).0.receivers[rid].delivered == ch.receivers[rid].delivered,
        },
{
}

} // verus!
