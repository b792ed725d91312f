//! Room fan-out: turning domain actions into bus publishes for every
//! affected user.
//!
//! A posted message goes to every member of its room, the author
//! included, exactly once each, and to nobody else. A created room goes
//! to its creator alone. An accepted invite replays the room and its
//! whole message history, in chronological order, to the invitee's
//! channel, so an already-open stream catches up without a reconnect.

use vstd::prelude::*;
use crate::bus::ChannelView;
use crate::bus::EventBus;
use crate::events::EventMessage;
use crate::events::EventView;
use crate::events::Message;
use crate::events::MessageView;
use crate::events::Room;
use crate::store::Database;
use crate::store::spec_members_of;
use crate::store::spec_room_messages;
use crate::store::spec_sort_by_date;

verus! {

/// The members of a room are exactly the users with a membership in it.
pub proof fn lemma_members_of_contains(ms: Seq<(int, int)>, room: int, u: int)
    ensures
        spec_members_of(ms, room).contains(u) <==> ms.contains((u, room)),
    decreases ms.len(),
{
    if ms.len() == 0 {
    } else {
        lemma_members_of_contains(ms.drop_last(), room, u);
        let prefix = ms.drop_last();
        let members_prefix = spec_members_of(prefix, room);
        let members = spec_members_of(ms, room);
        assert(spec_members_of(ms, room).contains(u) ==> ms.contains((u, room))) by {
            if members.contains(u) {
                let k = choose|k: int| 0 <= k < members.len() && members[k] == u;
                if k < members_prefix.len() {
                    assert(members_prefix[k] == u);
                    assert(members_prefix.contains(u));
                    let j = choose|j: int| 0 <= j < prefix.len() && prefix[j] == (u, room);
                    assert(ms[j] == (u, room));
                } else {
                    assert(ms.last().1 == room && ms.last().0 == u);
                    assert(ms[ms.len() - 1] == (u, room));
                }
            }
        }
        assert(ms.contains((u, room)) ==> spec_members_of(ms, room).contains(u)) by {
            if ms.contains((u, room)) {
                let j = choose|j: int| 0 <= j < ms.len() && ms[j] == (u, room);
                if j < ms.len() - 1 {
                    assert(prefix[j] == (u, room));
                    assert(prefix.contains((u, room)));
                    let k = choose|k: int|
                        0 <= k < members_prefix.len() && members_prefix[k] == u;
                    assert(members[k] == u);
                } else {
                    assert(ms.last() == (u, room));
                    assert(members[members_prefix.len() as int] == u);
                }
            }
        }
    }
}

/// With memberships unique, each member of a room is listed once.
pub proof fn lemma_members_of_distinct(ms: Seq<(int, int)>, room: int)
    requires
        forall|i: int, j: int|
            #![trigger ms[i], ms[j]]
            0 <= i < ms.len() && 0 <= j < ms.len() && i != j ==> ms[i] != ms[j],
    ensures
        forall|k: int, l: int|
            #![trigger spec_members_of(ms, room)[k], spec_members_of(ms, room)[l]]
            0 <= k < l < spec_members_of(ms, room).len() ==> spec_members_of(ms, room)[k]
                != spec_members_of(ms, room)[l],
    decreases ms.len(),
{
    if ms.len() > 0 {
        let prefix = ms.drop_last();
        assert(forall|i: int, j: int|
            #![trigger prefix[i], prefix[j]]
            0 <= i < prefix.len() && 0 <= j < prefix.len() && i != j ==> prefix[i] != prefix[j])
            by {
            assert(forall|i: int| 0 <= i < prefix.len() ==> (#[trigger] prefix[i]) == ms[i]);
        }
        lemma_members_of_distinct(prefix, room);
        let members_prefix = spec_members_of(prefix, room);
        let members = spec_members_of(ms, room);
        if ms.last().1 == room {
            assert(!members_prefix.contains(ms.last().0)) by {
                if members_prefix.contains(ms.last().0) {
                    lemma_members_of_contains(prefix, room, ms.last().0);
                    let j = choose|j: int|
                        0 <= j < prefix.len() && prefix[j] == (ms.last().0, room);
                    assert(ms[j] == ms[ms.len() - 1]);
                    assert(false);
                }
            }
            assert forall|k: int, l: int|
                0 <= k < l < members.len() implies #[trigger] members[k] != #[trigger] members[l]
                by {
                if l < members_prefix.len() {
                    assert(members[k] == members_prefix[k] && members[l] == members_prefix[l]);
                } else {
                    assert(members[l] == ms.last().0);
                    assert(members[k] == members_prefix[k]);
                    assert(members_prefix.contains(members_prefix[k]));
                }
            }
        } else {
            assert(members =~= members_prefix);
        }
    }
}

/// Publishes a newly created room to its creator's channel alone.
pub fn on_room_created(bus: &mut EventBus, room: &Room, creator_id: i64) -> (kept: bool)
    requires
        old(bus)@.wf(),
    ensures
        final(bus)@.wf(),
        final(bus)@.capacity == old(bus)@.capacity,
        final(bus)@.channel(creator_id as int) == (match old(bus)@.channel(creator_id as int) {
            Some(ch) => Some(ch.publish(EventView::Room(room@))),
            None => None::<ChannelView>,
        }),
        forall|v: int|
            v != creator_id as int ==> #[trigger] final(bus)@.channel(v) == old(bus)@.channel(v),
        kept == (match old(bus)@.channel(creator_id as int) {
            Some(ch) => ch.live(),
            None => false,
        }),
{
    bus.publish(creator_id, EventMessage::Room(room.duplicate()))
}

/// Publishes a persisted message to every member of its room: each
/// member's channel takes exactly this one event, and no other channel
/// changes.
pub fn on_message_created(db: &Database, bus: &mut EventBus, message: &Message)
    requires
        db@.wf(),
        old(bus)@.wf(),
    ensures
        final(bus)@.wf(),
        final(bus)@.capacity == old(bus)@.capacity,
        forall|u: int|
            spec_members_of(db@.memberships, message.room_id as int).contains(u)
                ==> #[trigger] final(bus)@.channel(u) == (match old(bus)@.channel(u) {
                Some(ch) => Some(ch.publish(EventView::Message(message@))),
                None => None::<ChannelView>,
            }),
        forall|u: int|
            !spec_members_of(db@.memberships, message.room_id as int).contains(u)
                ==> #[trigger] final(bus)@.channel(u) == old(bus)@.channel(u),
{
    let ghost prior = bus@;
    let ghost member_seq = spec_members_of(db@.memberships, message.room_id as int);
    let members = db.select_users_room(message.room_id);
    proof {
        lemma_members_of_distinct(db@.memberships, message.room_id as int);
    }
    let mut i: usize = 0;
    while i < members.len()
        invariant
            0 <= i <= members.len(),
            prior == old(bus)@,
            bus@.wf(),
            bus@.capacity == prior.capacity,
            member_seq == spec_members_of(db@.memberships, message.room_id as int),
            members@.map_values(|x: i64| x as int) == member_seq,
            members@.len() == member_seq.len(),
            forall|k: int, l: int|
                #![trigger member_seq[k], member_seq[l]]
                0 <= k < l < member_seq.len() ==> member_seq[k] != member_seq[l],
            forall|u: int|
                member_seq.take(i as int).contains(u) ==> #[trigger] bus@.channel(u) == (
                match prior.channel(u) {
                    Some(ch) => Some(ch.publish(EventView::Message(message@))),
                    None => None::<ChannelView>,
                }),
            forall|u: int|
                !member_seq.take(i as int).contains(u) ==> #[trigger] bus@.channel(u)
                    == prior.channel(u),
        decreases members.len() - i,
    {
        let ghost done = member_seq.take(i as int);
        proof {
            assert(member_seq[i as int] == members@.map_values(|x: i64| x as int)[i as int]);
            assert(!done.contains(member_seq[i as int])) by {
                if done.contains(member_seq[i as int]) {
                    let k = choose|k: int| 0 <= k < done.len() && done[k] == member_seq[i as int];
                    assert(member_seq[k] == member_seq[i as int]);
                    assert(false);
                }
            }
        }
        let _ = bus.publish(members[i], EventMessage::Message(message.duplicate()));
        i = i + 1;
        proof {
            let now = member_seq.take(i as int);
            assert(now.drop_last() =~= done);
            assert(now.last() == member_seq[i - 1]);
            assert forall|u: int| now.contains(u) implies #[trigger] bus@.channel(u) == (
            match prior.channel(u) {
                Some(ch) => Some(ch.publish(EventView::Message(message@))),
                None => None::<ChannelView>,
            }) by {
                let k = choose|k: int| 0 <= k < now.len() && now[k] == u;
                if k < done.len() {
                    assert(done[k] == u);
                    assert(done.contains(u));
                } else {
                    assert(u == member_seq[i - 1]);
                }
            }
            assert forall|u: int| !now.contains(u) implies #[trigger] bus@.channel(u)
                == prior.channel(u) by {
                assert(!done.contains(u)) by {
                    if done.contains(u) {
                        let k = choose|k: int| 0 <= k < done.len() && done[k] == u;
                        assert(now[k] == u);
                    }
                }
                assert(u != member_seq[i - 1]) by {
                    if u == member_seq[i - 1] {
                        assert(now[i - 1] == u);
                    }
                }
            }
        }
    }
    proof {
        assert(member_seq.take(member_seq.len() as int) =~= member_seq);
    }
}

/// The envelope sequence an accepted invite replays to the invitee: the
/// room itself, then the room's whole message history in order.
pub open spec fn spec_invite_replay(room: crate::events::RoomView, history: Seq<MessageView>) -> Seq<
    EventView,
> {
    seq![EventView::Room(room)] + history.map_values(|m: MessageView| EventView::Message(m))
}

/// Replays a room and its message history to a freshly invited user's
/// channel, in chronological order, so an open stream catches up
/// without reconnecting. No other channel changes.
pub fn on_invite_accepted(db: &Database, bus: &mut EventBus, room: &Room, invitee_id: i64)
    requires
        db@.wf(),
        old(bus)@.wf(),
    ensures
        final(bus)@.wf(),
        final(bus)@.capacity == old(bus)@.capacity,
        final(bus)@.channel(invitee_id as int) == (match old(bus)@.channel(invitee_id as int) {
            Some(ch) => Some(
                if ch.live() {
                    ChannelView {
                        history: ch.history + spec_invite_replay(
                            room@,
                            spec_sort_by_date(
                                spec_room_messages(db@.messages, room.id as int),
                            ),
                        ),
                        ..ch
                    }
                } else {
                    ch
                },
            ),
            None => None::<ChannelView>,
        }),
        forall|v: int|
            v != invitee_id as int ==> #[trigger] final(bus)@.channel(v) == old(bus)@.channel(v),
{
    let ghost prior = bus@;
    let ghost room_history = spec_sort_by_date(spec_room_messages(db@.messages, room.id as int));
    let _ = bus.publish(invitee_id, EventMessage::Room(room.duplicate()));
    proof {
        match prior.channel(invitee_id as int) {
            Some(ch) => {
                if ch.live() {
                    assert(ch.history.push(EventView::Room(room@)) =~= ch.history + seq![
                        EventView::Room(room@),
                    ] + room_history.take(0).map_values(|m: MessageView| EventView::Message(m)));
                }
            },
            None => {},
        }
    }
    let history = db.messages_of_room(room.id);
    let mut i: usize = 0;
    while i < history.len()
        invariant
            0 <= i <= history.len(),
            prior == old(bus)@,
            bus@.wf(),
            bus@.capacity == prior.capacity,
            room_history == spec_sort_by_date(spec_room_messages(db@.messages, room.id as int)),
            history@.map_values(|m: Message| m@) == room_history,
            history@.len() == room_history.len(),
            bus@.channel(invitee_id as int) == (match prior.channel(invitee_id as int) {
                Some(ch) => Some(
                    if ch.live() {
                        ChannelView {
                            history: ch.history + seq![EventView::Room(room@)] + room_history.take(
                                i as int,
                            ).map_values(|m: MessageView| EventView::Message(m)),
                            ..ch
                        }
                    } else {
                        ch
                    },
                ),
                None => None::<ChannelView>,
            }),
            forall|v: int|
                v != invitee_id as int ==> #[trigger] bus@.channel(v) == prior.channel(v),
        decreases history.len() - i,
    {
        proof {
            assert(room_history[i as int] == history@.map_values(|m: Message| m@)[i as int]);
        }
        let _ = bus.publish(invitee_id, EventMessage::Message(history[i].duplicate()));
        i = i + 1;
        proof {
            assert(room_history.take(i as int).drop_last() =~= room_history.take(i as int - 1));
            assert(room_history.take(i as int).last() == room_history[i as int - 1]);
            assert(room_history.take(i as int).map_values(|m: MessageView| EventView::Message(m))
                =~= room_history.take(i as int - 1).map_values(
                |m: MessageView| EventView::Message(m),
            ).push(EventView::Message(room_history[i as int - 1])));
            match prior.channel(invitee_id as int) {
                Some(ch) => {
                    if ch.live() {
                        assert(ch.history + seq![EventView::Room(room@)] + room_history.take(
                            i as int,
                        ).map_values(|m: MessageView| EventView::Message(m)) =~= (ch.history
                            + seq![EventView::Room(room@)] + room_history.take(i as int - 1)
                            .map_values(|m: MessageView| EventView::Message(m))).push(
                            EventView::Message(room_history[i as int - 1]),
                        ));
                    }
                },
                None => {},
            }
        }
    }
    proof {
        assert(room_history.take(room_history.len() as int) =~= room_history);
        match prior.channel(invitee_id as int) {
            Some(ch) => {
                if ch.live() {
                    assert(ch.history + seq![EventView::Room(room@)] + room_history.map_values(
                        |m: MessageView| EventView::Message(m),
                    ) =~= ch.history + spec_invite_replay(room@, room_history));
                }
            },
            None => {},
        }
    }
}

} // verus!
