//! The presence tracker: the set of connected device identities, the fixed
//! watch set, and the decision when the external NumLock actuator must run.
//!
//! The tracker itself performs no I/O. Callers feed it resolved identities
//! (or the fact that resolution failed) and receive back the actuator
//! argument to apply, when one is owed: `Some(true)` for `on`, `Some(false)`
//! for `off`, `None` when no invocation is due.

use vstd::prelude::*;

use crate::identity::DeviceIdentity;

verus! {

/// A single attach or detach notification, already resolved to an identity.
#[derive(Clone, Copy, PartialEq, Eq, Structural, Debug)]
pub enum DeviceEvent {
    Added(DeviceIdentity),
    Removed(DeviceIdentity),
}

/// The policy: the actuator argument is `on` exactly when some watched
/// identity is currently connected.
pub open spec fn any_watched_present(
    connected: Set<DeviceIdentity>,
    watched: Set<DeviceIdentity>,
) -> bool {
    exists|d: DeviceIdentity| connected.contains(d) && watched.contains(d)
}

/// What one event does to the connected set: adds are set insertion,
/// removes are set removal, both idempotent.
pub open spec fn apply_event(s: Set<DeviceIdentity>, e: DeviceEvent) -> Set<DeviceIdentity> {
    match e {
        DeviceEvent::Added(d) => s.insert(d),
        DeviceEvent::Removed(d) => s.remove(d),
    }
}

/// The connected set after a whole sequence of events, applied in order.
pub open spec fn replay_set(s: Set<DeviceIdentity>, events: Seq<DeviceEvent>) -> Set<DeviceIdentity>
    decreases events.len(),
{
    if events.len() == 0 {
        s
    } else {
        replay_set(apply_event(s, events[0]), events.drop_first())
    }
}

/// Whether an event, arriving while `connected` is the connected set,
/// triggers a policy re-evaluation: an attach of a watched identity that was
/// absent, or a detach of a watched identity that was present.
pub open spec fn event_triggers(
    connected: Set<DeviceIdentity>,
    watched: Set<DeviceIdentity>,
    e: DeviceEvent,
) -> bool {
    match e {
        DeviceEvent::Added(d) => !connected.contains(d) && watched.contains(d),
        DeviceEvent::Removed(d) => connected.contains(d) && watched.contains(d),
    }
}

/// The sequence of actuator arguments that a sequence of events produces,
/// in order: one entry per triggering event, each the policy evaluated on
/// the state just after that event committed.
pub open spec fn replay_actions(
    connected: Set<DeviceIdentity>,
    watched: Set<DeviceIdentity>,
    events: Seq<DeviceEvent>,
) -> Seq<bool>
    decreases events.len(),
{
    if events.len() == 0 {
        Seq::empty()
    } else {
        let next = apply_event(connected, events[0]);
        let head = if event_triggers(connected, watched, events[0]) {
            seq![any_watched_present(next, watched)]
        } else {
            Seq::<bool>::empty()
        };
        head + replay_actions(next, watched, events.drop_first())
    }
}

/// Owns the connected set and the watch set, and decides when the actuator
/// must be invoked.
pub struct DeviceHandler {
    devices: Vec<DeviceIdentity>,
    numlock_devices: Vec<DeviceIdentity>,
}

/// Returns whether `id` occurs in `list`.
fn list_contains(list: &Vec<DeviceIdentity>, id: DeviceIdentity) -> (r: bool)
    ensures
        r == list@.contains(id),
{
    let mut i: usize = 0;
    while i < list.len()
        invariant
            i <= list@.len(),
            forall|k: int| 0 <= k < i ==> list@[k] != id,
        decreases list@.len() - i,
    {
        if list[i] == id {
            return true;
        }
        i += 1;
    }
    false
}

/// Returns the position of `id` in `list`, when it occurs there.
fn list_index_of(list: &Vec<DeviceIdentity>, id: DeviceIdentity) -> (r: Option<usize>)
    ensures
        r is Some ==> 0 <= r->0 < list@.len() && list@[r->0 as int] == id,
        r is None ==> !list@.contains(id),
{
    let mut i: usize = 0;
    while i < list.len()
        invariant
            i <= list@.len(),
            forall|k: int| 0 <= k < i ==> list@[k] != id,
        decreases list@.len() - i,
    {
        if list[i] == id {
            return Some(i);
        }
        i += 1;
    }
    None
}

impl DeviceHandler {
    /// The set of identities currently believed attached.
    pub closed spec fn connected(self) -> Set<DeviceIdentity> {
        self.devices@.to_set()
    }

    /// The fixed set of identities whose presence forces the policy on.
    pub closed spec fn watched(self) -> Set<DeviceIdentity> {
        self.numlock_devices@.to_set()
    }

    /// Internal consistency: the connected list holds each identity once.
    pub closed spec fn wf(self) -> bool {
        self.devices@.no_duplicates()
    }

    /// Builds a tracker from the watch set and the identities found attached
    /// at startup, and evaluates the policy once, unconditionally: the
    /// returned flag is the actuator argument that establishes a known
    /// toggle state.
    pub fn new(numlock_devices: Vec<DeviceIdentity>, attached: Vec<DeviceIdentity>) -> (r: (
        DeviceHandler,
        bool,
    ))
        ensures
            r.0.wf(),
            r.0.watched() == numlock_devices@.to_set(),
            r.0.connected() == attached@.to_set(),
            r.1 == any_watched_present(r.0.connected(), r.0.watched()),
    {
        let mut devices: Vec<DeviceIdentity> = Vec::new();
        let mut i: usize = 0;
        while i < attached.len()
            invariant
                i <= attached@.len(),
                devices@.no_duplicates(),
                devices@.to_set() == attached@.take(i as int).to_set(),
            decreases attached@.len() - i,
        {
            let id = attached[i];
            let ghost before = devices@;
            if !list_contains(&devices, id) {
                devices.push(id);
            }
            proof {
                Seq::<DeviceIdentity>::lemma_to_set_insert_commutes(before, id);
                assert(before.push(id) =~= before + seq![id]);
                assert(attached@.take(i + 1) =~= attached@.take(i as int) + seq![id]);
                Seq::<DeviceIdentity>::lemma_to_set_insert_commutes(attached@.take(i as int), id);
                assert(devices@.to_set() =~= attached@.take(i as int).to_set().insert(id));
            }
            i += 1;
        }
        proof {
            assert(attached@.take(attached@.len() as int) =~= attached@);
        }
        let handler = DeviceHandler { devices, numlock_devices };
        let on = handler.check_devices();
        (handler, on)
    }

    /// Evaluates the policy on the current state: `true` (actuator argument
    /// `on`) exactly when some watched identity is connected.
    pub fn check_devices(&self) -> (r: bool)
        ensures
            r == any_watched_present(self.connected(), self.watched()),
    {
        let mut i: usize = 0;
        while i < self.numlock_devices.len()
            invariant
                i <= self.numlock_devices@.len(),
                forall|k: int| 0 <= k < i ==> !self.devices@.contains(#[trigger] self.numlock_devices@[k]),
            decreases self.numlock_devices@.len() - i,
        {
            let id = self.numlock_devices[i];
            if list_contains(&self.devices, id) {
                assert(self.connected().contains(id) && self.watched().contains(id));
                return true;
            }
            i += 1;
        }
        assert(forall|d: DeviceIdentity|
            self.connected().contains(d) && self.watched().contains(d) ==> false);
        false
    }

    /// An attach notification for `id`. The identity is inserted into the
    /// connected set (a no-op when already present); the policy is
    /// re-evaluated exactly when a watched identity that was absent arrived.
    pub fn device_added(&mut self, id: DeviceIdentity) -> (r: Option<bool>)
        requires
            old(self).wf(),
        ensures
            final(self).wf(),
            final(self).watched() == old(self).watched(),
            final(self).connected() == old(self).connected().insert(id),
            old(self).connected().contains(id) ==> final(self).connected() == old(self).connected(),
            r is Some <==> !old(self).connected().contains(id) && old(self).watched().contains(id),
            r is Some ==> r->0 == any_watched_present(final(self).connected(), final(self).watched()),
    {
        let previously_absent = !list_contains(&self.devices, id);
        let watched = list_contains(&self.numlock_devices, id);
        if previously_absent {
            self.devices.push(id);
            proof {
                Seq::<DeviceIdentity>::lemma_to_set_insert_commutes(old(self).devices@, id);
                assert(self.devices@ =~= old(self).devices@ + seq![id]);
            }
        } else {
            proof {
                assert(self.devices@.to_set() =~= old(self).connected().insert(id));
            }
        }
        if previously_absent && watched {
            Some(self.check_devices())
        } else {
            None
        }
    }

    /// A detach notification for `id`. The identity is removed from the
    /// connected set (a no-op when absent); the policy is re-evaluated
    /// exactly when a watched identity that was present departed.
    pub fn device_removed(&mut self, id: DeviceIdentity) -> (r: Option<bool>)
        requires
            old(self).wf(),
        ensures
            final(self).wf(),
            final(self).watched() == old(self).watched(),
            final(self).connected() == old(self).connected().remove(id),
            !old(self).connected().contains(id) ==> final(self).connected()
                == old(self).connected() && r is None,
            r is Some <==> old(self).connected().contains(id) && old(self).watched().contains(id),
            r is Some ==> r->0 == any_watched_present(final(self).connected(), final(self).watched()),
    {
        match list_index_of(&self.devices, id) {
            Some(i) => {
                proof {
                    lemma_remove_index_to_set(self.devices@, i as int);
                }
                self.devices.remove(i);
                let watched = list_contains(&self.numlock_devices, id);
                if watched {
                    Some(self.check_devices())
                } else {
                    None
                }
            },
            None => {
                proof {
                    assert(self.devices@.to_set() =~= old(self).connected().remove(id));
                }
                None
            },
        }
    }

    /// An attach notification whose identity resolution may have failed.
    /// A failed resolution drops the event: no state change, no actuator
    /// invocation, and no error surfaces to the caller.
    pub fn device_arrived(&mut self, resolved: Option<DeviceIdentity>) -> (r: Option<bool>)
        requires
            old(self).wf(),
        ensures
            final(self).wf(),
            final(self).watched() == old(self).watched(),
            resolved is None ==> final(self).connected() == old(self).connected() && r is None,
            resolved is Some ==> final(self).connected() == old(self).connected().insert(
                resolved->0,
            ),
            resolved is Some ==> (r is Some <==> !old(self).connected().contains(resolved->0)
                && old(self).watched().contains(resolved->0)),
            r is Some ==> r->0 == any_watched_present(final(self).connected(), final(self).watched()),
    {
        match resolved {
            Some(id) => self.device_added(id),
            None => None,
        }
    }

    /// A detach notification whose identity resolution may have failed.
    /// A failed resolution drops the event: no state change, no actuator
    /// invocation, and no error surfaces to the caller.
    pub fn device_left(&mut self, resolved: Option<DeviceIdentity>) -> (r: Option<bool>)
        requires
            old(self).wf(),
        ensures
            final(self).wf(),
            final(self).watched() == old(self).watched(),
            resolved is None ==> final(self).connected() == old(self).connected() && r is None,
            resolved is Some ==> final(self).connected() == old(self).connected().remove(
                resolved->0,
            ),
            resolved is Some ==> (r is Some <==> old(self).connected().contains(resolved->0)
                && old(self).watched().contains(resolved->0)),
            r is Some ==> r->0 == any_watched_present(final(self).connected(), final(self).watched()),
    {
        match resolved {
            Some(id) => self.device_removed(id),
            None => None,
        }
    }

    /// Returns whether `id` is currently in the connected set.
    pub fn is_connected(&self, id: DeviceIdentity) -> (r: bool)
        ensures
            r == self.connected().contains(id),
    {
        list_contains(&self.devices, id)
    }

    /// Returns how many distinct identities are currently connected.
    pub fn connected_count(&self) -> (r: usize)
        requires
            self.wf(),
        ensures
            r == self.connected().len(),
    {
        proof {
            self.devices@.unique_seq_to_set();
        }
        self.devices.len()
    }

    /// Replays a whole sequence of events in delivery order. The connected
    /// set ends as the fold of the events over the starting set — duplicate
    /// adds and removes of absent identities included, each applied exactly
    /// once, with no effect beyond its set semantics. The returned vector
    /// holds the actuator arguments produced along the way, in order.
    pub fn process_events(&mut self, events: &Vec<DeviceEvent>) -> (actions: Vec<bool>)
        requires
            old(self).wf(),
        ensures
            final(self).wf(),
            final(self).watched() == old(self).watched(),
            final(self).connected() == replay_set(old(self).connected(), events@),
            actions@ == replay_actions(old(self).connected(), old(self).watched(), events@),
    {
        let mut actions: Vec<bool> = Vec::new();
        let mut i: usize = 0;
        while i < events.len()
            invariant
                i <= events@.len(),
                self.wf(),
                self.watched() == old(self).watched(),
                self.connected() == replay_set(old(self).connected(), events@.take(i as int)),
                actions@ == replay_actions(
                    old(self).connected(),
                    old(self).watched(),
                    events@.take(i as int),
                ),
            decreases events@.len() - i,
        {
            let e = events[i];
            let ghost pre = self.connected();
            let ghost done = events@.take(i as int);
            let r = match e {
                DeviceEvent::Added(d) => self.device_added(d),
                DeviceEvent::Removed(d) => self.device_removed(d),
            };
            let ghost actions_before = actions@;
            if let Some(b) = r {
                actions.push(b);
            }
            proof {
                lemma_replay_set_push(old(self).connected(), done, e);
                lemma_replay_actions_push(old(self).connected(), old(self).watched(), done, e);
                assert(events@.take(i + 1) =~= done.push(e));
                if r is Some {
                    assert(actions@ =~= actions_before + seq![r->0]);
                } else {
                    assert(actions@ =~= actions_before + Seq::<bool>::empty());
                }
            }
            i += 1;
        }
        proof {
            assert(events@.take(events@.len() as int) =~= events@);
        }
        actions
    }
}

/// Duplicate delivery is harmless: applying the same event twice leaves the
/// same connected set as applying it once, for adds and removes alike.
pub proof fn lemma_duplicate_event_idempotent(s: Set<DeviceIdentity>, e: DeviceEvent)
    ensures
        apply_event(apply_event(s, e), e) == apply_event(s, e),
{
    match e {
        DeviceEvent::Added(d) => {
            assert(s.insert(d).insert(d) =~= s.insert(d));
        },
        DeviceEvent::Removed(d) => {
            assert(s.remove(d).remove(d) =~= s.remove(d));
        },
    }
}

/// Replaying one more event applies it to the replayed state.
proof fn lemma_replay_set_push(s: Set<DeviceIdentity>, es: Seq<DeviceEvent>, e: DeviceEvent)
    ensures
        replay_set(s, es.push(e)) == apply_event(replay_set(s, es), e),
    decreases es.len(),
{
    if es.len() == 0 {
        assert(es.push(e)[0] == e);
        assert(es.push(e).drop_first() =~= Seq::<DeviceEvent>::empty());
        assert(replay_set(s, es.push(e)) == replay_set(
            apply_event(s, e),
            Seq::<DeviceEvent>::empty(),
        ));
        assert(replay_set(apply_event(s, e), Seq::<DeviceEvent>::empty()) == apply_event(s, e));
        assert(replay_set(s, es) == s);
    } else {
        assert(es.push(e)[0] == es[0]);
        assert(es.push(e).drop_first() =~= es.drop_first().push(e));
        let next = apply_event(s, es[0]);
        assert(replay_set(s, es.push(e)) == replay_set(next, es.drop_first().push(e)));
        assert(replay_set(s, es) == replay_set(next, es.drop_first()));
        lemma_replay_set_push(next, es.drop_first(), e);
    }
}

/// Replaying one more event appends its actions (none, or one policy
/// evaluation) to the replayed action sequence.
proof fn lemma_replay_actions_push(
    c: Set<DeviceIdentity>,
    w: Set<DeviceIdentity>,
    es: Seq<DeviceEvent>,
    e: DeviceEvent,
)
    ensures
        replay_actions(c, w, es.push(e)) == replay_actions(c, w, es) + (
        if event_triggers(replay_set(c, es), w, e) {
            seq![any_watched_present(apply_event(replay_set(c, es), e), w)]
        } else {
            Seq::<bool>::empty()
        }),
    decreases es.len(),
{
    let tail = if event_triggers(replay_set(c, es), w, e) {
        seq![any_watched_present(apply_event(replay_set(c, es), e), w)]
    } else {
        Seq::<bool>::empty()
    };
    if es.len() == 0 {
        assert(es.push(e)[0] == e);
        assert(es.push(e).drop_first() =~= Seq::<DeviceEvent>::empty());
        assert(replay_set(c, es) == c);
        assert(replay_actions(c, w, Seq::<DeviceEvent>::empty()) == Seq::<bool>::empty());
        assert(replay_actions(c, w, es.push(e)) == tail + replay_actions(
            apply_event(c, e),
            w,
            Seq::<DeviceEvent>::empty(),
        ));
        assert(replay_actions(c, w, es.push(e)) =~= replay_actions(c, w, es) + tail);
    } else {
        assert(es.push(e)[0] == es[0]);
        assert(es.push(e).drop_first() =~= es.drop_first().push(e));
        let next = apply_event(c, es[0]);
        let head = if event_triggers(c, w, es[0]) {
            seq![any_watched_present(next, w)]
        } else {
            Seq::<bool>::empty()
        };
        assert(replay_actions(c, w, es.push(e)) == head + replay_actions(
            next,
            w,
            es.drop_first().push(e),
        ));
        assert(replay_actions(c, w, es) == head + replay_actions(next, w, es.drop_first()));
        lemma_replay_set_push(c, es, e);
        assert(replay_set(c, es) == replay_set(next, es.drop_first()));
        lemma_replay_actions_push(next, w, es.drop_first(), e);
        assert(replay_actions(c, w, es.push(e)) =~= replay_actions(c, w, es) + tail);
    }
}

/// Removing index `i` from a duplicate-free sequence removes exactly that
/// element from the sequence's set, and keeps the sequence duplicate-free.
proof fn lemma_remove_index_to_set(s: Seq<DeviceIdentity>, i: int)
    requires
        s.no_duplicates(),
        0 <= i < s.len(),
    ensures
        s.remove(i).no_duplicates(),
        s.remove(i).to_set() == s.to_set().remove(s[i]),
{
    s.remove_ensures(i);
    assert forall|d: DeviceIdentity| s.remove(i).to_set().contains(d)
        <==> s.to_set().remove(s[i]).contains(d) by {
        if s.remove(i).to_set().contains(d) {
            let j = choose|j: int| 0 <= j < s.remove(i).len() && s.remove(i)[j] == d;
            if j < i {
                assert(s[j] == d);
            } else {
                assert(s[j + 1] == d);
            }
        }
        if s.to_set().remove(s[i]).contains(d) {
            let j = choose|j: int| 0 <= j < s.len() && s[j] == d;
            if j < i {
                assert(s.remove(i)[j] == d);
            } else {
                assert(j != i);
                assert(s.remove(i)[j - 1] == d);
            }
        }
    }
    assert(s.remove(i).to_set() =~= s.to_set().remove(s[i]));
}

} // verus!
