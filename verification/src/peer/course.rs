//! What holds of the stack on a TUN device, whatever has happened.
//!
//! A course is a sequence of events from the start of a daemon. The laws below
//! say that the stack answers and listens for exactly the surfaces that are up.

use super::access::after_grants;
use super::laws::{lemma_all_released, lemma_first_key, lemma_no_first_key};
use super::links::{admits_by, after_connection, after_control, after_dialed, after_enroll_message, EnrollmentView};
use super::projection::{after_evicted, after_project, after_restore, after_teardown, lemma_releases};
use super::queries::{known_keys, named_ip, owner_of};
use super::reach::{
    after_announced, after_bind, after_noted, after_place, after_release, after_releases, after_settle, bind_step,
    claim_of, gone_ports, lemma_gone_is_released, may_bind, stack_with, stack_without,
};
use super::update::{rebind_start, update_start, update_turn, PhaseView, UpdateEvent, UpdateView};
use super::{after_record, fresh_stack, ManagerView, PeerManager};
use crate::addr::IpView;
use crate::netstack::{lookup_in, StackView};
use crate::protocol::{MessageView, PeerMessage};
use crate::roster::Admission;
use crate::session::{after_expose, after_mint, after_timeout, after_unexpose};
use crate::surface::SurfaceView;
use crate::table::{bound_ports, held_ports, surface_ip, PeerView};
use vstd::prelude::*;

verus! {

/// A manager, with the update that was run last.
pub struct Course {
    pub peers: ManagerView,
    pub update: Option<UpdateView>,
}

/// What can happen to a manager on a TUN device.
pub enum Event {
    /// A peer was added or pinned
    Record { key: Seq<u8>, name: Option<Seq<char>>, dial: bool, code: Option<Seq<char>>, admission: Admission },
    /// A connection arrived
    Connection { remote: Seq<u8> },
    /// A peer was reached by dialing it
    Dialed { peer: Seq<u8> },
    /// A connection that waits for a code said something
    Enroll { from: EnrollmentView, now: u64, msg: PeerMessage },
    /// It waited long enough
    Timeout { conn: u64 },
    /// A known peer said something
    Control { peer: Seq<u8>, said: MessageView },
    /// A port was granted to some keys
    Expose { port: u16, to: Seq<Seq<u8>> },
    /// A port was revoked
    Unexpose { port: u16, whom: Option<Seq<u8>> },
    /// Some ports were granted to one key
    Grant { ports: Seq<u16>, grantee: Seq<u8> },
    /// A code was minted
    Mint { minted: Seq<char>, now: u64, name: Option<Seq<char>>, ports: Seq<u16> },
    /// A peer was projected
    Project { peer: Seq<u8>, at: Option<IpView>, name: Option<Seq<char>> },
    /// The surface of a peer was taken down
    Unproject { peer: Seq<u8> },
    /// A peer was forgotten
    Forget { peer: Seq<u8> },
    /// A persisted surface was put up again
    Restore { peer: Seq<u8>, ip: IpView, name: Option<Seq<char>> },
    /// A peer announced its ports: its update begins
    Announce { peer: Seq<u8>, ports: Seq<u16> },
    /// The ports of a projected peer are to be bound again
    Rebind { peer: Seq<u8> },
    /// A step of the update has ended
    Turn { event: UpdateEvent, task: u64 },
}

/// The manager after an event that does not concern the update.
pub open spec fn after(m: ManagerView, e: Event) -> ManagerView {
    match e {
        Event::Record { key, name, dial, code, admission } => after_record(m, key, name, dial, code, admission),
        Event::Connection { remote } => after_connection(m, remote),
        Event::Dialed { peer } => after_dialed(m, peer),
        Event::Enroll { from, now, msg } => after_enroll_message(m, from, now, msg),
        Event::Timeout { conn } => ManagerView { session: after_timeout(m.session, conn), ..m },
        Event::Control { peer, said } => after_control(m, peer, said),
        Event::Expose { port, to } => ManagerView { session: after_expose(m.session, port, to), ..m },
        Event::Unexpose { port, whom } => ManagerView { session: after_unexpose(m.session, port, whom), ..m },
        Event::Grant { ports, grantee } => after_grants(m, ports, grantee),
        Event::Mint { minted, now, name, ports } => ManagerView {
            session: after_mint(m.session, minted, now, name, ports),
            ..m
        },
        Event::Project { peer, at, name } => after_project(m, peer, at, name),
        Event::Unproject { peer } => after_teardown(m, peer),
        Event::Forget { peer } => after_evicted(m, peer),
        Event::Restore { peer, ip, name } => after_restore(m, peer, ip, name),
        _ => m,
    }
}

/// A course after one more event.
pub open spec fn next(c: Course, e: Event) -> Course {
    match e {
        Event::Announce { peer, ports } => {
            let t = update_start(c.peers, peer, ports);
            Course { peers: t.peers, update: Some(t.update) }
        },
        Event::Rebind { peer } => {
            let t = rebind_start(c.peers, peer);
            Course { peers: t.peers, update: Some(t.update) }
        },
        Event::Turn { event, task } => match c.update {
            Some(u) => {
                let t = update_turn(c.peers, u, event, task);
                Course { peers: t.peers, update: Some(t.update) }
            },
            None => c,
        },
        _ => Course { peers: after(c.peers, e), ..c },
    }
}

/// The course of some events, from a manager at which nothing has happened.
pub open spec fn run(start: ManagerView, events: Seq<Event>) -> Course
    decreases events.len(),
{
    if events.len() == 0 {
        Course { peers: start, update: None }
    } else {
        next(run(start, events.drop_last()), events.last())
    }
}

/// The surface of a peer, if it is known and projected.
pub open spec fn surface_of(m: ManagerView, key: Seq<u8>) -> Option<SurfaceView> {
    if m.peers.contains_key(key) {
        m.peers[key].surface
    } else {
        None
    }
}

/// What is bound for a peer, if it is known.
pub open spec fn bound_of(m: ManagerView, key: Seq<u8>) -> Map<u16, u64> {
    if m.peers.contains_key(key) {
        m.peers[key].bound
    } else {
        Map::empty()
    }
}

/// No two surfaces share a name or an address, and none has our own.
pub open spec fn apart(m: ManagerView) -> bool {
    &&& forall|a: Seq<u8>, b: Seq<u8>|
        #![trigger surface_of(m, a), surface_of(m, b)]
        a != b && surface_of(m, a) is Some && surface_of(m, b) is Some ==> surface_of(m, a)->Some_0.ip != surface_of(
            m,
            b,
        )->Some_0.ip && (surface_of(m, a)->Some_0.name is Some ==> surface_of(m, a)->Some_0.name != surface_of(
            m,
            b,
        )->Some_0.name)
    &&& forall|k: Seq<u8>| #[trigger] surface_of(m, k) is Some ==> surface_of(m, k)->Some_0.ip != m.host && (surface_of(
        m,
        k,
    )->Some_0.name is Some ==> surface_of(m, k)->Some_0.name != m.self_name)
}

/// Whether an update is under way.
pub open spec fn under_way(c: Course) -> bool {
    c.update is Some && !(c.update->Some_0.phase is Over)
}

/// Whether an event can come next. What moves surfaces or bindings waits for an
/// update under way to end. A surface is put up again for a peer that has none,
/// or that very one. Left out is a code claimed by the key of a peer that is
/// projected: that peer is recorded anew, and its surface is lost to it.
pub open spec fn can_follow(c: Course, e: Event) -> bool {
    match e {
        Event::Project { peer, .. } => !under_way(c) && c.peers.peers.contains_key(peer),
        Event::Unproject { peer } => !under_way(c) && c.peers.peers.contains_key(peer),
        Event::Forget { .. } => !under_way(c),
        Event::Restore { peer, ip, name } => {
            let up = surface_of(c.peers, peer);
            !under_way(c) && (up is None || up == Some(SurfaceView { ip, name }))
        },
        Event::Announce { .. } => !under_way(c),
        Event::Rebind { .. } => !under_way(c),
        Event::Enroll { from, now, msg } => admits_by(c.peers, now, msg) ==> surface_of(c.peers, from.remote) is None,
        _ => true,
    }
}

/// Whether some events can follow each other, with the surfaces apart all along.
pub open spec fn in_order(start: ManagerView, events: Seq<Event>) -> bool
    decreases events.len(),
{
    &&& apart(run(start, events).peers)
    &&& events.len() > 0 ==> in_order(start, events.drop_last()) && can_follow(
        run(start, events.drop_last()),
        events.last(),
    )
}

/// Whether nothing has happened yet at a manager on a TUN device.
pub open spec fn is_fresh(m: ManagerView) -> bool {
    &&& m.peers == Map::<Seq<u8>, PeerView>::empty()
    &&& m.stack == Some(fresh_stack(m.host, m.self_name))
}

// ----------------------------------------------------------------- the stack

/// The stack knows the name of every surface, and our own, and no other.
spec fn names_hold(m: ManagerView, s: StackView) -> bool {
    &&& m.self_name is Some && m.host is V4 ==> s.names.contains_key(m.self_name->Some_0)
        && s.names[m.self_name->Some_0] == m.host->V4_0
    &&& forall|k: Seq<u8>|
        (#[trigger] surface_of(m, k)) is Some && surface_of(m, k)->Some_0.ip is V4 && surface_of(m, k)->Some_0.name is Some
            ==> s.names.contains_key(surface_of(m, k)->Some_0.name->Some_0)
            && s.names[surface_of(m, k)->Some_0.name->Some_0] == surface_of(m, k)->Some_0.ip->V4_0
    &&& forall|n: Seq<char>| #[trigger] s.names.contains_key(n) ==> is_own(m, n, s.names[n]) || exists|k: Seq<u8>|
        #[trigger] surface_of(m, k) == Some(SurfaceView { ip: IpView::V4(s.names[n]), name: Some(n) })
}

/// Whether a name is our own, and our services are at `ip`.
spec fn is_own(m: ManagerView, n: Seq<char>, ip: Seq<u8>) -> bool {
    m.self_name == Some(n) && m.host == IpView::V4(ip)
}

/// Whether a port of the peer under `key` is bound at `ip`.
spec fn binds_at(m: ManagerView, key: Seq<u8>, ip: Seq<u8>, port: u16) -> bool {
    &&& surface_of(m, key) is Some
    &&& surface_of(m, key)->Some_0.ip == IpView::V4(ip)
    &&& bound_of(m, key).contains_key(port)
}

/// The stack listens for every port that is bound, and for no other.
spec fn listeners_hold(m: ManagerView, s: StackView) -> bool {
    &&& forall|k: Seq<u8>, ip: Seq<u8>, port: u16| #[trigger]
        binds_at(m, k, ip, port) ==> s.listeners.contains((ip, port))
    &&& forall|ip: Seq<u8>, port: u16| #[trigger]
        s.listeners.contains((ip, port)) ==> exists|k: Seq<u8>| #[trigger] binds_at(m, k, ip, port)
}

/// The stack is in step with the surfaces, and nothing is bound without one.
spec fn in_step(m: ManagerView) -> bool {
    &&& m.stack is Some
    &&& names_hold(m, m.stack->Some_0)
    &&& listeners_hold(m, m.stack->Some_0)
    &&& forall|k: Seq<u8>| #[trigger] surface_of(m, k) is None ==> bound_of(m, k) == Map::<u16, u64>::empty()
}

/// A listener that is being bound outside the stack has an address that the
/// stack does not serve; no command is running.
spec fn fits(m: ManagerView, u: UpdateView) -> bool {
    match u.phase {
        PhaseView::Claiming { .. } => false,
        PhaseView::Binding { ip } => surface_of(m, u.key) is Some && surface_of(m, u.key)->Some_0.ip == ip && ip is V6,
        PhaseView::Waiting { ip } => surface_of(m, u.key) is Some && surface_of(m, u.key)->Some_0.ip == ip && ip is V6,
        _ => true,
    }
}

/// Nothing of the stack, the surfaces and the bindings changed.
spec fn still(m: ManagerView, n: ManagerView) -> bool {
    &&& n.stack == m.stack
    &&& n.host == m.host
    &&& n.self_name == m.self_name
    &&& forall|k: Seq<u8>| #[trigger] surface_of(n, k) == surface_of(m, k)
    &&& forall|k: Seq<u8>| #[trigger] bound_of(n, k) == bound_of(m, k)
}

proof fn lemma_still(m: ManagerView, n: ManagerView)
    requires
        in_step(m),
        still(m, n),
    ensures
        in_step(n),
{
    let s = m.stack->Some_0;
    assert forall|k: Seq<u8>, ip: Seq<u8>, port: u16| #[trigger] binds_at(n, k, ip, port) == binds_at(m, k, ip, port) by {
        assert(surface_of(n, k) == surface_of(m, k));
        assert(bound_of(n, k) == bound_of(m, k));
    }
    assert forall|n0: Seq<char>| #[trigger] s.names.contains_key(n0) implies is_own(n, n0, s.names[n0]) || exists|k: Seq<u8>|
        #[trigger] surface_of(n, k) == Some(SurfaceView { ip: IpView::V4(s.names[n0]), name: Some(n0) }) by {
        if !is_own(m, n0, s.names[n0]) {
            let k = choose|k: Seq<u8>|
                #[trigger] surface_of(m, k) == Some(SurfaceView { ip: IpView::V4(s.names[n0]), name: Some(n0) });
            assert(surface_of(n, k) == surface_of(m, k));
        }
    }
    assert(names_hold(n, s));
    assert forall|ip: Seq<u8>, port: u16| #[trigger] s.listeners.contains((ip, port)) implies exists|k: Seq<u8>|
        #[trigger] binds_at(n, k, ip, port) by {
        let k = choose|k: Seq<u8>| #[trigger] binds_at(m, k, ip, port);
        assert(binds_at(n, k, ip, port));
    }
    assert(listeners_hold(n, s));
    assert forall|k: Seq<u8>| #[trigger] surface_of(n, k) is None implies bound_of(n, k) == Map::<u16, u64>::empty() by {
        assert(surface_of(m, k) is None);
        assert(bound_of(n, k) == bound_of(m, k));
    }
}

/// Releasing one binding ends its listening and no other.
proof fn lemma_release(m: ManagerView, key: Seq<u8>, port: u16)
    requires
        in_step(m),
        apart(m),
        m.peers.contains_key(key),
    ensures
        in_step(after_release(m, key, port)),
        apart(after_release(m, key, port)),
        after_release(m, key, port).peers.contains_key(key),
{
    let n = after_release(m, key, port);
    let (s, t) = (m.stack->Some_0, n.stack->Some_0);
    assert forall|k: Seq<u8>| #[trigger] surface_of(n, k) == surface_of(m, k) by {}
    assert forall|k: Seq<u8>| #[trigger] bound_of(n, k) == if k == key {
        bound_of(m, k).remove(port)
    } else {
        bound_of(m, k)
    } by {}
    assert(apart(n));
    assert(t.names == s.names);
    assert forall|a: Seq<char>| #[trigger] t.names.contains_key(a) implies is_own(n, a, t.names[a]) || exists|k: Seq<u8>|
        #[trigger] surface_of(n, k) == Some(SurfaceView { ip: IpView::V4(t.names[a]), name: Some(a) }) by {
        if !is_own(m, a, s.names[a]) {
            let k = choose|k: Seq<u8>|
                #[trigger] surface_of(m, k) == Some(SurfaceView { ip: IpView::V4(s.names[a]), name: Some(a) });
            assert(surface_of(n, k) == surface_of(m, k));
        }
    }
    assert(names_hold(n, t));
    assert forall|k: Seq<u8>, ip: Seq<u8>, q: u16| #[trigger] binds_at(n, k, ip, q) implies t.listeners.contains((ip, q)) by {
        assert(surface_of(n, k) == surface_of(m, k));
        assert(bound_of(n, k).contains_key(q));
        assert(binds_at(m, k, ip, q));
        if k != key {
            assert(surface_of(m, key) is Some ==> surface_of(m, key)->Some_0.ip != surface_of(m, k)->Some_0.ip);
        }
    }
    assert forall|ip: Seq<u8>, q: u16| #[trigger] t.listeners.contains((ip, q)) implies exists|k: Seq<u8>|
        #[trigger] binds_at(n, k, ip, q) by {
        assert(s.listeners.contains((ip, q)));
        let k = choose|k: Seq<u8>| #[trigger] binds_at(m, k, ip, q);
        assert(surface_of(n, k) == surface_of(m, k));
        assert(bound_of(n, k).contains_key(q));
        assert(binds_at(n, k, ip, q));
    }
    assert(listeners_hold(n, t));
    assert forall|k: Seq<u8>| #[trigger] surface_of(n, k) is None implies bound_of(n, k) == Map::<u16, u64>::empty() by {
        assert(surface_of(m, k) is None);
        assert(bound_of(m, k) == Map::<u16, u64>::empty());
        assert(bound_of(n, k) =~= Map::<u16, u64>::empty());
    }
}

proof fn lemma_release_all(m: ManagerView, key: Seq<u8>, ports: Seq<u16>)
    requires
        in_step(m),
        apart(m),
        m.peers.contains_key(key),
    ensures
        in_step(after_releases(m, key, ports)),
        apart(after_releases(m, key, ports)),
        after_releases(m, key, ports).peers.contains_key(key),
    decreases ports.len(),
{
    if ports.len() > 0 {
        lemma_release_all(m, key, ports.drop_last());
        lemma_release(after_releases(m, key, ports.drop_last()), key, ports.last());
    }
}

/// The surface of a peer with nothing bound goes: the stack forgets its name,
/// and no other.
proof fn lemma_surface_goes(m: ManagerView, n: ManagerView, key: Seq<u8>)
    requires
        in_step(m),
        apart(m),
        surface_of(m, key) is Some,
        bound_of(m, key) == Map::<u16, u64>::empty(),
        n.stack == stack_without(m.stack, surface_of(m, key)->Some_0.ip),
        n.host == m.host,
        n.self_name == m.self_name,
        surface_of(n, key) is None,
        forall|k: Seq<u8>| k != key ==> #[trigger] surface_of(n, k) == surface_of(m, k),
        forall|k: Seq<u8>| #[trigger] bound_of(n, k) == bound_of(m, k),
    ensures
        in_step(n),
        apart(n),
{
    let (s, t) = (m.stack->Some_0, n.stack->Some_0);
    let gone = surface_of(m, key)->Some_0;
    assert forall|k: Seq<u8>| #[trigger] surface_of(n, k) is Some implies k != key && surface_of(m, k) == surface_of(n, k) by {}
    assert(apart(n));
    assert(t.listeners == s.listeners);
    assert forall|a: Seq<char>| #[trigger] t.names.contains_key(a) implies is_own(n, a, t.names[a]) || exists|k: Seq<u8>|
        #[trigger] surface_of(n, k) == Some(SurfaceView { ip: IpView::V4(t.names[a]), name: Some(a) }) by {
        assert(s.names.contains_key(a) && t.names[a] == s.names[a]);
        if !is_own(m, a, s.names[a]) {
            let k = choose|k: Seq<u8>|
                #[trigger] surface_of(m, k) == Some(SurfaceView { ip: IpView::V4(s.names[a]), name: Some(a) });
            assert(surface_of(n, k) == surface_of(m, k));
        }
    }
    assert forall|k: Seq<u8>|
        (#[trigger] surface_of(n, k)) is Some && surface_of(n, k)->Some_0.ip is V4 && surface_of(n, k)->Some_0.name is Some implies
        t.names.contains_key(surface_of(n, k)->Some_0.name->Some_0) && t.names[surface_of(n, k)->Some_0.name->Some_0]
        == surface_of(n, k)->Some_0.ip->V4_0 by {
        assert(surface_of(m, k) == surface_of(n, k));
        assert(surface_of(m, k)->Some_0.ip != surface_of(m, key)->Some_0.ip);
    }
    assert(names_hold(n, t));
    assert forall|k: Seq<u8>, ip: Seq<u8>, q: u16| #[trigger] binds_at(n, k, ip, q) == binds_at(m, k, ip, q) by {
        assert(bound_of(n, k) == bound_of(m, k));
        if k != key {
            assert(surface_of(n, k) == surface_of(m, k));
        }
    }
    assert forall|ip: Seq<u8>, q: u16| #[trigger] t.listeners.contains((ip, q)) implies exists|k: Seq<u8>|
        #[trigger] binds_at(n, k, ip, q) by {
        let k = choose|k: Seq<u8>| #[trigger] binds_at(m, k, ip, q);
        assert(binds_at(n, k, ip, q));
    }
    assert(listeners_hold(n, t));
    assert forall|k: Seq<u8>| #[trigger] surface_of(n, k) is None implies bound_of(n, k) == Map::<u16, u64>::empty() by {
        assert(bound_of(n, k) == bound_of(m, k));
        if k != key {
            assert(surface_of(m, k) is None);
        }
    }
}

/// Taking the surface of a peer down keeps the stack in step.
proof fn lemma_teardown(m: ManagerView, key: Seq<u8>)
    requires
        in_step(m),
        apart(m),
        m.peers.contains_key(key),
    ensures
        in_step(after_teardown(m, key)),
        apart(after_teardown(m, key)),
        after_teardown(m, key).peers.contains_key(key),
        surface_of(after_teardown(m, key), key) is None,
        after_teardown(m, key).host == m.host,
        after_teardown(m, key).self_name == m.self_name,
{
    if m.peers[key].surface is Some {
        let ports = bound_ports(m.peers[key]);
        let r = after_releases(m, key, ports);
        let n = after_teardown(m, key);
        lemma_release_all(m, key, ports);
        lemma_releases(m, key, ports);
        lemma_all_released(m, key);
        assert(bound_of(r, key) == Map::<u16, u64>::empty());
        assert forall|k: Seq<u8>| k != key implies #[trigger] surface_of(n, k) == surface_of(r, k) by {}
        assert forall|k: Seq<u8>| #[trigger] bound_of(n, k) == bound_of(r, k) by {}
        lemma_surface_goes(r, n, key);
    }
}

/// Forgetting a peer keeps the stack in step.
proof fn lemma_evicted(m: ManagerView, key: Seq<u8>)
    requires
        in_step(m),
        apart(m),
    ensures
        in_step(after_evicted(m, key)),
        apart(after_evicted(m, key)),
        surface_of(after_evicted(m, key), key) is None,
{
    if m.peers.contains_key(key) {
        let ports = bound_ports(m.peers[key]);
        let r = after_releases(m, key, ports);
        let n = after_evicted(m, key);
        lemma_release_all(m, key, ports);
        lemma_releases(m, key, ports);
        lemma_all_released(m, key);
        assert(bound_of(r, key) == Map::<u16, u64>::empty());
        assert forall|k: Seq<u8>| k != key implies #[trigger] surface_of(n, k) == surface_of(r, k) by {}
        assert forall|k: Seq<u8>| #[trigger] bound_of(n, k) == bound_of(r, k) by {}
        if m.peers[key].surface is Some {
            lemma_surface_goes(r, n, key);
        } else {
            assert forall|k: Seq<u8>| #[trigger] surface_of(n, k) == surface_of(r, k) by {}
            lemma_still(r, n);
            assert(apart(n));
        }
    }
}

/// A surface comes up for a peer that has none: the stack knows its name.
proof fn lemma_surface_comes(m: ManagerView, key: Seq<u8>, ip: IpView, name: Option<Seq<char>>)
    requires
        in_step(m),
        m.peers.contains_key(key),
        m.peers[key].surface is None,
        apart(after_settle(ManagerView { stack: stack_with(m.stack, ip, name), ..m }, key, ip, name)),
    ensures
        in_step(after_settle(ManagerView { stack: stack_with(m.stack, ip, name), ..m }, key, ip, name)),
{
    let n = after_settle(ManagerView { stack: stack_with(m.stack, ip, name), ..m }, key, ip, name);
    let (s, t) = (m.stack->Some_0, n.stack->Some_0);
    let up = SurfaceView { ip, name };
    assert(surface_of(m, key) is None);
    assert(bound_of(m, key) == Map::<u16, u64>::empty());
    assert(surface_of(n, key) == Some(up));
    assert forall|k: Seq<u8>| k != key implies #[trigger] surface_of(n, k) == surface_of(m, k) by {}
    assert forall|k: Seq<u8>| #[trigger] bound_of(n, k) == bound_of(m, k) by {}
    assert(t.listeners == s.listeners);
    assert forall|a: Seq<char>| #[trigger] t.names.contains_key(a) implies is_own(n, a, t.names[a]) || exists|k: Seq<u8>|
        #[trigger] surface_of(n, k) == Some(SurfaceView { ip: IpView::V4(t.names[a]), name: Some(a) }) by {
        if ip is V4 && name == Some(a) {
            assert(surface_of(n, key) == Some(SurfaceView { ip: IpView::V4(t.names[a]), name: Some(a) }));
        } else {
            assert(s.names.contains_key(a) && t.names[a] == s.names[a]);
            if !is_own(m, a, s.names[a]) {
                let k = choose|k: Seq<u8>|
                    #[trigger] surface_of(m, k) == Some(SurfaceView { ip: IpView::V4(s.names[a]), name: Some(a) });
                assert(surface_of(n, k) == surface_of(m, k));
            }
        }
    }
    assert forall|k: Seq<u8>|
        (#[trigger] surface_of(n, k)) is Some && surface_of(n, k)->Some_0.ip is V4 && surface_of(n, k)->Some_0.name is Some implies
        t.names.contains_key(surface_of(n, k)->Some_0.name->Some_0) && t.names[surface_of(n, k)->Some_0.name->Some_0]
        == surface_of(n, k)->Some_0.ip->V4_0 by {
        if k != key {
            assert(surface_of(m, k) == surface_of(n, k));
            assert(surface_of(n, k)->Some_0.name != surface_of(n, key)->Some_0.name);
        }
    }
    assert(names_hold(n, t));
    assert forall|k: Seq<u8>, a: Seq<u8>, q: u16| #[trigger] binds_at(n, k, a, q) == binds_at(m, k, a, q) by {
        assert(bound_of(n, k) == bound_of(m, k));
        if k != key {
            assert(surface_of(n, k) == surface_of(m, k));
        }
    }
    assert forall|a: Seq<u8>, q: u16| #[trigger] t.listeners.contains((a, q)) implies exists|k: Seq<u8>|
        #[trigger] binds_at(n, k, a, q) by {
        let k = choose|k: Seq<u8>| #[trigger] binds_at(m, k, a, q);
        assert(binds_at(n, k, a, q));
    }
    assert(listeners_hold(n, t));
    assert forall|k: Seq<u8>| #[trigger] surface_of(n, k) is None implies bound_of(n, k) == Map::<u16, u64>::empty() by {
        assert(k != key);
        assert(surface_of(m, k) is None);
        assert(bound_of(n, k) == bound_of(m, k));
    }
}

/// One more port is bound for a peer: the stack listens for it where it serves
/// its address.
proof fn lemma_port_bound(m: ManagerView, n: ManagerView, key: Seq<u8>, port: u16)
    requires
        in_step(m),
        surface_of(m, key) is Some,
        n.host == m.host,
        n.self_name == m.self_name,
        n.stack is Some,
        n.stack->Some_0.names == m.stack->Some_0.names,
        n.stack->Some_0.listeners == match surface_of(m, key)->Some_0.ip {
            IpView::V4(ip) => m.stack->Some_0.listeners.insert((ip, port)),
            IpView::V6(_) => m.stack->Some_0.listeners,
        },
        forall|k: Seq<u8>| #[trigger] surface_of(n, k) == surface_of(m, k),
        forall|k: Seq<u8>| k != key ==> #[trigger] bound_of(n, k) == bound_of(m, k),
        forall|q: u16| #[trigger] bound_of(n, key).contains_key(q) <==> bound_of(m, key).contains_key(q) || q == port,
    ensures
        in_step(n),
{
    let (s, t) = (m.stack->Some_0, n.stack->Some_0);
    assert forall|a: Seq<char>| #[trigger] t.names.contains_key(a) implies is_own(n, a, t.names[a]) || exists|k: Seq<u8>|
        #[trigger] surface_of(n, k) == Some(SurfaceView { ip: IpView::V4(t.names[a]), name: Some(a) }) by {
        if !is_own(m, a, s.names[a]) {
            let k = choose|k: Seq<u8>|
                #[trigger] surface_of(m, k) == Some(SurfaceView { ip: IpView::V4(s.names[a]), name: Some(a) });
            assert(surface_of(n, k) == surface_of(m, k));
        }
    }
    assert(names_hold(n, t));
    assert forall|k: Seq<u8>, a: Seq<u8>, q: u16| #[trigger] binds_at(n, k, a, q) implies t.listeners.contains((a, q)) by {
        assert(surface_of(n, k) == surface_of(m, k));
        if k != key || q != port {
            assert(bound_of(n, k).contains_key(q));
            assert(binds_at(m, k, a, q));
        }
    }
    assert forall|a: Seq<u8>, q: u16| #[trigger] t.listeners.contains((a, q)) implies exists|k: Seq<u8>|
        #[trigger] binds_at(n, k, a, q) by {
        if s.listeners.contains((a, q)) {
            let k = choose|k: Seq<u8>| #[trigger] binds_at(m, k, a, q);
            assert(surface_of(n, k) == surface_of(m, k));
            assert(bound_of(n, k).contains_key(q));
            assert(binds_at(n, k, a, q));
        } else {
            assert(surface_of(n, key) == surface_of(m, key));
            assert(bound_of(n, key).contains_key(q));
            assert(binds_at(n, key, a, q));
        }
    }
    assert(listeners_hold(n, t));
    assert forall|k: Seq<u8>| #[trigger] surface_of(n, k) is None implies bound_of(n, k) == Map::<u16, u64>::empty() by {
        assert(surface_of(m, k) is None);
        assert(bound_of(n, k) == bound_of(m, k));
    }
}

/// A surface that is put up again, for a peer that has none or that very one,
/// keeps the stack in step.
proof fn lemma_restored(m: ManagerView, key: Seq<u8>, ip: IpView, name: Option<Seq<char>>)
    requires
        in_step(m),
        surface_of(m, key) is None || surface_of(m, key) == Some(SurfaceView { ip, name }),
        apart(after_restore(m, key, ip, name)),
    ensures
        in_step(after_restore(m, key, ip, name)),
{
    if m.peers.contains_key(key) {
        if m.peers[key].surface is None {
            lemma_surface_comes(m, key, ip, name);
        } else {
            let n = after_restore(m, key, ip, name);
            let (s, t) = (m.stack->Some_0, n.stack->Some_0);
            assert(surface_of(m, key) is Some);
            assert(t.names =~= s.names);
            assert(t =~= s);
            assert(n.peers =~= m.peers);
            lemma_still(m, n);
        }
    }
}

/// A step of an update keeps the stack in step.
proof fn lemma_turned(m: ManagerView, u: UpdateView, e: UpdateEvent, task: u64)
    requires
        in_step(m),
        fits(m, u),
        apart(update_turn(m, u, e, task).peers),
    ensures
        in_step(update_turn(m, u, e, task).peers),
        fits(update_turn(m, u, e, task).peers, update_turn(m, u, e, task).update),
{
    let t = update_turn(m, u, e, task);
    let n = t.peers;
    let port = u.ports[u.next];
    assert(forall|k: Seq<u8>| #[trigger] surface_of(after_noted(m, u.key), k) == surface_of(m, k));
    assert(forall|k: Seq<u8>| #[trigger] bound_of(after_noted(m, u.key), k) == bound_of(m, k));
    lemma_still(m, after_noted(m, u.key));
    match (u.phase, e) {
        (PhaseView::Placing, UpdateEvent::Performed) => {
            let up = after_place(m, u.key, u.ports);
            if up != m {
                let s = up.peers[u.key].surface->Some_0;
                lemma_surface_comes(m, u.key, s.ip, s.name);
            }
        },
        (PhaseView::Ports, UpdateEvent::Performed) => {
            if u.next < u.ports.len() {
                let b = after_bind(m, u.key, port, task);
                if bind_step(m, u.key, port) is Listening {
                    assert(forall|k: Seq<u8>| #[trigger] surface_of(b, k) == surface_of(m, k));
                    lemma_port_bound(m, b, u.key, port);
                }
            }
        },
        (PhaseView::Binding { .. }, UpdateEvent::Bound) => {
            if may_bind(m, u.key, port) {
                assert(forall|k: Seq<u8>| #[trigger] surface_of(n, k) == surface_of(m, k));
                lemma_port_bound(m, n, u.key, port);
            }
        },
        _ => {},
    }
}

/// The stack is in step with the surfaces in the course of events.
spec fn keeps_step(c: Course) -> bool {
    &&& in_step(c.peers)
    &&& c.update is Some ==> fits(c.peers, c.update->Some_0)
}

/// Every event that can come next keeps the stack in step.
proof fn lemma_next(c: Course, e: Event)
    requires
        keeps_step(c),
        apart(c.peers),
        can_follow(c, e),
        apart(next(c, e).peers),
    ensures
        keeps_step(next(c, e)),
{
    let m = c.peers;
    let n = next(c, e).peers;
    match e {
        Event::Project { peer, at, name } => {
            let t = after_teardown(m, peer);
            lemma_teardown(m, peer);
            if n != t {
                let up = n.peers[peer].surface->Some_0;
                lemma_surface_comes(t, peer, up.ip, up.name);
            }
        },
        Event::Unproject { peer } => {
            lemma_teardown(m, peer);
        },
        Event::Forget { peer } => {
            lemma_evicted(m, peer);
        },
        Event::Restore { peer, ip, name } => {
            lemma_restored(m, peer, ip, name);
        },
        Event::Announce { peer, ports } => {
            if m.peers.contains_key(peer) {
                lemma_announced(m, peer, ports);
            }
        },
        Event::Rebind { .. } => {},
        Event::Turn { event, task } => {
            if c.update is Some {
                lemma_turned(m, c.update->Some_0, event, task);
            }
        },
        _ => {
            assert forall|k: Seq<u8>| #[trigger] surface_of(n, k) == surface_of(m, k) by {}
            assert forall|k: Seq<u8>| #[trigger] bound_of(n, k) == bound_of(m, k) by {
                assert(surface_of(m, k) is None ==> bound_of(m, k) == Map::<u16, u64>::empty());
            }
            lemma_still(m, n);
        },
    }
}

/// What a peer no longer announces is released in step.
proof fn lemma_announced(m: ManagerView, key: Seq<u8>, ports: Seq<u16>)
    requires
        in_step(m),
        apart(m),
        m.peers.contains_key(key),
    ensures
        in_step(after_announced(m, key, ports)),
        apart(after_announced(m, key, ports)),
{
    let gone = gone_ports(held_ports(m.peers[key]), ports);
    let r = after_releases(m, key, gone);
    let n = after_announced(m, key, ports);
    lemma_release_all(m, key, gone);
    assert forall|k: Seq<u8>| #[trigger] surface_of(n, k) == surface_of(r, k) by {}
    assert forall|k: Seq<u8>| #[trigger] bound_of(n, k) == bound_of(r, k) by {}
    lemma_still(r, n);
    lemma_releases(m, key, gone);
    assert(n.host == r.host && n.self_name == r.self_name);
    assert(apart(n));
}

proof fn lemma_run(start: ManagerView, events: Seq<Event>)
    requires
        is_fresh(start),
        in_order(start, events),
    ensures
        keeps_step(run(start, events)),
        apart(run(start, events).peers),
    decreases events.len(),
{
    if events.len() == 0 {
        let s = start.stack->Some_0;
        assert forall|k: Seq<u8>, ip: Seq<u8>, port: u16| !#[trigger] binds_at(start, k, ip, port) by {}
        assert(names_hold(start, s));
        assert(listeners_hold(start, s));
        assert(in_step(start));
    } else {
        lemma_run(start, events.drop_last());
        lemma_next(run(start, events.drop_last()), events.last());
    }
}

// --------------------------------------------------------------------- laws

/// An address as far as the stack can answer with it.
pub open spec fn v4_part(ip: Option<IpView>) -> Option<Seq<u8>> {
    match ip {
        Some(IpView::V4(a)) => Some(a),
        _ => None,
    }
}

/// No command has to run for an address on a TUN device.
pub proof fn law_tun_needs_no_command(m: ManagerView, ip: IpView)
    requires
        m.stack is Some,
    ensures
        claim_of(m, ip) is Free,
{
}

/// On a TUN device the resolver in the stack answers every name as the daemon
/// does, whatever has happened, while surfaces and we have names and addresses
/// of our own: with the address of the surface that is called so, or with where
/// our services are, and with nothing for any other name.
pub proof fn law_stack_answers_for_the_surfaces(manager: PeerManager, start: ManagerView, events: Seq<Event>, name: Seq<char>)
    requires
        is_fresh(start),
        in_order(start, events),
        manager.wf(),
        manager@ == run(start, events).peers,
    ensures
        manager@.stack is Some,
        lookup_in(manager@.stack->Some_0.names, name) == v4_part(named_ip(manager@, name)),
{
    lemma_run(start, events);
    let m = manager@;
    let s = m.stack->Some_0;
    let keys = known_keys(m);
    let meets = |k: Seq<u8>| m.peers[k].surface is Some && m.peers[k].surface->Some_0.name == Some(name);
    manager.lemma_consistent();
    assert forall|k: Seq<u8>| #[trigger] keys.contains(k) <==> m.peers.contains_key(k) by {
        assert(m.peers.dom().contains(k) <==> m.peers.contains_key(k));
    }
    if m.self_name == Some(name) {
        if s.names.contains_key(name) && !is_own(m, name, s.names[name]) {
            let k = choose|k: Seq<u8>|
                #[trigger] surface_of(m, k) == Some(SurfaceView { ip: IpView::V4(s.names[name]), name: Some(name) });
            assert(surface_of(m, k) is Some);
        }
    } else if exists|k: Seq<u8>| keys.contains(k) && #[trigger] meets(k) {
        let key = choose|k: Seq<u8>| keys.contains(k) && #[trigger] meets(k);
        let up = surface_of(m, key);
        assert forall|k: Seq<u8>| keys.contains(k) && #[trigger] meets(k) implies k == key by {
            assert(surface_of(m, k) is Some && up is Some);
        }
        lemma_first_key(keys, meets, key);
        if s.names.contains_key(name) {
            let k = choose|k: Seq<u8>|
                #[trigger] surface_of(m, k) == Some(SurfaceView { ip: IpView::V4(s.names[name]), name: Some(name) });
            assert(surface_of(m, k) is Some && up is Some);
        }
    } else {
        lemma_no_first_key(keys, meets);
        if s.names.contains_key(name) {
            let k = choose|k: Seq<u8>|
                #[trigger] surface_of(m, k) == Some(SurfaceView { ip: IpView::V4(s.names[name]), name: Some(name) });
            assert(keys.contains(k) && meets(k));
        }
    }
}

/// On a TUN device the stack listens at an address and port exactly while that
/// port is bound for the peer whose surface is at that address, whatever has
/// happened, while surfaces have addresses of their own.
pub proof fn law_stack_listens_for_what_is_bound(
    manager: PeerManager,
    start: ManagerView,
    events: Seq<Event>,
    ip: Seq<u8>,
    port: u16,
)
    requires
        is_fresh(start),
        in_order(start, events),
        manager.wf(),
        manager@ == run(start, events).peers,
    ensures
        manager@.stack is Some,
        manager@.stack->Some_0.listeners.contains((ip, port)) <==> owner_of(manager@, IpView::V4(ip)) is Some
            && manager@.peers[owner_of(manager@, IpView::V4(ip))->Some_0].bound.contains_key(port),
{
    lemma_run(start, events);
    let m = manager@;
    let s = m.stack->Some_0;
    let keys = known_keys(m);
    let meets = |k: Seq<u8>| surface_ip(m.peers[k]) == Some(IpView::V4(ip));
    manager.lemma_consistent();
    assert forall|k: Seq<u8>| #[trigger] keys.contains(k) <==> m.peers.contains_key(k) by {
        assert(m.peers.dom().contains(k) <==> m.peers.contains_key(k));
    }
    if exists|k: Seq<u8>| keys.contains(k) && #[trigger] meets(k) {
        let key = choose|k: Seq<u8>| keys.contains(k) && #[trigger] meets(k);
        assert(surface_of(m, key) is Some);
        assert forall|k: Seq<u8>| keys.contains(k) && #[trigger] meets(k) implies k == key by {
            assert(surface_of(m, k) is Some && surface_of(m, key) is Some);
        }
        lemma_first_key(keys, meets, key);
        assert(binds_at(m, key, ip, port) <==> m.peers[key].bound.contains_key(port));
        if s.listeners.contains((ip, port)) {
            let k = choose|k: Seq<u8>| #[trigger] binds_at(m, k, ip, port);
            assert(keys.contains(k) && meets(k));
        }
    } else {
        lemma_no_first_key(keys, meets);
        if s.listeners.contains((ip, port)) {
            let k = choose|k: Seq<u8>| #[trigger] binds_at(m, k, ip, port);
            assert(keys.contains(k) && meets(k));
        }
    }
}

/// On a TUN device listening for a port of a peer ends, at the address of its
/// surface, as soon as the peer no longer announces it, its surface is taken
/// down, or the peer is forgotten; and so does answering by the name of a
/// surface that is gone.
pub proof fn law_reach_ends_with_what_it_stands_on(
    manager: PeerManager,
    start: ManagerView,
    events: Seq<Event>,
    key: Seq<u8>,
    ports: Seq<u16>,
    port: u16,
)
    requires
        is_fresh(start),
        in_order(start, events),
        manager.wf(),
        manager@ == run(start, events).peers,
        surface_of(manager@, key) is Some,
        surface_of(manager@, key)->Some_0.ip is V4,
    ensures
        ({
            let up = surface_of(manager@, key)->Some_0;
            let at = (up.ip->V4_0, port);
            let revoked = update_start(manager@, key, ports).peers.stack->Some_0;
            let down = after_teardown(manager@, key).stack->Some_0;
            let gone = after_evicted(manager@, key).stack->Some_0;
            &&& !ports.contains(port) ==> !revoked.listeners.contains(at)
            &&& !down.listeners.contains(at)
            &&& !gone.listeners.contains(at)
            &&& up.name is Some ==> lookup_in(down.names, up.name->Some_0) is None
            &&& up.name is Some ==> lookup_in(gone.names, up.name->Some_0) is None
        }),
{
    lemma_run(start, events);
    manager.lemma_consistent();
    let m = manager@;
    let up = surface_of(m, key)->Some_0;
    let ip = up.ip->V4_0;
    let a = after_announced(m, key, ports);
    lemma_announced(m, key, ports);
    lemma_gone_is_released(m, key, ports);
    if !ports.contains(port) && a.stack->Some_0.listeners.contains((ip, port)) {
        let k = choose|k: Seq<u8>| #[trigger] binds_at(a, k, ip, port);
        assert(a.peers.contains_key(k));
        assert(surface_of(m, k) is Some && surface_of(m, key) is Some);
        assert(k == key);
    }
    lemma_teardown(m, key);
    lemma_all_released(m, key);
    lemma_nothing_at(m, after_teardown(m, key), key, port);
    lemma_evicted(m, key);
    lemma_nothing_at(m, after_evicted(m, key), key, port);
}

/// Where a surface went and all others stayed, nothing is at its address and
/// nothing answers by its name.
proof fn lemma_nothing_at(m: ManagerView, n: ManagerView, key: Seq<u8>, port: u16)
    requires
        apart(m),
        in_step(n),
        n.host == m.host,
        n.self_name == m.self_name,
        surface_of(m, key) is Some,
        surface_of(m, key)->Some_0.ip is V4,
        forall|k: Seq<u8>| #[trigger] surface_of(n, k) is Some ==> k != key && surface_of(m, k) == surface_of(n, k),
    ensures
        !n.stack->Some_0.listeners.contains((surface_of(m, key)->Some_0.ip->V4_0, port)),
        surface_of(m, key)->Some_0.name is Some ==> lookup_in(
            n.stack->Some_0.names,
            surface_of(m, key)->Some_0.name->Some_0,
        ) is None,
{
    let s = n.stack->Some_0;
    let up = surface_of(m, key)->Some_0;
    if s.listeners.contains((up.ip->V4_0, port)) {
        let k = choose|k: Seq<u8>| #[trigger] binds_at(n, k, up.ip->V4_0, port);
        assert(surface_of(n, k) is Some);
    }
    if up.name is Some && s.names.contains_key(up.name->Some_0) {
        let name = up.name->Some_0;
        let k = choose|k: Seq<u8>|
            #[trigger] surface_of(n, k) == Some(SurfaceView { ip: IpView::V4(s.names[name]), name: Some(name) });
        assert(surface_of(n, k) is Some);
    }
}

}
