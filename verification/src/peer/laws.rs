//! What holds of every manager, over several of its operations.

use super::links::{after_connection, tunnel_step, TunnelStepView};
use super::projection::{
    after_evicted, after_project, after_restore, after_restores, after_teardown, lemma_releases, project_effects,
    project_next, restore_of, teardown_effects, ProjectNextView,
};
use super::queries::{base_of, first_key, ips_of, known_keys, named_ip, projected};
use super::reach::{
    after_place, after_releases, auto_name, claim_of, lemma_gone_is_released, place_of, save_effects, PlaceView,
};
use super::update::{
    rebind_start, update_start, update_turn, valid_update, PhaseView, UpdateEvent, UpdateStepView, UpdateView,
};
use super::{binds_what_it_announces, consistent, ManagerView, PeerManager};
use crate::addr::IpView;
use crate::effect::EffectView;
use crate::history::law_announcement_is_what_is_served;
use crate::key::key_of_text;
use crate::link::{BIND_ATTEMPTS, BIND_RETRY_DELAY};
use crate::order::lemma_port_listing;
use crate::session::{announcement, announcements};
use crate::surface::{law_allocation_is_free, record_of_other, RecordView, SurfaceView};
use crate::table::{announced_ports, bound_ports, surface_ip, PeerView};
use crate::text::hex;
use vstd::prelude::*;

verus! {

// ------------------------------------------------------------------- access

/// A tunnel is forwarded, to the address it is meant for, exactly when the port
/// is granted to that very peer.
pub proof fn law_tunnel_needs_a_grant(m: ManagerView, key: Seq<u8>, port: u16)
    ensures
        m.session.grants.contains((port, key)) <==> tunnel_step(m, key, port) == (TunnelStepView::Serve { host: m.host, port }),
        !m.session.grants.contains((port, key)) <==> tunnel_step(m, key, port) is Refuse,
{
}

/// Every known peer is announced to, and each is told what it may reach and
/// nothing else.
pub proof fn law_every_peer_is_told_its_own(manager: PeerManager, key: Seq<u8>, port: u16)
    requires
        manager.wf(),
        manager@.peers.contains_key(key),
    ensures
        announcements(manager@.session).contains(announcement(manager@.session, key)),
        announcement(manager@.session, key)->Announce_ports.contains(port) <==> tunnel_step(manager@, key, port) is Serve,
{
    manager.lemma_consistent();
    let keys = known_keys(manager@);
    assert(manager@.peers.dom().contains(key));
    assert(keys.contains(key));
    let i = choose|i: int| 0 <= i < keys.len() && keys[i] == key;
    assert(announcements(manager@.session)[i] == announcement(manager@.session, key));
    law_announcement_is_what_is_served(manager@.session, key, port);
}

// ------------------------------------------------------------------ bindings

/// A manager and an update after a series of events, each with the task that
/// stands for what it bound.
pub open spec fn run_update(m: ManagerView, u: UpdateView, events: Seq<(UpdateEvent, u64)>) -> (ManagerView, UpdateView)
    decreases events.len(),
{
    if events.len() == 0 {
        (m, u)
    } else {
        let (a, b) = run_update(m, u, events.drop_last());
        let t = update_turn(a, b, events.last().0, events.last().1);
        (t.peers, t.update)
    }
}

/// What holds of a manager in the course of an update that began when it was
/// `start`.
spec fn in_course(start: ManagerView, m: ManagerView, u: UpdateView) -> bool {
    &&& valid_update(u)
    &&& m.session == start.session
    &&& m.peers.contains_key(u.key)
    &&& others_untouched(start, m, u.key)
    &&& announced_ports(m.peers[u.key]) == u.ports
    &&& m.peers[u.key].exposed == if u.phase is Over {
        u.ports
    } else {
        start.peers[u.key].exposed
    }
    &&& binds_what_it_announces(m.peers[u.key])
    &&& u.phase is Ports || u.phase is Binding || u.phase is Waiting ==> m.peers[u.key].surface is Some
    &&& dealt_with(m.peers[u.key], u)
}

/// No peer but the one under `key` was touched.
spec fn others_untouched(start: ManagerView, m: ManagerView, key: Seq<u8>) -> bool {
    forall|k: Seq<u8>| k != key ==> (#[trigger] m.peers.contains_key(k) == start.peers.contains_key(k)) && m.peers[k]
        == start.peers[k]
}

/// The ports that were dealt with are bound, or were given up.
spec fn dealt_with(p: PeerView, u: UpdateView) -> bool {
    &&& forall|j: int| 0 <= j < u.next ==> p.bound.contains_key(#[trigger] u.ports[j]) || u.dark.contains(u.ports[j])
    &&& forall|i: int| 0 <= i < u.dark.len() ==> u.ports.contains(#[trigger] u.dark[i])
}

/// Every event keeps it so.
proof fn lemma_turn(start: ManagerView, m: ManagerView, u: UpdateView, e: UpdateEvent, task: u64)
    requires
        in_course(start, m, u),
    ensures
        in_course(start, update_turn(m, u, e, task).peers, update_turn(m, u, e, task).update),
{
    let t = update_turn(m, u, e, task);
    let (a, b) = (t.peers, t.update);
    let p = a.peers[u.key];
    assert(u.next < u.ports.len() ==> u.ports.contains(u.ports[u.next]));
    assert(a.peers =~= m.peers.insert(u.key, p));
    assert(others_untouched(start, a, u.key));
    assert forall|i: int| 0 <= i < u.dark.len() implies b.dark.contains(#[trigger] u.dark[i]) by {
        assert(b.dark[i] == u.dark[i]);
    }
    if b.dark.len() > u.dark.len() {
        assert(b.dark[u.dark.len() as int] == u.ports[u.next]);
    }
    assert forall|j: int| 0 <= j < b.next implies p.bound.contains_key(#[trigger] b.ports[j]) || b.dark.contains(b.ports[j]) by {
        if j < u.next {
            if u.dark.contains(u.ports[j]) {
                let i = choose|i: int| 0 <= i < u.dark.len() && u.dark[i] == u.ports[j];
                assert(b.dark[i] == u.ports[j]);
            }
        }
    }
    assert forall|i: int| 0 <= i < b.dark.len() implies b.ports.contains(#[trigger] b.dark[i]) by {
        if i < u.dark.len() {
            assert(b.dark[i] == u.dark[i]);
        }
    }
    assert(b.key == u.key && b.ports == u.ports);
    assert(binds_what_it_announces(p));
    assert(dealt_with(a.peers[b.key], b));
    assert(in_course(start, a, b));
}

proof fn lemma_course(start: ManagerView, m: ManagerView, u: UpdateView, events: Seq<(UpdateEvent, u64)>)
    requires
        in_course(start, m, u),
    ensures
        in_course(start, run_update(m, u, events).0, run_update(m, u, events).1),
        run_update(m, u, events).1.key == u.key,
        run_update(m, u, events).1.ports == u.ports,
    decreases events.len(),
{
    if events.len() > 0 {
        lemma_course(start, m, u, events.drop_last());
        let (a, b) = run_update(m, u, events.drop_last());
        lemma_turn(start, a, b, events.last().0, events.last().1);
    }
}

/// What holds in the course of an update, as said of the ports.
proof fn lemma_all_dealt_with(start: ManagerView, m: ManagerView, u: UpdateView)
    requires
        in_course(start, m, u),
        u.next == u.ports.len(),
    ensures
        forall|p: u16| #[trigger] u.ports.contains(p) ==> m.peers[u.key].bound.contains_key(p) || u.dark.contains(p),
{
    assert forall|p: u16| #[trigger] u.ports.contains(p) implies m.peers[u.key].bound.contains_key(p) || u.dark.contains(p) by {
        let j = choose|j: int| 0 <= j < u.ports.len() && u.ports[j] == p;
        assert(m.peers[u.key].bound.contains_key(u.ports[j]) || u.dark.contains(u.ports[j]));
    }
}

/// Bindings follow announcements: from the moment a peer announces `ports`,
/// whatever happens in the course of its update, only those are bound; once
/// all were dealt with, each is bound that was not given up. What `list` shows
/// of its ports changes when the update is over, and not before. No other peer
/// is touched.
pub proof fn law_bindings_follow_announcements(
    m: ManagerView,
    key: Seq<u8>,
    ports: Seq<u16>,
    events: Seq<(UpdateEvent, u64)>,
)
    requires
        consistent(m),
        m.peers.contains_key(key),
    ensures
        ({
            let t = update_start(m, key, ports);
            let (r, u) = run_update(t.peers, t.update, events);
            &&& u.key == key && u.ports == ports
            &&& r.peers[key].exposed == if u.phase is Over {
                ports
            } else {
                m.peers[key].exposed
            }
            &&& forall|p: u16| #[trigger] r.peers[key].bound.contains_key(p) ==> ports.contains(p)
            &&& u.next == ports.len() ==> forall|p: u16|
                #[trigger] ports.contains(p) ==> r.peers[key].bound.contains_key(p) || u.dark.contains(p)
            &&& forall|k: Seq<u8>| k != key && #[trigger] m.peers.contains_key(k) ==> r.peers.contains_key(k) && r.peers[k] == m.peers[k]
            &&& r.session == m.session
        }),
{
    let t = update_start(m, key, ports);
    lemma_gone_is_released(m, key, ports);
    assert(in_course(m, t.peers, t.update));
    lemma_course(m, t.peers, t.update, events);
    let (r, u) = run_update(t.peers, t.update, events);
    if u.next == ports.len() {
        lemma_all_dealt_with(m, r, u);
    }
    assert forall|k: Seq<u8>| k != key && #[trigger] m.peers.contains_key(k) implies r.peers.contains_key(k) && r.peers[k]
        == m.peers[k] by {
        assert(r.peers.contains_key(k) == m.peers.contains_key(k));
    }
}

/// A port is given up only after every attempt to bind it has failed, and a
/// failure before that is followed by another attempt.
pub proof fn law_port_is_tried_again(m: ManagerView, u: UpdateView, e: UpdateEvent, task: u64)
    requires
        valid_update(u),
    ensures
        update_turn(m, u, e, task).update.dark != u.dark ==> u.phase is Binding && e is BindFailed && u.failed + 1 == BIND_ATTEMPTS,
        u.phase is Binding && e is BindFailed && u.failed + 1 < BIND_ATTEMPTS ==> ({
            let t = update_turn(m, u, e, task);
            let again = update_turn(m, t.update, UpdateEvent::Waited, task);
            &&& t.step == (UpdateStepView::Wait { delay: BIND_RETRY_DELAY })
            &&& again.step == (UpdateStepView::Bind { ip: u.phase->Binding_ip, port: u.ports[u.next] })
            &&& again.update.failed == u.failed + 1
        }),
{
}

/// How much an update has left to do at most.
pub open spec fn left_to_do(u: UpdateView) -> int {
    let ports = 4 * BIND_ATTEMPTS * (u.ports.len() - u.next);
    match u.phase {
        PhaseView::Placing => ports + 3,
        PhaseView::Claiming { .. } => ports + 2,
        PhaseView::Ports => ports + 1,
        PhaseView::Binding { .. } => ports - 2 * u.failed,
        PhaseView::Waiting { .. } => ports - 2 * u.failed + 1,
        PhaseView::Over => 0,
    }
}

/// An update ends: whatever happens, every event leaves less to do.
pub proof fn law_update_ends(m: ManagerView, u: UpdateView, e: UpdateEvent, task: u64)
    requires
        valid_update(u),
        !(u.phase is Over),
    ensures
        valid_update(update_turn(m, u, e, task).update),
        0 <= left_to_do(update_turn(m, u, e, task).update) < left_to_do(u),
{
}

/// A peer that announces nothing any more, as it does when everything granted
/// to us is revoked, has nothing bound from that moment on.
pub proof fn law_revocation_unbinds(m: ManagerView, key: Seq<u8>)
    requires
        consistent(m),
        m.peers.contains_key(key),
    ensures
        update_start(m, key, seq![]).peers.peers[key].bound == Map::<u16, u64>::empty(),
{
    lemma_gone_is_released(m, key, seq![]);
    let b = update_start(m, key, seq![]).peers.peers[key].bound;
    assert forall|p: u16| !b.contains_key(p) by {
        if b.contains_key(p) {
            assert(Seq::<u16>::empty().contains(p));
        }
    }
    assert(b =~= Map::<u16, u64>::empty());
}

// ------------------------------------------------------------------ surfaces

/// A surface that comes up by itself, or is projected without an address, stands
/// at an address of its own: no other surface is there. By itself it comes up
/// under what we call the peer, or a short form of its key.
pub proof fn law_surfaces_come_up_apart(
    manager: PeerManager,
    key: Seq<u8>,
    ports: Seq<u16>,
    name: Option<Seq<char>>,
    other: Seq<u8>,
)
    requires
        manager.wf(),
        manager@.peers.contains_key(key),
        manager@.peers.contains_key(other),
        other != key,
    ensures
        ({
            let m = manager@;
            let up = after_place(m, key, ports).peers[key].surface;
            m.peers[key].surface is None && up is Some ==> surface_ip(m.peers[other]) != Some(up->Some_0.ip) && up->Some_0.name
                == Some(auto_name(m.peers[key], key))
        }),
        ({
            let m = manager@;
            let up = after_project(m, key, None, name).peers[key].surface;
            up is Some ==> surface_ip(m.peers[other]) != Some(up->Some_0.ip)
        }),
{
    let m = manager@;
    manager.lemma_consistent();
    assert(m.peers.dom().contains(other));
    law_allocation_is_free(projected(m), base_of(m));
    let t = after_teardown(m, key);
    lemma_all_released(m, key);
    law_allocation_is_free(projected(t), base_of(t));
    if surface_ip(m.peers[other]) is Some {
        lemma_ips_of(m, known_keys(m), other);
        lemma_ips_of(t, known_keys(t), other);
    }
}

/// The address of a surface is in use.
proof fn lemma_ips_of(m: ManagerView, keys: Seq<Seq<u8>>, key: Seq<u8>)
    requires
        keys.contains(key),
        surface_ip(m.peers[key]) is Some,
    ensures
        ips_of(m, keys).contains(surface_ip(m.peers[key])->Some_0),
    decreases keys.len(),
{
    let ip = surface_ip(m.peers[key])->Some_0;
    let i = choose|i: int| 0 <= i < keys.len() && keys[i] == key;
    let init = keys.drop_last();
    let all = ips_of(m, keys);
    if i < init.len() {
        assert(init[i] == key);
        lemma_ips_of(m, init, key);
        let j = choose|j: int| 0 <= j < ips_of(m, init).len() && ips_of(m, init)[j] == ip;
        assert(all[j] == ip);
    } else {
        assert(all[all.len() - 1] == ip);
    }
}

/// Every surface answers by name: one that comes up by itself, or is projected
/// without a name, is called what we call the peer, or the first characters of
/// its key when nothing named it. That is so, too, where a command has to run
/// before the surface is up.
pub proof fn law_every_surface_has_a_name(
    m: ManagerView,
    key: Seq<u8>,
    ports: Seq<u16>,
    ip: Option<IpView>,
    name: Option<Seq<char>>,
)
    requires
        m.peers.contains_key(key),
    ensures
        ({
            let up = after_place(m, key, ports).peers[key].surface;
            m.peers[key].surface is None && up is Some ==> up->Some_0.name == Some(auto_name(m.peers[key], key))
        }),
        place_of(m, key, ports) matches PlaceView::Run { name: n, .. } ==> n == Some(auto_name(m.peers[key], key)),
        ({
            let called = if name is Some {
                name
            } else {
                Some(auto_name(m.peers[key], key))
            };
            &&& project_next(m, key, ip, name) is Ready ==> after_project(m, key, ip, name).peers[key].surface is Some
                && after_project(m, key, ip, name).peers[key].surface->Some_0.name == called
            &&& project_next(m, key, ip, name) matches ProjectNextView::Run { name: n, .. } ==> n == called
        }),
        m.peers[key].label is None ==> auto_name(m.peers[key], key) == hex(key).take(8),
{
    lemma_all_released(m, key);
}

/// A peer whose surface was taken down is still known, with nothing bound and
/// nowhere to be; no other peer is touched.
pub proof fn law_unprojecting_keeps_the_peer(m: ManagerView, key: Seq<u8>, other: Seq<u8>)
    requires
        m.peers.contains_key(key),
        m.peers[key].surface is Some,
    ensures
        ({
            let r = after_teardown(m, key);
            &&& r.peers.contains_key(key)
            &&& r.peers[key] == (PeerView { surface: None, bound: Map::empty(), ..m.peers[key] })
            &&& other != key && m.peers.contains_key(other) ==> r.peers.contains_key(other) && r.peers[other] == m.peers[other]
            &&& r.session == m.session
        }),
{
    lemma_all_released(m, key);
}

/// Releasing every bound port leaves none.
pub(crate) proof fn lemma_all_released(m: ManagerView, key: Seq<u8>)
    requires
        m.peers.contains_key(key),
    ensures
        after_releases(m, key, bound_ports(m.peers[key])).peers == m.peers.insert(
            key,
            PeerView { bound: Map::empty(), ..m.peers[key] },
        ),
        after_releases(m, key, bound_ports(m.peers[key])).session == m.session,
{
    let ports = bound_ports(m.peers[key]);
    lemma_port_listing(m.peers[key].bound.dom());
    lemma_releases(m, key, ports);
    assert(m.peers[key].bound.remove_keys(ports.to_set()) =~= Map::<u16, u64>::empty()) by {
        assert forall|p: u16| m.peers[key].bound.contains_key(p) implies ports.to_set().contains(p) by {
            assert(m.peers[key].bound.dom().contains(p));
            assert(ports.contains(p));
        }
    }
}

/// Projecting a peer puts its surface where it was asked for, and the ports it
/// announced are bound there: once all were dealt with, each is bound that was
/// not given up, and no other.
pub proof fn law_projecting_rebinds_the_ports(
    m: ManagerView,
    key: Seq<u8>,
    ip: Option<IpView>,
    name: Option<Seq<char>>,
    events: Seq<(UpdateEvent, u64)>,
)
    requires
        consistent(m),
        m.peers.contains_key(key),
        project_next(m, key, ip, name) is Ready,
    ensures
        ({
            let up = after_project(m, key, ip, name);
            let t = rebind_start(up, key);
            let (r, u) = run_update(t.peers, t.update, events);
            let ports = announced_ports(m.peers[key]);
            &&& u.key == key && u.ports == ports
            &&& up.peers[key].surface is Some
            &&& ip is Some ==> up.peers[key].surface->Some_0.ip == ip->Some_0
            &&& up.peers[key].exposed == m.peers[key].exposed
            &&& up.peers[key].bound == Map::<u16, u64>::empty()
            &&& forall|p: u16| #[trigger] r.peers[key].bound.contains_key(p) ==> ports.contains(p)
            &&& u.next == ports.len() ==> forall|p: u16|
                #[trigger] ports.contains(p) ==> r.peers[key].bound.contains_key(p) || u.dark.contains(p)
        }),
{
    lemma_all_released(m, key);
    let up = after_project(m, key, ip, name);
    let t = rebind_start(up, key);
    assert(in_course(up, t.peers, t.update));
    lemma_course(up, t.peers, t.update, events);
    let (r, u) = run_update(t.peers, t.update, events);
    if u.next == announced_ports(m.peers[key]).len() {
        lemma_all_dealt_with(up, r, u);
    }
}

/// A surface that was persisted comes up again as it was.
pub proof fn law_restored_surface_is_the_same(m: ManagerView, key: Seq<u8>, ip: IpView, name: Option<Seq<char>>)
    requires
        m.peers.contains_key(key),
        restore_of(m, key, ip, name) is Done,
    ensures
        after_restore(m, key, ip, name).peers[key].surface == Some(SurfaceView { ip, name }),
{
}

/// Putting persisted surfaces up again changes neither who is known, nor the
/// system, nor the backend.
pub proof fn lemma_restores(m: ManagerView, records: Seq<RecordView>)
    ensures
        ({
            let r = after_restores(m, records);
            &&& r.platform == m.platform
            &&& r.session == m.session
            &&& r.stack is Some == m.stack is Some
            &&& forall|k: Seq<u8>| #[trigger] r.peers.contains_key(k) == m.peers.contains_key(k)
        }),
    decreases records.len(),
{
    if records.len() > 0 {
        lemma_restores(m, records.drop_last());
    }
}

/// A projection survives a restart: the record that projecting writes, whatever
/// else is on disk, puts the same surface up in a daemon that knows the peer
/// and runs on the same system. The key has to read back from its text, as
/// every key does.
pub proof fn law_projection_survives_a_restart(
    m: ManagerView,
    key: Seq<u8>,
    ip: Option<IpView>,
    name: Option<Seq<char>>,
    records: Seq<RecordView>,
    restarted: ManagerView,
)
    requires
        m.peers.contains_key(key),
        project_next(m, key, ip, name) is Ready,
        key_of_text(hex(key)) == Some(key),
        restarted.peers.contains_key(key),
        restarted.platform == m.platform,
        restarted.stack is Some == m.stack is Some,
    ensures
        ({
            let up = after_project(m, key, ip, name).peers[key].surface->Some_0;
            let record = RecordView { key: hex(key), ip: up.ip, name: up.name };
            let written = records.filter(record_of_other(hex(key))).push(record);
            &&& project_effects(m, key, ip, name).last() == (EffectView::SaveSurface {
                key: record.key,
                ip: record.ip,
                name: record.name,
            })
            &&& after_restores(restarted, written).peers[key].surface == Some(up)
        }),
{
    lemma_all_released(m, key);
    lemma_releases(m, key, bound_ports(m.peers[key]));
    let up = after_project(m, key, ip, name).peers[key].surface->Some_0;
    let record = RecordView { key: hex(key), ip: up.ip, name: up.name };
    let others = records.filter(record_of_other(hex(key)));
    lemma_restores(restarted, others);
    assert(others.push(record).drop_last() =~= others);
    assert(others.push(record).last() == record);
    let before = after_restores(restarted, others);
    assert(before.peers.contains_key(key));
    assert(claim_of(before, up.ip) is Free);
    assert(after_restores(restarted, others.push(record)) == after_restore(before, key, up.ip, up.name));
    let saved = save_effects(key, up.ip, up.name);
    assert((teardown_effects(m, key) + saved).last() == saved[0]);
}

/// A name that only one surface has resolves to that surface.
pub proof fn law_surface_answers_by_name(manager: PeerManager, key: Seq<u8>, name: Seq<char>)
    requires
        manager.wf(),
        manager@.peers.contains_key(key),
        manager@.self_name != Some(name),
        manager@.peers[key].surface is Some,
        manager@.peers[key].surface->Some_0.name == Some(name),
        forall|k: Seq<u8>|
            #[trigger] manager@.peers.contains_key(k) && k != key ==> !(manager@.peers[k].surface is Some
                && manager@.peers[k].surface->Some_0.name == Some(name)),
    ensures
        named_ip(manager@, name) == Some(manager@.peers[key].surface->Some_0.ip),
{
    let m = manager@;
    manager.lemma_consistent();
    let meets = |k: Seq<u8>| m.peers[k].surface is Some && m.peers[k].surface->Some_0.name == Some(name);
    assert(m.peers.dom().contains(key));
    assert(known_keys(m).contains(key));
    assert forall|k: Seq<u8>| known_keys(m).contains(k) && #[trigger] meets(k) implies k == key by {
        assert(m.peers.dom().contains(k));
    }
    lemma_first_key(known_keys(m), meets, key);
}

/// A name that neither a surface nor we have resolves to nothing.
pub proof fn law_unused_name_does_not_resolve(manager: PeerManager, name: Seq<char>)
    requires
        manager.wf(),
        manager@.self_name != Some(name),
        forall|k: Seq<u8>|
            #[trigger] manager@.peers.contains_key(k) ==> !(manager@.peers[k].surface is Some
                && manager@.peers[k].surface->Some_0.name == Some(name)),
    ensures
        named_ip(manager@, name) is None,
{
    let m = manager@;
    manager.lemma_consistent();
    let meets = |k: Seq<u8>| m.peers[k].surface is Some && m.peers[k].surface->Some_0.name == Some(name);
    assert forall|k: Seq<u8>| known_keys(m).contains(k) implies !#[trigger] meets(k) by {
        assert(m.peers.dom().contains(k));
    }
    lemma_no_first_key(known_keys(m), meets);
}

/// The only key that meets a condition is the first that does.
pub(super) proof fn lemma_first_key(keys: Seq<Seq<u8>>, meets: spec_fn(Seq<u8>) -> bool, key: Seq<u8>)
    requires
        keys.contains(key),
        meets(key),
        forall|k: Seq<u8>| keys.contains(k) && #[trigger] meets(k) ==> k == key,
    ensures
        first_key(keys, meets) == Some(key),
    decreases keys.len(),
{
    assert(keys.contains(keys[0]));
    if !meets(keys[0]) {
        let rest = keys.drop_first();
        let i = choose|i: int| 0 <= i < keys.len() && keys[i] == key;
        assert(rest[i - 1] == key);
        assert forall|k: Seq<u8>| rest.contains(k) && #[trigger] meets(k) implies k == key by {
            let j = choose|j: int| 0 <= j < rest.len() && rest[j] == k;
            assert(keys[j + 1] == k);
        }
        lemma_first_key(rest, meets, key);
    }
}

/// Where no key meets a condition there is no first.
pub(super) proof fn lemma_no_first_key(keys: Seq<Seq<u8>>, meets: spec_fn(Seq<u8>) -> bool)
    requires
        forall|k: Seq<u8>| keys.contains(k) ==> !#[trigger] meets(k),
    ensures
        first_key(keys, meets) is None,
    decreases keys.len(),
{
    if keys.len() > 0 {
        assert(keys.contains(keys[0]));
        let rest = keys.drop_first();
        assert forall|k: Seq<u8>| rest.contains(k) implies !#[trigger] meets(k) by {
            let j = choose|j: int| 0 <= j < rest.len() && rest[j] == k;
            assert(keys[j + 1] == k);
        }
        lemma_no_first_key(rest, meets);
    }
}

// ------------------------------------------------------------------ eviction

/// A peer that was forgotten is gone: no tunnel is served to it, and when it
/// dials again it waits like any unknown one. No other peer is touched.
pub proof fn law_forgotten_peer_is_unknown(m: ManagerView, key: Seq<u8>, port: u16, other: Seq<u8>)
    requires
        consistent(m),
        m.peers.contains_key(key),
    ensures
        ({
            let r = after_evicted(m, key);
            &&& !r.peers.contains_key(key)
            &&& !r.session.peers.contains_key(key)
            &&& tunnel_step(r, key, port) is Refuse
            &&& after_connection(r, key).session.pending.contains_key(r.next_conn)
            &&& other != key ==> r.peers.contains_key(other) == m.peers.contains_key(other)
            &&& other != key && m.peers.contains_key(other) ==> r.peers[other] == m.peers[other]
            &&& other != key ==> tunnel_step(r, other, port) == tunnel_step(m, other, port)
        }),
{
    assert(m.session.peers.dom().contains(key));
}

/// A name in the stack that stood for the surface of a forgotten peer stands
/// for nothing.
pub proof fn law_forgotten_name_is_gone(m: ManagerView, key: Seq<u8>, name: Seq<char>)
    requires
        m.peers.contains_key(key),
        m.peers[key].surface is Some,
        m.peers[key].surface->Some_0.ip is V4,
        m.stack is Some,
        m.stack->Some_0.names.contains_key(name),
        m.stack->Some_0.names[name] == m.peers[key].surface->Some_0.ip->V4_0,
    ensures
        after_evicted(m, key).stack is Some,
        !after_evicted(m, key).stack->Some_0.names.contains_key(name),
{
    lemma_releases(m, key, bound_ports(m.peers[key]));
}

}
