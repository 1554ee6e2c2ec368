//! What has to be done for surfaces and bindings: where surfaces come up, what
//! runs for their addresses, what is written to disk, and what is stopped.

use super::laws::{lemma_all_released, lemma_restores};
use super::projection::{
    after_project, after_restores, after_teardown, evict_effects, lemma_releases, project_effects, project_next,
    record_restore, restores_of, unproject_effects, ProjectNextView, RestoreView,
};
use super::queries::{base_of, ips_of, known_keys, projected};
use super::reach::{
    after_bind, after_bound, after_place, after_releases, after_settle, bind_step, bound_effects, gone_ports,
    place_of, releases_effects, release_effects, save_effects, BindStepView, PlaceView,
};
use super::told::lemma_concat_contains;
use super::update::{update_start, update_turn, valid_update, PhaseView, UpdateEvent, UpdateStepView, UpdateView};
use super::{consistent, ManagerView, PeerManager};
use crate::addr::{ip_text, v4, IpView};
use crate::effect::EffectView;
use crate::key::key_of_text;
use crate::order::lemma_port_listing;
use crate::surface::{free_address, host_at, law_allocation_is_free, RecordView, SurfaceView};
use crate::table::{announced_ports, bound_ports, held_ports, surface_ip};
use crate::text::hex;
use vstd::prelude::*;

verus! {

// ------------------------------------------------------------------- stopping

/// Where the stack listened and the ports were released, it no longer does.
proof fn lemma_listeners_left(m: ManagerView, key: Seq<u8>, ports: Seq<u16>, ip: Seq<u8>, q: u16)
    requires
        m.peers.contains_key(key),
        m.stack is Some,
    ensures
        after_releases(m, key, ports).stack is Some,
        after_releases(m, key, ports).stack->Some_0.listeners.contains((ip, q)) <==> m.stack->Some_0.listeners.contains((ip, q))
            && !(surface_ip(m.peers[key]) == Some(IpView::V4(ip)) && ports.contains(q)),
    decreases ports.len(),
{
    lemma_releases(m, key, ports);
    if ports.len() > 0 {
        let init = ports.drop_last();
        lemma_listeners_left(m, key, init, ip, q);
        lemma_releases(m, key, init);
        lemma_last_contains(ports, q);
    }
}

proof fn lemma_last_contains(ports: Seq<u16>, q: u16)
    requires
        ports.len() > 0,
    ensures
        ports.contains(q) <==> ports.drop_last().contains(q) || q == ports.last(),
{
    assert(ports =~= ports.drop_last().push(ports.last()));
    lemma_concat_contains(ports.drop_last(), seq![ports.last()], q);
    assert(ports =~= ports.drop_last() + seq![ports.last()]);
    assert(seq![ports.last()][0] == ports.last());
}

/// Releasing ports stops the task of each that is bound, ends the listening for
/// each that is listened for, and calls for nothing else.
proof fn lemma_release_effects(m: ManagerView, key: Seq<u8>, ports: Seq<u16>, x: EffectView)
    requires
        m.peers.contains_key(key),
    ensures
        releases_effects(m, key, ports).contains(x) <==> match x {
            EffectView::Stop { task } => exists|p: u16|
                ports.contains(p) && #[trigger] m.peers[key].bound.contains_key(p) && m.peers[key].bound[p] == task,
            EffectView::Unlisten { ip, port } => ports.contains(port) && m.stack is Some && surface_ip(m.peers[key]) == Some(
                IpView::V4(ip),
            ) && m.stack->Some_0.listeners.contains((ip, port)),
            _ => false,
        },
    decreases ports.len(),
{
    if ports.len() > 0 {
        let init = ports.drop_last();
        let last = ports.last();
        let r = after_releases(m, key, init);
        let (a, b) = (releases_effects(m, key, init), release_effects(r, key, last));
        let bound = m.peers[key].bound;
        lemma_release_effects(m, key, init, x);
        lemma_releases(m, key, init);
        lemma_concat_contains(a, b, x);
        assert forall|p: u16| ports.contains(p) <==> #[trigger] init.contains(p) || p == last by {
            lemma_last_contains(ports, p);
        }
        assert(r.peers[key].bound == bound.remove_keys(init.to_set()));
        match x {
            EffectView::Stop { task } => {
                if b.contains(x) {
                    assert(b[0] == x);
                    assert(bound.contains_key(last) && bound[last] == task);
                }
                if exists|p: u16| ports.contains(p) && #[trigger] bound.contains_key(p) && bound[p] == task {
                    let p = choose|p: u16| ports.contains(p) && #[trigger] bound.contains_key(p) && bound[p] == task;
                    if !init.contains(p) {
                        assert(p == last);
                        assert(!init.to_set().contains(p));
                        assert(r.peers[key].bound.contains_key(p));
                        assert(b[0] == x);
                    }
                }
            },
            EffectView::Unlisten { ip, port } => {
                if m.stack is Some {
                    lemma_listeners_left(m, key, init, ip, port);
                    if surface_ip(m.peers[key]) is Some && surface_ip(m.peers[key])->Some_0 is V4 {
                        let at = surface_ip(m.peers[key])->Some_0->V4_0;
                        lemma_listeners_left(m, key, init, at, last);
                    }
                }
                if b.contains(x) {
                    let i = choose|i: int| 0 <= i < b.len() && b[i] == x;
                    assert(port == last);
                }
                if ports.contains(port) && !init.contains(port) && m.stack is Some && surface_ip(m.peers[key]) == Some(
                    IpView::V4(ip),
                ) && m.stack->Some_0.listeners.contains((ip, port)) {
                    assert(port == last);
                    assert(b[b.len() - 1] == x);
                }
            },
            _ => {},
        }
    }
}

/// Whether the effects stop every task that serves a port of a peer for which
/// `gone` holds, end the listening for those, and stop nothing else.
pub open spec fn stops_exactly(m: ManagerView, key: Seq<u8>, gone: spec_fn(u16) -> bool, fx: Seq<EffectView>) -> bool {
    &&& forall|p: u16| #[trigger]
        m.peers[key].bound.contains_key(p) && gone(p) ==> fx.contains(EffectView::Stop { task: m.peers[key].bound[p] })
    &&& forall|task: u64| #[trigger]
        fx.contains(EffectView::Stop { task }) ==> exists|p: u16| #[trigger] m.peers[key].bound.contains_key(p) && gone(p)
            && m.peers[key].bound[p] == task
    &&& forall|ip: Seq<u8>, port: u16| #[trigger]
        fx.contains(EffectView::Unlisten { ip, port }) ==> m.stack is Some && surface_ip(m.peers[key]) == Some(IpView::V4(ip))
            && m.stack->Some_0.listeners.contains((ip, port))
    &&& m.stack is Some && surface_ip(m.peers[key]) is Some && surface_ip(m.peers[key])->Some_0 is V4 ==> forall|p: u16|
        #[trigger] m.peers[key].bound.contains_key(p) && gone(p) && m.stack->Some_0.listeners.contains(
            (surface_ip(m.peers[key])->Some_0->V4_0, p),
        ) ==> fx.contains(EffectView::Unlisten { ip: surface_ip(m.peers[key])->Some_0->V4_0, port: p })
}

/// Releasing every bound port stops every task.
proof fn lemma_stops_all(m: ManagerView, key: Seq<u8>, before: Seq<EffectView>, after: Seq<EffectView>)
    requires
        m.peers.contains_key(key),
        forall|i: int| 0 <= i < before.len() ==> !(#[trigger] before[i] is Stop) && !(before[i] is Unlisten),
        forall|i: int| 0 <= i < after.len() ==> !(#[trigger] after[i] is Stop) && !(after[i] is Unlisten),
    ensures
        stops_exactly(m, key, |p: u16| true, before + releases_effects(m, key, bound_ports(m.peers[key])) + after),
{
    let ports = bound_ports(m.peers[key]);
    let mid = releases_effects(m, key, ports);
    let fx = before + mid + after;
    let bound = m.peers[key].bound;
    lemma_port_listing(bound.dom());
    assert forall|p: u16| #[trigger] ports.contains(p) <==> bound.contains_key(p) by {
        assert(bound.dom().contains(p) <==> bound.contains_key(p));
    }
    assert forall|x: EffectView| (x is Stop || x is Unlisten) implies (#[trigger] fx.contains(x) <==> mid.contains(x)) by {
        lemma_concat_contains(before + mid, after, x);
        lemma_concat_contains(before, mid, x);
    }
    assert forall|p: u16| #[trigger] bound.contains_key(p) implies fx.contains(EffectView::Stop { task: bound[p] }) by {
        lemma_release_effects(m, key, ports, EffectView::Stop { task: bound[p] });
        assert(ports.contains(p));
    }
    assert forall|task: u64| #[trigger] fx.contains(EffectView::Stop { task }) implies exists|p: u16| #[trigger]
        bound.contains_key(p) && bound[p] == task by {
        lemma_release_effects(m, key, ports, EffectView::Stop { task });
    }
    assert forall|ip: Seq<u8>, port: u16| #[trigger] fx.contains(EffectView::Unlisten { ip, port }) implies m.stack is Some
        && surface_ip(m.peers[key]) == Some(IpView::V4(ip)) && m.stack->Some_0.listeners.contains((ip, port)) by {
        lemma_release_effects(m, key, ports, EffectView::Unlisten { ip, port });
    }
    if m.stack is Some && surface_ip(m.peers[key]) is Some && surface_ip(m.peers[key])->Some_0 is V4 {
        let ip = surface_ip(m.peers[key])->Some_0->V4_0;
        assert forall|p: u16| #[trigger] bound.contains_key(p) && m.stack->Some_0.listeners.contains((ip, p)) implies fx.contains(
            EffectView::Unlisten { ip, port: p },
        ) by {
            lemma_release_effects(m, key, ports, EffectView::Unlisten { ip, port: p });
            assert(ports.contains(p));
        }
    }
}

/// When a peer announces its ports, the task of every bound port that is no
/// longer among them is stopped, and no other; a port that still is stays bound
/// by the task that serves it.
pub proof fn law_announcement_stops_what_is_gone(m: ManagerView, key: Seq<u8>, ports: Seq<u16>, port: u16)
    requires
        consistent(m),
        m.peers.contains_key(key),
    ensures
        ({
            let t = update_start(m, key, ports);
            &&& t.step is Perform
            &&& stops_exactly(m, key, |p: u16| !ports.contains(p), t.step->Perform_0)
            &&& t.peers.peers[key].bound.contains_key(port) <==> m.peers[key].bound.contains_key(port) && ports.contains(port)
            &&& t.peers.peers[key].bound.contains_key(port) ==> t.peers.peers[key].bound[port] == m.peers[key].bound[port]
            &&& t.peers.peers[key].surface == m.peers[key].surface
            &&& t.update.ports == ports && t.update.key == key
        }),
{
    broadcast use vstd::seq_lib::group_filter_ensures;

    let held = held_ports(m.peers[key]);
    let gone = gone_ports(held, ports);
    let bound = m.peers[key].bound;
    let keep = |p: u16| !ports.contains(p);
    let fx = update_start(m, key, ports).step->Perform_0;
    lemma_releases(m, key, gone);
    assert forall|p: u16| #[trigger] bound.contains_key(p) implies (gone.contains(p) <==> !ports.contains(p)) by {
        let last = announced_ports(m.peers[key]);
        assert(last.contains(p));
        let j = choose|j: int| 0 <= j < last.len() && last[j] == p;
        assert(held[held.len() - last.len() + j] == p);
        if !ports.contains(p) {
            assert(keep(p));
            assert(held.contains(p));
            assert(gone.contains(p));
        }
        if gone.contains(p) {
            let i = choose|i: int| 0 <= i < gone.len() && gone[i] == p;
            assert(keep(gone[i]));
        }
    }
    assert forall|p: u16| gone.to_set().contains(p) == #[trigger] gone.contains(p) by {}
    assert forall|p: u16| #[trigger] bound.contains_key(p) && !ports.contains(p) implies fx.contains(
        EffectView::Stop { task: bound[p] },
    ) by {
        lemma_release_effects(m, key, gone, EffectView::Stop { task: bound[p] });
        assert(gone.contains(p));
    }
    assert forall|task: u64| #[trigger] fx.contains(EffectView::Stop { task }) implies exists|p: u16| #[trigger]
        bound.contains_key(p) && !ports.contains(p) && bound[p] == task by {
        lemma_release_effects(m, key, gone, EffectView::Stop { task });
        let p = choose|p: u16| gone.contains(p) && #[trigger] bound.contains_key(p) && bound[p] == task;
        assert(bound.contains_key(p));
    }
    assert forall|ip: Seq<u8>, q: u16| #[trigger] fx.contains(EffectView::Unlisten { ip, port: q }) implies m.stack is Some
        && surface_ip(m.peers[key]) == Some(IpView::V4(ip)) && m.stack->Some_0.listeners.contains((ip, q)) by {
        lemma_release_effects(m, key, gone, EffectView::Unlisten { ip, port: q });
    }
    if m.stack is Some && surface_ip(m.peers[key]) is Some && surface_ip(m.peers[key])->Some_0 is V4 {
        let ip = surface_ip(m.peers[key])->Some_0->V4_0;
        assert forall|p: u16| #[trigger] bound.contains_key(p) && !ports.contains(p) && m.stack->Some_0.listeners.contains(
            (ip, p),
        ) implies fx.contains(EffectView::Unlisten { ip, port: p }) by {
            lemma_release_effects(m, key, gone, EffectView::Unlisten { ip, port: p });
            assert(gone.contains(p));
        }
    }
}

/// Whether an address is one that a system needs a command for: on macOS, for
/// any but the one every system has, and not on a TUN device.
pub open spec fn needs_command(m: ManagerView, ip: IpView) -> bool {
    m.stack is None && m.platform is MacOs && ip != v4(127, 0, 0, 1)
}

/// Taking a surface down stops every task that serves a port of the peer and no
/// other, gives its address up by a command where one is needed, and drops its
/// record. Nothing else is called for.
pub proof fn law_unprojecting_stops_everything(m: ManagerView, key: Seq<u8>)
    requires
        m.peers.contains_key(key),
        m.peers[key].surface is Some,
    ensures
        ({
            let fx = unproject_effects(m, key);
            let ip = m.peers[key].surface->Some_0.ip;
            &&& stops_exactly(m, key, |p: u16| true, fx)
            &&& fx.last() == (EffectView::DropSurface { key: hex(key) })
            &&& forall|args: Seq<Seq<char>>| #[trigger]
                fx.contains(EffectView::Require { args }) <==> needs_command(m, ip) && args == seq!["lo0"@, "-alias"@, ip_text(ip)]
            &&& forall|i: int|
                0 <= i < fx.len() ==> match #[trigger] fx[i] {
                    EffectView::Stop { .. } => true,
                    EffectView::Unlisten { .. } => true,
                    EffectView::Require { .. } => true,
                    EffectView::DropSurface { key: k } => k == hex(key),
                    _ => false,
                }
        }),
{
    let fx = unproject_effects(m, key);
    let ip = m.peers[key].surface->Some_0.ip;
    let mid = releases_effects(m, key, bound_ports(m.peers[key]));
    let tail = fx.skip(mid.len() as int);
    let none = Seq::<EffectView>::empty();
    lemma_stops_all(m, key, none, tail);
    assert(fx =~= none + mid + tail);
    lemma_only_stops(m, key);
    let given_up = EffectView::Require { args: seq!["lo0"@, "-alias"@, ip_text(ip)] };
    if needs_command(m, ip) {
        assert(fx[mid.len() as int] == given_up);
    }
    assert forall|args: Seq<Seq<char>>| #[trigger] fx.contains(EffectView::Require { args }) implies needs_command(m, ip)
        && args == seq!["lo0"@, "-alias"@, ip_text(ip)] by {
        let i = choose|i: int| 0 <= i < fx.len() && fx[i] == (EffectView::Require { args });
        if i < mid.len() {
            assert(mid[i] == fx[i]);
        }
    }
    assert forall|i: int| 0 <= i < fx.len() implies match #[trigger] fx[i] {
        EffectView::Stop { .. } => true,
        EffectView::Unlisten { .. } => true,
        EffectView::Require { .. } => true,
        EffectView::DropSurface { key: k } => k == hex(key),
        _ => false,
    } by {
        if i < mid.len() {
            assert(mid[i] == fx[i]);
        }
    }
}

/// Releasing calls for nothing but stopping.
proof fn lemma_only_stops(m: ManagerView, key: Seq<u8>)
    requires
        m.peers.contains_key(key),
    ensures
        ({
            let mid = releases_effects(m, key, bound_ports(m.peers[key]));
            forall|i: int| 0 <= i < mid.len() ==> #[trigger] mid[i] is Stop || mid[i] is Unlisten
        }),
{
    let mid = releases_effects(m, key, bound_ports(m.peers[key]));
    assert forall|i: int| 0 <= i < mid.len() implies #[trigger] mid[i] is Stop || mid[i] is Unlisten by {
        lemma_release_effects(m, key, bound_ports(m.peers[key]), mid[i]);
        assert(mid.contains(mid[i]));
    }
}

/// Forgetting a known peer wakes its loop so that it ends, closes its connection
/// with the reason, stops every task that serves a port of it and no other,
/// gives its address up where a command is needed, and drops its pin and its
/// record. Nothing else is called for.
pub proof fn law_forgetting_stops_everything(m: ManagerView, key: Seq<u8>, reason: Seq<char>)
    requires
        m.peers.contains_key(key),
    ensures
        ({
            let fx = evict_effects(m, key, reason);
            let p = m.peers[key];
            &&& stops_exactly(m, key, |p: u16| true, fx)
            &&& fx.contains(EffectView::Wake { peer: key })
            &&& fx.contains(EffectView::DropPin { key: hex(key) })
            &&& fx.contains(EffectView::DropSurface { key: hex(key) })
            &&& p.conn is Some ==> fx.contains(EffectView::Close { conn: p.conn->Some_0, reason })
            &&& p.surface is Some && needs_command(m, p.surface->Some_0.ip) ==> fx.contains(
                EffectView::Run { args: seq!["lo0"@, "-alias"@, ip_text(p.surface->Some_0.ip)] },
            )
            &&& forall|i: int|
                0 <= i < fx.len() ==> match #[trigger] fx[i] {
                    EffectView::Stop { .. } => true,
                    EffectView::Unlisten { .. } => true,
                    EffectView::Wake { peer } => peer == key,
                    EffectView::Close { conn, reason: r } => p.conn == Some(conn) && r == reason,
                    EffectView::Run { args } => p.surface is Some && needs_command(m, p.surface->Some_0.ip),
                    EffectView::DropPin { key: k } => k == hex(key),
                    EffectView::DropSurface { key: k } => k == hex(key),
                    _ => false,
                }
        }),
{
    let fx = evict_effects(m, key, reason);
    let p = m.peers[key];
    let mid = releases_effects(m, key, bound_ports(p));
    let head = seq![EffectView::Wake { peer: key }] + super::links::close_effects(p, reason);
    let tail = fx.skip((head.len() + mid.len()) as int);
    let given_up = match p.surface {
        Some(s) => super::reach::unclaim_effects(m, s.ip),
        None => seq![],
    };
    let dropped = seq![EffectView::DropPin { key: hex(key) }, EffectView::DropSurface { key: hex(key) }];
    assert(fx =~= head + mid + tail);
    assert(tail =~= given_up + dropped);
    assert forall|i: int| 0 <= i < tail.len() implies !(#[trigger] tail[i] is Stop) && !(tail[i] is Unlisten) by {
        if i < given_up.len() {
            assert(tail[i] == given_up[i]);
        } else {
            assert(tail[i] == dropped[i - given_up.len()]);
        }
    }
    assert forall|i: int| 0 <= i < head.len() implies !(#[trigger] head[i] is Stop) && !(head[i] is Unlisten) by {}
    lemma_stops_all(m, key, head, tail);
    lemma_only_stops(m, key);
    assert(fx[0] == (EffectView::Wake { peer: key }));
    assert(fx[fx.len() - 2] == (EffectView::DropPin { key: hex(key) }));
    assert(fx[fx.len() - 1] == (EffectView::DropSurface { key: hex(key) }));
    if p.conn is Some {
        assert(fx[1] == (EffectView::Close { conn: p.conn->Some_0, reason }));
    }
    if p.surface is Some && needs_command(m, p.surface->Some_0.ip) {
        assert(fx[(head.len() + mid.len()) as int] == (EffectView::Run {
            args: seq!["lo0"@, "-alias"@, ip_text(p.surface->Some_0.ip)],
        }));
    }
    assert forall|i: int| 0 <= i < fx.len() implies match #[trigger] fx[i] {
        EffectView::Stop { .. } => true,
        EffectView::Unlisten { .. } => true,
        EffectView::Wake { peer } => peer == key,
        EffectView::Close { conn, reason: r } => p.conn == Some(conn) && r == reason,
        EffectView::Run { args } => p.surface is Some && needs_command(m, p.surface->Some_0.ip),
        EffectView::DropPin { key: k } => k == hex(key),
        EffectView::DropSurface { key: k } => k == hex(key),
        _ => false,
    } by {
        if head.len() <= i < head.len() + mid.len() {
            assert(mid[i - head.len()] == fx[i]);
        } else if i < head.len() {
            assert(head[i] == fx[i]);
        } else {
            let j = i - head.len() - mid.len();
            assert(tail[j] == fx[i]);
            if j < given_up.len() {
                assert(tail[j] == given_up[j]);
            } else {
                assert(tail[j] == dropped[j - given_up.len()]);
            }
        }
    }
}

// -------------------------------------------------------------- coming up

/// Whether the surface of a known peer is at `ip`.
pub open spec fn is_used(m: ManagerView, ip: IpView) -> bool {
    exists|k: Seq<u8>| #[trigger] m.peers.contains_key(k) && surface_ip(m.peers[k]) == Some(ip)
}

/// The address of a host in the network that surfaces are allocated from:
/// `10.99.1.x` on a TUN device, else `127.0.1.x`.
pub open spec fn host_in(m: ManagerView, host: u8) -> IpView {
    if m.stack is Some {
        v4(10, 99, 1, host)
    } else {
        v4(127, 0, 1, host)
    }
}

/// Whether `ip` is the lowest address from `.2` to `.254` of that network at
/// which no surface is.
pub open spec fn is_next_address(m: ManagerView, ip: IpView) -> bool {
    exists|h: u8|
        2 <= h <= 254 && ip == #[trigger] host_in(m, h) && !is_used(m, ip) && forall|g: u8|
            2 <= g < h ==> is_used(m, #[trigger] host_in(m, g))
}

/// Whether surfaces are at all of them.
pub open spec fn is_full(m: ManagerView) -> bool {
    forall|h: u8| 2 <= h <= 254 ==> is_used(m, #[trigger] host_in(m, h))
}

/// What is said when surfaces are at all of them.
pub open spec fn full_text(m: ManagerView) -> Seq<char> {
    "no free address in "@ + ip_text(host_in(m, 0)) + "/24; unproject a surface first"@
}

/// What is said when a system cannot add an address.
pub open spec fn no_alias_text(ip: IpView) -> Seq<char> {
    "projecting "@ + ip_text(ip) + " needs a loopback alias, unsupported on this OS (use --ip 127.0.0.1)"@
}

/// The addresses in use are those of the surfaces.
proof fn lemma_ips(m: ManagerView, keys: Seq<Seq<u8>>, ip: IpView)
    ensures
        ips_of(m, keys).contains(ip) <==> exists|i: int| 0 <= i < keys.len() && surface_ip(m.peers[#[trigger] keys[i]]) == Some(ip),
    decreases keys.len(),
{
    if keys.len() > 0 {
        let init = keys.drop_last();
        let all = ips_of(m, keys);
        let before = ips_of(m, init);
        lemma_ips(m, init, ip);
        assert(keys[keys.len() - 1] == keys.last());
        if before.contains(ip) {
            let j = choose|j: int| 0 <= j < before.len() && before[j] == ip;
            assert(all[j] == ip);
            let i = choose|i: int| 0 <= i < init.len() && surface_ip(m.peers[#[trigger] init[i]]) == Some(ip);
            assert(keys[i] == init[i]);
        }
        if surface_ip(m.peers[keys.last()]) == Some(ip) {
            assert(all[all.len() - 1] == ip);
        }
        if all.contains(ip) {
            let j = choose|j: int| 0 <= j < all.len() && all[j] == ip;
            if j < before.len() {
                assert(before[j] == ip);
            }
        }
        if exists|i: int| 0 <= i < keys.len() && surface_ip(m.peers[#[trigger] keys[i]]) == Some(ip) {
            let i = choose|i: int| 0 <= i < keys.len() && surface_ip(m.peers[#[trigger] keys[i]]) == Some(ip);
            if i < init.len() {
                assert(init[i] == keys[i]);
            }
        }
    }
}

/// What is allocated is the lowest free address; nothing only where none is.
proof fn lemma_allocated(m: ManagerView)
    requires
        forall|k: Seq<u8>| #[trigger] known_keys(m).contains(k) <==> m.peers.contains_key(k),
    ensures
        match free_address(projected(m), base_of(m)) {
            Some(ip) => is_next_address(m, ip) && ip != v4(127, 0, 0, 1),
            None => is_full(m) && crate::surface::no_free_address_text(base_of(m)) == full_text(m),
        },
{
    let keys = known_keys(m);
    let taken = projected(m);
    let base = base_of(m);
    law_allocation_is_free(taken, base);
    assert forall|h: u8| #[trigger] host_in(m, h) == host_at(base, h) by {
        assert(crate::surface::TUN_BASE@ =~= seq![10u8, 99, 1]);
        assert(crate::surface::LOOPBACK_BASE@ =~= seq![127u8, 0, 1]);
    }
    assert forall|ip: IpView| #[trigger] taken.contains(ip) <==> is_used(m, ip) by {
        lemma_ips(m, keys, ip);
        if is_used(m, ip) {
            let k = choose|k: Seq<u8>| #[trigger] m.peers.contains_key(k) && surface_ip(m.peers[k]) == Some(ip);
            assert(keys.contains(k));
            let i = choose|i: int| 0 <= i < keys.len() && keys[i] == k;
            assert(surface_ip(m.peers[keys[i]]) == Some(ip));
        }
        if taken.contains(ip) {
            let i = choose|i: int| 0 <= i < keys.len() && surface_ip(m.peers[#[trigger] keys[i]]) == Some(ip);
            assert(keys.contains(keys[i]));
            assert(m.peers.contains_key(keys[i]));
        }
    }
    match free_address(taken, base) {
        Some(ip) => {
            let h = choose|h: u8| crate::surface::is_lowest_free(taken, base, h);
            assert(ip == host_in(m, h));
            assert forall|g: u8| 2 <= g < h implies is_used(m, #[trigger] host_in(m, g)) by {
                assert(taken.contains(host_at(base, g)));
            }
        },
        None => {
            assert(host_in(m, 0) == host_at(base, 0));
            assert(seq![base[0], base[1], base[2], 0u8] =~= host_in(m, 0)->V4_0);
            assert forall|h: u8| 2 <= h <= 254 implies is_used(m, #[trigger] host_in(m, h)) by {
                assert(taken.contains(host_at(base, h)));
            }
        },
    }
}

/// The keys in the listing are those of the known peers.
proof fn lemma_keys(manager: PeerManager)
    requires
        manager.wf(),
    ensures
        forall|k: Seq<u8>| #[trigger] known_keys(manager@).contains(k) <==> manager@.peers.contains_key(k),
{
    manager.lemma_consistent();
    assert forall|k: Seq<u8>| #[trigger] known_keys(manager@).contains(k) <==> manager@.peers.contains_key(k) by {
        assert(manager@.peers.dom().contains(k) <==> manager@.peers.contains_key(k));
    }
}

/// A peer without a surface that announces a port gets one: at the lowest free
/// address, under what we call the peer or a short form of its key, written to
/// disk. Only a command that has to run first, a full network, or a system that
/// cannot add addresses stands in the way.
pub proof fn law_first_port_brings_a_surface(manager: PeerManager, key: Seq<u8>, ports: Seq<u16>)
    requires
        manager.wf(),
        manager@.peers.contains_key(key),
    ensures
        ({
            let m = manager@;
            let p = m.peers[key];
            let r = after_place(m, key, ports);
            let called = if p.label is Some {
                p.label
            } else {
                Some(hex(key).take(8))
            };
            &&& p.surface is Some ==> place_of(m, key, ports) == PlaceView::Ready(seq![]) && r == m
            &&& p.surface is None && ports.len() == 0 ==> place_of(m, key, ports) is Nothing && r == m
            &&& p.surface is None && ports.len() > 0 ==> match place_of(m, key, ports) {
                PlaceView::Ready(fx) => {
                    let up = r.peers[key].surface->Some_0;
                    &&& r.peers[key].surface is Some
                    &&& is_next_address(m, up.ip)
                    &&& up.name == called
                    &&& fx == seq![EffectView::SaveSurface { key: hex(key), ip: up.ip, name: up.name }]
                },
                PlaceView::Run { ip, name, args } => {
                    &&& is_next_address(m, ip) && needs_command(m, ip)
                    &&& name == called
                    &&& args == seq!["lo0"@, "alias"@, ip_text(ip), "up"@]
                    &&& r == m
                },
                PlaceView::Failed(e) => {
                    &&& (is_full(m) && e == full_text(m)) || (m.stack is None && m.platform is Other && exists|ip: IpView|
                        #[trigger] is_next_address(m, ip) && e == no_alias_text(ip))
                    &&& r == m
                },
                PlaceView::Nothing => false,
            }
        }),
{
    lemma_keys(manager);
    lemma_allocated(manager@);
}

/// Projecting a peer stops what served it before, and puts its surface where it
/// was asked for, or at the lowest free address, under the name that was asked
/// for or its default one, and writes that to disk. Only a command that has to
/// run first, a full network, or a system that cannot add addresses stands in
/// the way.
pub proof fn law_projecting_puts_the_surface_up(
    manager: PeerManager,
    key: Seq<u8>,
    ip: Option<IpView>,
    name: Option<Seq<char>>,
)
    requires
        manager.wf(),
        manager@.peers.contains_key(key),
    ensures
        ({
            let m = manager@;
            let t = after_teardown(m, key);
            let r = after_project(m, key, ip, name);
            let fx = project_effects(m, key, ip, name);
            let called = if name is Some {
                name
            } else if m.peers[key].label is Some {
                m.peers[key].label
            } else {
                Some(hex(key).take(8))
            };
            &&& stops_exactly(m, key, |p: u16| m.peers[key].surface is Some, fx)
            &&& m.peers[key].surface is Some && needs_command(m, m.peers[key].surface->Some_0.ip) ==> fx.contains(
                EffectView::Run { args: seq!["lo0"@, "-alias"@, ip_text(m.peers[key].surface->Some_0.ip)] },
            )
            &&& forall|i: int|
                0 <= i < fx.len() ==> match #[trigger] fx[i] {
                    EffectView::Stop { .. } => true,
                    EffectView::Unlisten { .. } => true,
                    EffectView::Run { .. } => m.peers[key].surface is Some && needs_command(m, m.peers[key].surface->Some_0.ip),
                    EffectView::SaveSurface { key: k, .. } => k == hex(key) && i == fx.len() - 1 && r.peers[key].surface is Some,
                    _ => false,
                }
            &&& match project_next(m, key, ip, name) {
                ProjectNextView::Ready(id) => {
                    let up = r.peers[key].surface->Some_0;
                    &&& id == key
                    &&& r.peers[key].surface is Some
                    &&& ip is Some ==> up.ip == ip->Some_0
                    &&& ip is None ==> is_next_address(t, up.ip)
                    &&& up.name == called
                    &&& fx.last() == (EffectView::SaveSurface { key: hex(key), ip: up.ip, name: up.name })
                },
                ProjectNextView::Run { id, ip: at, name: n, args } => {
                    &&& id == key && n == called
                    &&& ip is Some ==> at == ip->Some_0
                    &&& ip is None ==> is_next_address(t, at)
                    &&& needs_command(m, at) && args == seq!["lo0"@, "alias"@, ip_text(at), "up"@]
                    &&& r.peers[key].surface is None
                },
                ProjectNextView::Refused(e) => {
                    &&& r.peers[key].surface is None
                    &&& (ip is None && is_full(t) && e == full_text(m)) || (m.stack is None && m.platform is Other && ip != Some(
                        v4(127, 0, 0, 1),
                    ))
                    &&& ip is Some ==> e == no_alias_text(ip->Some_0)
                },
            }
            &&& forall|k: Seq<u8>| k != key && #[trigger] m.peers.contains_key(k) ==> r.peers.contains_key(k) && r.peers[k] == m.peers[k]
            &&& r.session == m.session
            &&& r.peers[key].exposed == m.peers[key].exposed && r.peers[key].conn == m.peers[key].conn
            &&& r.peers[key].label == m.peers[key].label
            &&& m.peers[key].surface is Some ==> forall|p: u16| !#[trigger] r.peers[key].bound.contains_key(p)
        }),
{
    let m = manager@;
    let t = after_teardown(m, key);
    let fx = project_effects(m, key, ip, name);
    lemma_keys(manager);
    lemma_all_released(m, key);
    lemma_releases(m, key, bound_ports(m.peers[key]));
    assert(t.session == m.session && t.stack is Some == m.stack is Some && t.platform == m.platform);
    assert forall|k: Seq<u8>| #[trigger] known_keys(t).contains(k) <==> t.peers.contains_key(k) by {
        assert(known_keys(t) == known_keys(m));
    }
    lemma_allocated(t);
    let none = Seq::<EffectView>::empty();
    assert(full_text(t) == full_text(m));
    if m.peers[key].surface is Some {
        let mid = releases_effects(m, key, bound_ports(m.peers[key]));
        let tail = fx.skip(mid.len() as int);
        assert(fx =~= none + mid + tail);
        lemma_stops_all(m, key, none, tail);
        lemma_only_stops(m, key);
        assert forall|i: int| 0 <= i < mid.len() implies #[trigger] fx[i] is Stop || fx[i] is Unlisten by {
            assert(mid[i] == fx[i]);
        }
        if needs_command(m, m.peers[key].surface->Some_0.ip) {
            assert(fx[mid.len() as int] == (EffectView::Run {
                args: seq!["lo0"@, "-alias"@, ip_text(m.peers[key].surface->Some_0.ip)],
            }));
        }
    }
    let r = after_project(m, key, ip, name);
    assert forall|i: int| 0 <= i < fx.len() implies match #[trigger] fx[i] {
        EffectView::Stop { .. } => true,
        EffectView::Unlisten { .. } => true,
        EffectView::Run { .. } => m.peers[key].surface is Some && needs_command(m, m.peers[key].surface->Some_0.ip),
        EffectView::SaveSurface { key: k, .. } => k == hex(key) && i == fx.len() - 1 && r.peers[key].surface is Some,
        _ => false,
    } by {
        if m.peers[key].surface is Some {
            let mid = releases_effects(m, key, bound_ports(m.peers[key]));
            if i >= mid.len() {
                let tail = fx.skip(mid.len() as int);
                assert(tail[i - mid.len()] == fx[i]);
            }
        }
    }
}

/// A surface whose command has run is up as it was asked for, and written to
/// disk; nothing else changes.
pub proof fn law_settled_surface_is_up(m: ManagerView, key: Seq<u8>, ip: IpView, name: Option<Seq<char>>)
    requires
        m.peers.contains_key(key),
    ensures
        ({
            let r = after_settle(m, key, ip, name);
            &&& r.peers[key].surface == Some(SurfaceView { ip, name })
            &&& r.peers[key].bound == m.peers[key].bound && r.peers[key].exposed == m.peers[key].exposed
            &&& r.peers[key].label == m.peers[key].label && r.peers[key].conn == m.peers[key].conn
            &&& forall|k: Seq<u8>| k != key && #[trigger] m.peers.contains_key(k) ==> r.peers.contains_key(k) && r.peers[k] == m.peers[k]
            &&& r.session == m.session && r.stack == m.stack
            &&& save_effects(key, ip, name) == seq![EffectView::SaveSurface { key: hex(key), ip, name }]
        }),
{
}

// --------------------------------------------------------------- restoring

/// Whether a surface can be put up at `ip` at once.
pub open spec fn is_at_hand(m: ManagerView, ip: IpView) -> bool {
    m.stack is Some || m.platform is Linux || ip == v4(127, 0, 0, 1)
}

/// Every persisted surface of a known peer comes up again, however many there
/// are: at its address and under its name, at once or after the command that its
/// address needs. There is one outcome for each record, in their order. Where
/// more than one record is of one key, the last one stands.
pub proof fn law_every_surface_is_restored(m: ManagerView, records: Seq<RecordView>, i: int, key: Seq<u8>)
    requires
        0 <= i < records.len(),
        key_of_text(records[i].key) == Some(key),
        m.peers.contains_key(key),
        forall|j: int| i < j < records.len() ==> key_of_text((#[trigger] records[j]).key) != Some(key),
    ensures
        ({
            let (ip, name) = (records[i].ip, records[i].name);
            let r = after_restores(m, records);
            let outcomes = restores_of(m, records);
            &&& outcomes.len() == records.len()
            &&& r.peers.contains_key(key)
            &&& is_at_hand(m, ip) ==> outcomes[i] is Done && r.peers[key].surface == Some(SurfaceView { ip, name })
            &&& !is_at_hand(m, ip) && m.platform is MacOs ==> outcomes[i] == (RestoreView::Run {
                id: key,
                ip,
                name,
                args: seq!["lo0"@, "alias"@, ip_text(ip), "up"@],
            })
            &&& !is_at_hand(m, ip) && m.platform is Other ==> outcomes[i] is Failed
        }),
    decreases records.len(),
{
    let init = records.drop_last();
    lemma_restores(m, init);
    lemma_outcomes(m, records);
    let before = after_restores(m, init);
    assert(before.peers.contains_key(key));
    assert(outcome_at(m, records, records.len() - 1));
    if i < init.len() {
        assert(init[i] == records[i]);
        assert forall|j: int| i < j < init.len() implies key_of_text((#[trigger] init[j]).key) != Some(key) by {
            assert(init[j] == records[j]);
        }
        law_every_surface_is_restored(m, init, i, key);
        assert(records[records.len() - 1] == records.last());
        assert(restores_of(m, records)[i] == restores_of(m, init)[i]);
    }
}

spec fn outcome_at(m: ManagerView, records: Seq<RecordView>, i: int) -> bool {
    restores_of(m, records)[i] == record_restore(after_restores(m, records.take(i)), records[i])
}

/// There is one outcome for each record.
proof fn lemma_outcomes(m: ManagerView, records: Seq<RecordView>)
    ensures
        restores_of(m, records).len() == records.len(),
        records.len() > 0 ==> outcome_at(m, records, records.len() - 1),
    decreases records.len(),
{
    if records.len() > 0 {
        lemma_outcomes(m, records.drop_last());
        assert(records.take(records.len() - 1) =~= records.drop_last());
    }
}

/// A record of a key that is not known, or that cannot be read, is skipped; and
/// a peer without a record is left as it was.
pub proof fn law_restoring_touches_nobody_else(m: ManagerView, records: Seq<RecordView>, key: Seq<u8>)
    requires
        forall|j: int| 0 <= j < records.len() ==> key_of_text((#[trigger] records[j]).key) != Some(key),
    ensures
        ({
            let r = after_restores(m, records);
            let outcomes = restores_of(m, records);
            &&& r.peers.contains_key(key) == m.peers.contains_key(key)
            &&& m.peers.contains_key(key) ==> r.peers[key] == m.peers[key]
            &&& r.session == m.session
            &&& outcomes.len() == records.len()
            &&& forall|i: int|
                0 <= i < records.len() && (key_of_text((#[trigger] records[i]).key) is None || !m.peers.contains_key(
                    key_of_text(records[i].key)->Some_0,
                )) ==> outcomes[i] is Skip
        }),
    decreases records.len(),
{
    lemma_outcomes(m, records);
    if records.len() > 0 {
        let init = records.drop_last();
        assert forall|j: int| 0 <= j < init.len() implies key_of_text((#[trigger] init[j]).key) != Some(key) by {
            assert(init[j] == records[j]);
        }
        law_restoring_touches_nobody_else(m, init, key);
        lemma_restores(m, init);
        assert(records[records.len() - 1] == records.last());
        let outcomes = restores_of(m, records);
        assert forall|i: int|
            0 <= i < records.len() && (key_of_text((#[trigger] records[i]).key) is None || !m.peers.contains_key(
                key_of_text(records[i].key)->Some_0,
            )) implies outcomes[i] is Skip by {
            if i < init.len() {
                assert(init[i] == records[i]);
                assert(outcomes[i] == restores_of(m, init)[i]);
            }
        }
    }
}

// ----------------------------------------------------------------- binding

/// A port that a projected peer announced and that is not bound yet gets bound
/// at the address of its surface: by the stack, which is told to listen unless
/// it does, or by a listener there. Anything else is passed over.
pub proof fn law_announced_port_gets_bound(m: ManagerView, key: Seq<u8>, port: u16, task: u64)
    ensures
        ({
            let due = m.peers.contains_key(key) && m.peers[key].surface is Some && announced_ports(m.peers[key]).contains(port)
                && !m.peers[key].bound.contains_key(port);
            let r = after_bind(m, key, port, task);
            match bind_step(m, key, port) {
                BindStepView::Skip => !due && r == m,
                BindStepView::Listening(fx) => {
                    let ip = m.peers[key].surface->Some_0.ip->V4_0;
                    &&& due && m.stack is Some && m.peers[key].surface->Some_0.ip is V4
                    &&& r.peers[key].bound.contains_key(port) && r.peers[key].bound[port] == task
                    &&& r.stack->Some_0.listeners.contains((ip, port))
                    &&& m.stack->Some_0.listeners.contains((ip, port)) ==> fx.len() == 0
                    &&& !m.stack->Some_0.listeners.contains((ip, port)) ==> fx == seq![EffectView::Listen { ip, port }]
                    &&& forall|q: u16| q != port && #[trigger] m.peers[key].bound.contains_key(q) ==> r.peers[key].bound.contains_key(q)
                        && r.peers[key].bound[q] == m.peers[key].bound[q]
                },
                BindStepView::Bind { ip, port: q } => {
                    &&& due && !(m.stack is Some && m.peers[key].surface->Some_0.ip is V4)
                    &&& ip == m.peers[key].surface->Some_0.ip && q == port
                    &&& r == m
                },
            }
        }),
{
}

/// A listener that was bound is kept with the task that serves it while the port
/// is announced and the peer projected; else that task is stopped again.
pub proof fn law_bound_listener_is_kept_or_stopped(m: ManagerView, key: Seq<u8>, port: u16, task: u64)
    ensures
        ({
            let due = m.peers.contains_key(key) && m.peers[key].surface is Some && announced_ports(m.peers[key]).contains(port);
            let r = after_bound(m, key, port, task);
            &&& due ==> r.peers[key].bound.contains_key(port) && r.peers[key].bound[port] == task && bound_effects(
                m,
                key,
                port,
                task,
            ).len() == 0
            &&& !due ==> r == m && bound_effects(m, key, port, task) == seq![EffectView::Stop { task }]
            &&& r.session == m.session && r.stack == m.stack
        }),
{
}

/// Noting what a peer announced changes what is listed of its ports, and nothing
/// else.
pub proof fn law_noting_changes_the_ports_alone(m: ManagerView, key: Seq<u8>)
    requires
        m.peers.contains_key(key),
    ensures
        ({
            let r = super::reach::after_noted(m, key);
            let (p, q) = (m.peers[key], r.peers[key]);
            &&& q.exposed == if p.incoming is Some {
                p.incoming->Some_0
            } else {
                p.exposed
            }
            &&& q.incoming is None
            &&& q.label == p.label && q.dial == p.dial && q.token == p.token && q.conn == p.conn && q.version == p.version
            &&& q.surface == p.surface && q.bound == p.bound
            &&& r.session == m.session && r.stack == m.stack && r.next_conn == m.next_conn
            &&& forall|k: Seq<u8>| k != key && #[trigger] m.peers.contains_key(k) ==> r.peers.contains_key(k) && r.peers[k] == m.peers[k]
        }),
{
}

/// An update goes on until every port was dealt with: it ends early only where
/// the ports have nowhere to be, or a step did not end as it should.
pub proof fn law_update_goes_on(m: ManagerView, u: UpdateView, task: u64)
    requires
        valid_update(u),
    ensures
        u.phase is Placing ==> {
            let t = update_turn(m, u, UpdateEvent::Performed, task);
            match place_of(m, u.key, u.ports) {
                PlaceView::Ready(fx) => t.update.phase is Ports && t.update.next == u.next && t.step == UpdateStepView::Perform(fx),
                PlaceView::Run { ip, name, args } => t.update.phase == (PhaseView::Claiming { ip, name }) && t.step == (
                UpdateStepView::Run { args }),
                PlaceView::Failed(e) => t.update.phase is Over && t.step == UpdateStepView::Failed(e),
                PlaceView::Nothing => t.update.phase is Over && t.step is Done,
            }
        },
        u.phase is Claiming && m.peers.contains_key(u.key) ==> {
            let t = update_turn(m, u, UpdateEvent::Ran, task);
            let f = update_turn(m, u, UpdateEvent::RunFailed, task);
            let up = SurfaceView { ip: u.phase->Claiming_ip, name: u.phase->Claiming_name };
            &&& t.peers.peers[u.key].surface == Some(up)
            &&& t.update.phase is Ports && t.update.next == u.next
            &&& t.step == UpdateStepView::Perform(seq![EffectView::SaveSurface { key: hex(u.key), ip: up.ip, name: up.name }])
            &&& f.update.phase is Over && f.peers.peers[u.key].surface == m.peers[u.key].surface
        },
        u.phase is Ports ==> {
            let t = update_turn(m, u, UpdateEvent::Performed, task);
            &&& t.update.phase is Over <==> u.next == u.ports.len()
            &&& u.next < u.ports.len() ==> match bind_step(m, u.key, u.ports[u.next]) {
                BindStepView::Bind { ip, port } => t.update.phase == (PhaseView::Binding { ip }) && t.update.next == u.next && t.step
                    == (UpdateStepView::Bind { ip, port }),
                BindStepView::Listening(fx) => t.update.phase is Ports && t.update.next == u.next + 1 && t.step
                    == UpdateStepView::Perform(fx) && t.peers == after_bind(m, u.key, u.ports[u.next], task),
                BindStepView::Skip => t.update.phase is Ports && t.update.next == u.next + 1 && t.peers == m,
            }
        },
        u.phase is Binding ==> {
            let t = update_turn(m, u, UpdateEvent::Bound, task);
            &&& t.update.phase is Ports && t.update.next == u.next + 1 && t.update.dark == u.dark
            &&& t.peers == after_bound(m, u.key, u.ports[u.next], task)
            &&& t.step == UpdateStepView::Perform(bound_effects(m, u.key, u.ports[u.next], task))
        },
{
}

}
