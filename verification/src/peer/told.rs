//! What the peers are told: of every message, on which connection it goes out
//! and what it holds.

use super::links::{
    admits_by, after_connection, after_control, after_dialed, after_enroll_message, control_effects, dialed_effects,
    enroll_effects, installed_effects, serving_effects, version_after, EnrollmentView,
};
use super::queries::known_keys;
use super::{
    action_effects, actions_effects, announce_effects, announces_effects, broadcast_effects, consistent, ManagerView,
    PeerManager,
};
use crate::effect::EffectView;
use crate::grants::ports_to;
use crate::order::lemma_port_listing;
use crate::protocol::{MessageView, PeerMessage, VERSION};
use crate::session::{announcement, announcements, inbound_actions, unadmitted_actions, ActionView};
use crate::text::hex;
use vstd::prelude::*;

verus! {

/// Whether `ports` are those granted to `key`, each once and in ascending order.
pub open spec fn are_granted(ports: Seq<u16>, grants: Set<(u16, Seq<u8>)>, key: Seq<u8>) -> bool {
    &&& forall|p: u16| #[trigger] ports.contains(p) <==> grants.contains((p, key))
    &&& forall|i: int, j: int| #![trigger ports[i], ports[j]] 0 <= i < j < ports.len() ==> ports[i] < ports[j]
}

/// Whether the effects send, on `conn`, the ports granted to `key`.
pub open spec fn is_told(fx: Seq<EffectView>, conn: u64, grants: Set<(u16, Seq<u8>)>, key: Seq<u8>) -> bool {
    exists|ports: Seq<u16>|
        are_granted(ports, grants, key) && #[trigger] fx.contains(
            EffectView::Send { conn, msg: MessageView::ExposedPorts(ports) },
        )
}

/// Whether whatever the effects send about ports on `conn` is what is granted to
/// `key`.
pub open spec fn is_told_nothing_else(fx: Seq<EffectView>, conn: u64, grants: Set<(u16, Seq<u8>)>, key: Seq<u8>) -> bool {
    forall|ports: Seq<u16>| #[trigger]
        fx.contains(EffectView::Send { conn, msg: MessageView::ExposedPorts(ports) }) ==> are_granted(ports, grants, key)
}

/// The ports announced to a peer are those granted to it.
pub(super) proof fn lemma_announced(m: ManagerView, key: Seq<u8>)
    ensures
        announcement(m.session, key) is Announce,
        announcement(m.session, key)->Announce_peer == key,
        are_granted(announcement(m.session, key)->Announce_ports, m.session.grants, key),
{
    lemma_port_listing(ports_to(m.session.grants, key));
    let ports = announcement(m.session, key)->Announce_ports;
    let lt = crate::order::port_order();
    assert forall|i: int, j: int| #![trigger ports[i], ports[j]] 0 <= i < j < ports.len() implies ports[i] < ports[j] by {
        assert(lt(ports[i], ports[j]));
    }
    assert forall|p: u16| #[trigger] ports.contains(p) <==> m.session.grants.contains((p, key)) by {
        assert(ports.contains(p) <==> ports_to(m.session.grants, key).contains(p));
    }
}

/// What one action calls for is among what all call for, and nothing else is.
pub(super) proof fn lemma_actions(m: ManagerView, key: Seq<u8>, actions: Seq<ActionView>, fx: EffectView)
    ensures
        actions_effects(m, key, actions).contains(fx) <==> exists|i: int|
            0 <= i < actions.len() && action_effects(m, key, #[trigger] actions[i]).contains(fx),
    decreases actions.len(),
{
    if actions.len() > 0 {
        let init = actions.drop_last();
        let (a, b) = (actions_effects(m, key, init), action_effects(m, key, actions.last()));
        lemma_actions(m, key, init, fx);
        lemma_concat_contains(a, b, fx);
        if a.contains(fx) {
            let i = choose|i: int| 0 <= i < init.len() && action_effects(m, key, #[trigger] init[i]).contains(fx);
            assert(actions[i] == init[i]);
        }
        if b.contains(fx) {
            assert(actions[actions.len() - 1] == actions.last());
        }
        if exists|i: int| 0 <= i < actions.len() && action_effects(m, key, #[trigger] actions[i]).contains(fx) {
            let i = choose|i: int| 0 <= i < actions.len() && action_effects(m, key, #[trigger] actions[i]).contains(fx);
            if i < init.len() {
                assert(init[i] == actions[i]);
            }
        }
    }
}

/// What two sequences hold together is what either holds.
pub proof fn lemma_concat_contains<T>(a: Seq<T>, b: Seq<T>, x: T)
    ensures
        (a + b).contains(x) <==> a.contains(x) || b.contains(x),
{
    if a.contains(x) {
        let i = choose|i: int| 0 <= i < a.len() && a[i] == x;
        assert((a + b)[i] == x);
    }
    if b.contains(x) {
        let i = choose|i: int| 0 <= i < b.len() && b[i] == x;
        assert((a + b)[a.len() + i] == x);
    }
    if (a + b).contains(x) {
        let i = choose|i: int| 0 <= i < (a + b).len() && (a + b)[i] == x;
        if i < a.len() {
            assert(a[i] == x);
        } else {
            assert(b[i - a.len()] == x);
        }
    }
}

/// What one announcement calls for is among what all call for, and nothing else
/// is.
proof fn lemma_announces(m: ManagerView, actions: Seq<ActionView>, fx: EffectView)
    ensures
        announces_effects(m, actions).contains(fx) <==> exists|i: int|
            0 <= i < actions.len() && announce_effects(m, #[trigger] actions[i]).contains(fx),
    decreases actions.len(),
{
    if actions.len() > 0 {
        let init = actions.drop_last();
        let (a, b) = (announces_effects(m, init), announce_effects(m, actions.last()));
        lemma_announces(m, init, fx);
        lemma_concat_contains(a, b, fx);
        if a.contains(fx) {
            let i = choose|i: int| 0 <= i < init.len() && announce_effects(m, #[trigger] init[i]).contains(fx);
            assert(actions[i] == init[i]);
        }
        if b.contains(fx) {
            assert(actions[actions.len() - 1] == actions.last());
        }
        if exists|i: int| 0 <= i < actions.len() && announce_effects(m, #[trigger] actions[i]).contains(fx) {
            let i = choose|i: int| 0 <= i < actions.len() && announce_effects(m, #[trigger] actions[i]).contains(fx);
            if i < init.len() {
                assert(init[i] == actions[i]);
            }
        }
    }
}

proof fn lemma_announces_len(m: ManagerView, actions: Seq<ActionView>)
    ensures
        announces_effects(m, actions).len() <= actions.len(),
    decreases actions.len(),
{
    if actions.len() > 0 {
        lemma_announces_len(m, actions.drop_last());
    }
}

// ---------------------------------------------------------------- everyone

/// Whether an effect tells a known peer, on its connection, what is granted to
/// it.
pub open spec fn tells_a_peer(m: ManagerView, fx: EffectView) -> bool {
    exists|key: Seq<u8>| #[trigger]
        m.peers.contains_key(key) && m.peers[key].conn is Some && fx is Send && fx->Send_conn == m.peers[key].conn->Some_0
            && fx->Send_msg is ExposedPorts && are_granted(fx->Send_msg->ExposedPorts_0, m.session.grants, key)
}

/// When grants are told again, every known peer that has a connection is told
/// there exactly what is granted to it, however many there are; nothing else is
/// sent to anyone, and nothing more than once for each.
pub proof fn law_every_connected_peer_is_told(manager: PeerManager, key: Seq<u8>)
    requires
        manager.wf(),
    ensures
        ({
            let m = manager@;
            let fx = broadcast_effects(m);
            &&& m.peers.contains_key(key) && m.peers[key].conn is Some ==> is_told(
                fx,
                m.peers[key].conn->Some_0,
                m.session.grants,
                key,
            )
            &&& forall|i: int| 0 <= i < fx.len() ==> tells_a_peer(m, #[trigger] fx[i])
            &&& fx.len() <= known_keys(m).len()
        }),
{
    let m = manager@;
    let fx = broadcast_effects(m);
    lemma_announces_len(m, announcements(m.session));
    let all = announcements(m.session);
    let keys = known_keys(m);
    manager.lemma_consistent();
    assert(all.len() == keys.len());
    assert forall|i: int| 0 <= i < all.len() implies #[trigger] all[i] == announcement(m.session, keys[i]) by {}
    if m.peers.contains_key(key) && m.peers[key].conn is Some {
        let conn = m.peers[key].conn->Some_0;
        assert(m.peers.dom().contains(key));
        assert(keys.contains(key));
        let i = choose|i: int| 0 <= i < keys.len() && keys[i] == key;
        lemma_announced(m, key);
        let ports = announcement(m.session, key)->Announce_ports;
        let sent = EffectView::Send { conn, msg: MessageView::ExposedPorts(ports) };
        assert(announce_effects(m, all[i])[0] == sent);
        lemma_announces(m, all, sent);
        assert(fx.contains(sent));
    }
    assert forall|i: int| 0 <= i < fx.len() implies tells_a_peer(m, #[trigger] fx[i]) by {
        lemma_announces(m, all, fx[i]);
        assert(fx.contains(fx[i]));
        let j = choose|j: int| 0 <= j < all.len() && announce_effects(m, #[trigger] all[j]).contains(fx[i]);
        lemma_announced(m, keys[j]);
        assert(all[j] == announcement(m.session, keys[j]));
        assert(m.peers.contains_key(keys[j]));
    }
}

// -------------------------------------------------------------- connections

/// A known peer whose connection comes back is told there exactly what is
/// granted to it, so that its ports rebind; the connection becomes its live one,
/// the one before is closed, and its loop wakes. Nothing else is called for.
pub proof fn law_reconnecting_peer_is_told(m: ManagerView, remote: Seq<u8>)
    requires
        consistent(m),
        m.peers.contains_key(remote),
    ensures
        ({
            let fx = installed_effects(m, remote);
            let r = after_connection(m, remote);
            &&& is_told(fx, m.next_conn, m.session.grants, remote)
            &&& is_told_nothing_else(fx, m.next_conn, m.session.grants, remote)
            &&& fx.contains(EffectView::Wake { peer: remote })
            &&& m.peers[remote].conn is Some ==> fx.contains(
                EffectView::Close { conn: m.peers[remote].conn->Some_0, reason: "replaced"@ },
            )
            &&& forall|i: int|
                0 <= i < fx.len() ==> match #[trigger] fx[i] {
                    EffectView::Send { conn, msg } => conn == m.next_conn && msg is ExposedPorts,
                    EffectView::Wake { peer } => peer == remote,
                    EffectView::Close { conn, .. } => m.peers[remote].conn == Some(conn),
                    _ => false,
                }
            &&& r.peers[remote].conn == Some(m.next_conn)
            &&& r.session == m.session
        }),
{
    let fx = installed_effects(m, remote);
    let r = after_connection(m, remote);
    let acts = inbound_actions(m.session, m.next_conn, remote);
    let head = super::links::close_effects(m.peers[remote], "replaced"@).push(EffectView::Wake { peer: remote });
    let tail = actions_effects(r, remote, acts);
    assert(m.session.peers.dom().contains(remote));
    lemma_announced(m, remote);
    let ports = announcement(m.session, remote)->Announce_ports;
    let sent = EffectView::Send { conn: m.next_conn, msg: MessageView::ExposedPorts(ports) };
    assert(acts[1] == announcement(m.session, remote));
    assert(action_effects(r, remote, acts[1]) == seq![sent]);
    assert(action_effects(r, remote, acts[1])[0] == sent);
    lemma_actions(r, remote, acts, sent);
    lemma_concat_contains(head, tail, sent);
    assert(fx.contains(sent));
    assert(head[head.len() - 1] == (EffectView::Wake { peer: remote }));
    lemma_concat_contains(head, tail, EffectView::Wake { peer: remote });
    if m.peers[remote].conn is Some {
        let close = EffectView::Close { conn: m.peers[remote].conn->Some_0, reason: "replaced"@ };
        assert(head[0] == close);
        lemma_concat_contains(head, tail, close);
    }
    assert forall|x: EffectView| #[trigger] fx.contains(x) implies head.contains(x) || x == sent by {
        lemma_concat_contains(head, tail, x);
        lemma_actions(r, remote, acts, x);
        if tail.contains(x) {
            let i = choose|i: int| 0 <= i < acts.len() && action_effects(r, remote, #[trigger] acts[i]).contains(x);
            assert(i == 0 || i == 1);
        }
    }
    assert forall|i: int| 0 <= i < fx.len() implies match #[trigger] fx[i] {
        EffectView::Send { conn, msg } => conn == m.next_conn && msg is ExposedPorts,
        EffectView::Wake { peer } => peer == remote,
        EffectView::Close { conn, .. } => m.peers[remote].conn == Some(conn),
        _ => false,
    } by {
        assert(fx.contains(fx[i]));
    }
    assert forall|p: Seq<u16>| #[trigger]
        fx.contains(EffectView::Send { conn: m.next_conn, msg: MessageView::ExposedPorts(p) }) implies are_granted(
        p,
        m.session.grants,
        remote,
    ) by {}
}

/// A peer that we reached by dialing is told, on that connection, exactly what
/// is granted to it, every time; before that it is shown the code we have for
/// it, and our version, or no code where we have none. Nothing else is called
/// for, and the connection becomes its live one.
pub proof fn law_dialed_peer_is_told(m: ManagerView, key: Seq<u8>)
    requires
        m.peers.contains_key(key),
    ensures
        ({
            let fx = dialed_effects(m, key);
            let r = after_dialed(m, key);
            &&& is_told(fx, m.next_conn, m.session.grants, key)
            &&& is_told_nothing_else(fx, m.next_conn, m.session.grants, key)
            &&& m.peers[key].token is Some ==> fx[0] == (EffectView::Send {
                conn: m.next_conn,
                msg: MessageView::Enroll { token: m.peers[key].token->Some_0, version: Some(VERSION@) },
            })
            &&& fx.len() == if m.peers[key].token is Some {
                2int
            } else {
                1
            }
            &&& forall|i: int| 0 <= i < fx.len() ==> #[trigger] fx[i] is Send && fx[i]->Send_conn == m.next_conn
            &&& r.peers[key].conn == Some(m.next_conn)
            &&& r.session == m.session
        }),
{
    let fx = dialed_effects(m, key);
    lemma_announced(m, key);
    let ports = announcement(m.session, key)->Announce_ports;
    let sent = EffectView::Send { conn: m.next_conn, msg: MessageView::ExposedPorts(ports) };
    assert(fx[fx.len() - 1] == sent);
    assert(fx.contains(sent));
    assert forall|p: Seq<u16>| #[trigger]
        fx.contains(EffectView::Send { conn: m.next_conn, msg: MessageView::ExposedPorts(p) }) implies are_granted(
        p,
        m.session.grants,
        key,
    ) by {
        let i = choose|i: int|
            0 <= i < fx.len() && fx[i] == (EffectView::Send { conn: m.next_conn, msg: MessageView::ExposedPorts(p) });
        assert(i == fx.len() - 1);
    }
}

/// When a connection starts to be served, our version goes out on it with an
/// empty code, unless a code was presented on it.
pub proof fn law_version_is_told(m: ManagerView, key: Seq<u8>)
    requires
        m.peers.contains_key(key),
    ensures
        m.peers[key].token is None && m.peers[key].conn is Some ==> serving_effects(m, key) == seq![
            EffectView::Send {
                conn: m.peers[key].conn->Some_0,
                msg: MessageView::Enroll { token: ""@, version: Some(VERSION@) },
            },
        ],
        m.peers[key].token is Some || m.peers[key].conn is None ==> serving_effects(m, key).len() == 0,
{
}

// --------------------------------------------------------------- enrollment

/// A peer that a code admits is served from then on: its loop starts, its pin is
/// written, it is told on its connection exactly what is granted to it by now,
/// and the ports it announced before the code are applied. Its connection is not
/// closed.
pub proof fn law_enrolled_peer_is_told(m: ManagerView, e: EnrollmentView, now: u64, msg: PeerMessage)
    requires
        admits_by(m, now, msg),
    ensures
        ({
            let fx = enroll_effects(m, e, now, msg)->Some_0;
            let r = after_enroll_message(m, e, now, msg);
            let code = m.session.codes[msg->Enroll_token@];
            &&& enroll_effects(m, e, now, msg) is Some
            &&& is_told(fx, e.conn, r.session.grants, e.remote)
            &&& is_told_nothing_else(fx, e.conn, r.session.grants, e.remote)
            &&& fx.contains(EffectView::Spawn { peer: e.remote })
            &&& fx.contains(EffectView::SavePin { key: hex(e.remote), label: code.name, by_code: true })
            &&& forall|ports: Seq<u16>| #[trigger]
                fx.contains(EffectView::UpdatePorts { peer: e.remote, ports }) <==> m.session.pending.contains_key(e.conn)
                    && m.session.pending[e.conn] == Some(ports) && ports.len() > 0
            &&& forall|i: int| 0 <= i < fx.len() ==> !(#[trigger] fx[i] is Close)
            &&& forall|p: u16|
                r.session.grants.contains((p, e.remote)) <==> #[trigger] m.session.grants.contains((p, e.remote))
                    || code.ports.contains(p)
        }),
{
    let r = after_enroll_message(m, e, now, msg);
    let fx = enroll_effects(m, e, now, msg)->Some_0;
    let acts = unadmitted_actions(m.session, now, e.conn, e.remote, msg);
    let head = seq![EffectView::Spawn { peer: e.remote }];
    let tail = actions_effects(r, e.remote, acts);
    let n = acts.len() - 1;
    lemma_announced(r, e.remote);
    let ports = announcement(r.session, e.remote)->Announce_ports;
    let sent = EffectView::Send { conn: e.conn, msg: MessageView::ExposedPorts(ports) };
    let pin = EffectView::SavePin {
        key: hex(e.remote),
        label: m.session.codes[msg->Enroll_token@].name,
        by_code: true,
    };
    assert(acts[n] == announcement(r.session, e.remote));
    assert(action_effects(r, e.remote, acts[n]) == seq![sent]);
    assert(action_effects(r, e.remote, acts[n])[0] == sent);
    lemma_actions(r, e.remote, acts, sent);
    lemma_concat_contains(head, tail, sent);
    assert(action_effects(r, e.remote, acts[1]) == seq![pin]);
    assert(action_effects(r, e.remote, acts[1])[0] == pin);
    lemma_actions(r, e.remote, acts, pin);
    lemma_concat_contains(head, tail, pin);
    assert(head[0] == (EffectView::Spawn { peer: e.remote }));
    lemma_concat_contains(head, tail, EffectView::Spawn { peer: e.remote });
    let early = crate::session::early_ports(m.session, e.conn);
    let applied = EffectView::UpdatePorts { peer: e.remote, ports: early };
    if early.len() > 0 {
        assert(action_effects(r, e.remote, acts[2]) == seq![applied]);
        assert(action_effects(r, e.remote, acts[2])[0] == applied);
        lemma_actions(r, e.remote, acts, applied);
        lemma_concat_contains(head, tail, applied);
    }
    assert forall|x: EffectView| #[trigger] fx.contains(x) implies head.contains(x) || x == sent || x == pin || (x == applied
        && early.len() > 0) by {
        lemma_concat_contains(head, tail, x);
        lemma_actions(r, e.remote, acts, x);
        if tail.contains(x) {
            let i = choose|i: int| 0 <= i < acts.len() && action_effects(r, e.remote, #[trigger] acts[i]).contains(x);
            assert(i == 0 || i == 1 || i == n || (i == 2 && early.len() > 0));
        }
    }
    assert forall|i: int| 0 <= i < fx.len() implies !(#[trigger] fx[i] is Close) by {
        assert(fx.contains(fx[i]));
    }
    assert forall|p: Seq<u16>| #[trigger]
        fx.contains(EffectView::Send { conn: e.conn, msg: MessageView::ExposedPorts(p) }) implies are_granted(
        p,
        r.session.grants,
        e.remote,
    ) by {}
}

/// The version that a peer gave along the way is kept when a code admits it: the
/// last one it gave, or none.
pub proof fn law_version_is_kept(m: ManagerView, e: EnrollmentView, now: u64, msg: PeerMessage)
    ensures
        admits_by(m, now, msg) ==> after_enroll_message(m, e, now, msg).peers[e.remote].version == version_after(
            e.version,
            msg@,
        ),
        version_after(e.version, msg@) == if msg@ is Enroll && msg@->Enroll_version is Some {
            msg@->Enroll_version
        } else {
            e.version
        },
{
}

/// What a known peer says: the ports it announces, and those alone, start an
/// update of that very peer; a version is noted; nothing else has any effect.
pub proof fn law_known_peer_is_heard(m: ManagerView, key: Seq<u8>, msg: MessageView, other: Seq<u8>)
    requires
        m.peers.contains_key(key),
    ensures
        ({
            let r = after_control(m, key, msg);
            &&& msg is ExposedPorts ==> control_effects(m, key, msg) == seq![
                EffectView::UpdatePorts { peer: key, ports: msg->ExposedPorts_0 },
            ]
            &&& !(msg is ExposedPorts) ==> control_effects(m, key, msg).len() == 0
            &&& msg is Enroll && msg->Enroll_version is Some ==> r.peers[key].version == msg->Enroll_version
            &&& !(msg is Enroll && msg->Enroll_version is Some) ==> r == m
            &&& r.session == m.session
            &&& r.stack == m.stack
            &&& other != key ==> r.peers.contains_key(other) == m.peers.contains_key(other)
            &&& other != key && m.peers.contains_key(other) ==> r.peers[other] == m.peers[other]
            &&& r.peers[key].bound == m.peers[key].bound && r.peers[key].surface == m.peers[key].surface
            &&& r.peers[key].exposed == m.peers[key].exposed && r.peers[key].conn == m.peers[key].conn
        }),
{
}

}
