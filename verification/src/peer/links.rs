//! Connections: who is let in, and what is said on them.

use super::{
    action_effects, actions_effects, announce_effects, announces_effects, broadcast_effects,
    send_to, ManagerView, PeerManager,
};
use crate::addr::{IpAddr, IpView};
use crate::effect::{effect_views, group_effects, Effect, EffectView};
use crate::key::EndpointId;
use crate::protocol::{enroll_message, MessageView, PeerMessage};
use crate::session::{
    action_views, after_inbound, after_timeout, after_unadmitted, announcement, claimable,
    inbound_actions, tunnel_verdict, unadmitted_actions, Action, ActionView, ConnId, Refusal,
};
use crate::table::{changed, new_peer, Peer, PeerView};
use crate::text::{copy_opt, opt_text};
use crate::tunnel::{port_in, requested_port};
use vstd::prelude::*;

verus! {

/// What becomes of an incoming connection.
#[derive(Debug, PartialEq, Eq)]
pub enum Inbound {
    /// The key is unknown: the connection waits for a code
    Pending(ConnId),
    /// The key is known: the connection is the peer's live one
    Installed { conn: ConnId, effects: Vec<Effect> },
}

/// An unknown peer that has yet to present a code.
#[derive(Debug)]
pub struct Enrollment {
    conn: ConnId,
    remote: EndpointId,
    /// The version it announced along the way
    version: Option<String>,
}

/// An enrollment as plain values.
pub struct EnrollmentView {
    pub conn: u64,
    pub remote: Seq<u8>,
    pub version: Option<Seq<char>>,
}

impl View for Enrollment {
    type V = EnrollmentView;

    closed spec fn view(&self) -> EnrollmentView {
        EnrollmentView { conn: self.conn.0, remote: self.remote@, version: opt_text(self.version) }
    }
}

impl Enrollment {
    /// An unknown peer that has said nothing yet.
    pub fn new(conn: ConnId, remote: EndpointId) -> (r: Enrollment)
        ensures
            r@ == (EnrollmentView { conn: conn.0, remote: remote@, version: None }),
    {
        Enrollment { conn, remote, version: None }
    }
}

/// What to do about a tunnel request.
#[derive(Copy, Clone, Debug, PartialEq, Eq)]
pub enum TunnelStep {
    /// Forward it to a local service
    Serve { host: IpAddr, port: u16 },
    /// Turn it away
    Refuse { port: u16, reason: Refusal },
}

/// A step as plain values.
pub enum TunnelStepView {
    Serve { host: IpView, port: u16 },
    Refuse { port: u16, reason: Refusal },
}

impl View for TunnelStep {
    type V = TunnelStepView;

    open spec fn view(&self) -> TunnelStepView {
        match *self {
            TunnelStep::Serve { host, port } => TunnelStepView::Serve { host: host@, port },
            TunnelStep::Refuse { port, reason } => TunnelStepView::Refuse { port, reason },
        }
    }
}

// ------------------------------------------------------------------- inbound

/// The number after `n`; the last one is followed by the first.
pub open spec fn next_number(n: u64) -> u64 {
    if n == u64::MAX {
        0
    } else {
        (n + 1) as u64
    }
}

/// The manager after a connection from `remote` arrived: it becomes the live
/// one of a known peer.
pub open spec fn after_connection(m: ManagerView, remote: Seq<u8>) -> ManagerView {
    ManagerView {
        peers: changed(m.peers, remote, |p: PeerView| PeerView { conn: Some(m.next_conn), ..p }),
        session: after_inbound(m.session, m.next_conn, remote),
        next_conn: next_number(m.next_conn),
        ..m
    }
}

/// Closing the connection of a peer, if it has one.
pub open spec fn close_effects(p: PeerView, reason: Seq<char>) -> Seq<EffectView> {
    match p.conn {
        Some(conn) => seq![EffectView::Close { conn, reason }],
        None => seq![],
    }
}

/// What a connection from a known peer calls for: the old one is closed, the
/// peer's loop wakes, and the peer is told what it may reach.
pub open spec fn installed_effects(m: ManagerView, remote: Seq<u8>) -> Seq<EffectView> {
    close_effects(m.peers[remote], "replaced"@).push(EffectView::Wake { peer: remote }) + actions_effects(
        after_connection(m, remote),
        remote,
        inbound_actions(m.session, m.next_conn, remote),
    )
}

// ---------------------------------------------------------------- enrollment

/// The version known after `msg`: the one it carries, or the one before.
pub open spec fn version_after(version: Option<Seq<char>>, msg: MessageView) -> Option<Seq<char>> {
    match msg {
        MessageView::Enroll { version: Some(v), .. } => Some(v),
        _ => version,
    }
}

/// Whether `msg` presents a code that is claimable.
pub open spec fn admits_by(m: ManagerView, now: u64, msg: PeerMessage) -> bool {
    match msg {
        PeerMessage::Enroll { token, .. } => claimable(m.session, token@, now),
        _ => false,
    }
}

/// The manager after an unknown peer said `msg`: a claimable code admits and
/// records it, under the name that came with the code.
pub open spec fn after_enroll_message(m: ManagerView, e: EnrollmentView, now: u64, msg: PeerMessage) -> ManagerView {
    let session = after_unadmitted(m.session, now, e.conn, e.remote, msg);
    if admits_by(m, now, msg) {
        let peer = PeerView {
            version: version_after(e.version, msg@),
            ..new_peer(session.peers[e.remote].label, false, None, Some(e.conn))
        };
        ManagerView { peers: m.peers.insert(e.remote, peer), session, ..m }
    } else {
        ManagerView { session, ..m }
    }
}

/// What the message calls for: None while the peer may still present a code.
pub open spec fn enroll_effects(m: ManagerView, e: EnrollmentView, now: u64, msg: PeerMessage) -> Option<Seq<EffectView>> {
    if admits_by(m, now, msg) {
        Some(
            seq![EffectView::Spawn { peer: e.remote }] + actions_effects(
                after_enroll_message(m, e, now, msg),
                e.remote,
                unadmitted_actions(m.session, now, e.conn, e.remote, msg),
            ),
        )
    } else if msg is Enroll {
        Some(seq![EffectView::Close { conn: e.conn, reason: "not authorized"@ }])
    } else {
        None
    }
}

/// The effects that were decided on, if any were.
pub open spec fn opt_effects(o: Option<Vec<Effect>>) -> Option<Seq<EffectView>> {
    match o {
        Some(fx) => Some(effect_views(fx@)),
        None => None,
    }
}

// ------------------------------------------------------------------ control

/// The manager after a known peer said `msg`.
pub open spec fn after_control(m: ManagerView, key: Seq<u8>, msg: MessageView) -> ManagerView {
    match msg {
        MessageView::Enroll { version: Some(v), .. } => ManagerView {
            peers: changed(m.peers, key, |p: PeerView| PeerView { version: Some(v), ..p }),
            ..m
        },
        _ => m,
    }
}

/// What the message of a known peer calls for.
pub open spec fn control_effects(m: ManagerView, key: Seq<u8>, msg: MessageView) -> Seq<EffectView> {
    match msg {
        MessageView::ExposedPorts(ports) => if m.peers.contains_key(key) {
            seq![EffectView::UpdatePorts { peer: key, ports }]
        } else {
            seq![]
        },
        _ => seq![],
    }
}

/// The verdict on a tunnel request, with where to forward it.
pub open spec fn tunnel_step(m: ManagerView, key: Seq<u8>, port: u16) -> TunnelStepView {
    match tunnel_verdict(m.session, key, port) {
        ActionView::ServeTunnel { port } => TunnelStepView::Serve { host: m.host, port },
        _ => TunnelStepView::Refuse { port, reason: Refusal::NotGranted },
    }
}

/// The manager after we dialed a peer: the new connection is its live one.
pub open spec fn after_dialed(m: ManagerView, key: Seq<u8>) -> ManagerView {
    ManagerView {
        peers: changed(m.peers, key, |p: PeerView| PeerView { conn: Some(m.next_conn), ..p }),
        next_conn: next_number(m.next_conn),
        ..m
    }
}

/// What we say first on a connection we dialed: the code, if there is one, and
/// what the peer may reach.
pub open spec fn dialed_effects(m: ManagerView, key: Seq<u8>) -> Seq<EffectView> {
    if m.peers.contains_key(key) {
        let told = announce_effects(after_dialed(m, key), announcement(m.session, key));
        match m.peers[key].token {
            Some(t) => seq![EffectView::Send { conn: m.next_conn, msg: enroll_message(t) }] + told,
            None => told,
        }
    } else {
        seq![]
    }
}

/// What we say when a connection starts to be served. A dialer already
/// announced its version with its code; another message with an empty code
/// would race that claim on the other side.
pub open spec fn serving_effects(m: ManagerView, key: Seq<u8>) -> Seq<EffectView> {
    if m.peers.contains_key(key) && m.peers[key].token is None {
        send_to(m.peers[key], enroll_message(""@))
    } else {
        seq![]
    }
}

impl PeerManager {
    /// The number of the next connection.
    fn take_conn(&mut self) -> (c: ConnId)
        requires
            old(self).wf(),
        ensures
            final(self).wf(),
            final(self).clock() == old(self).clock(),
            c.0 == old(self)@.next_conn,
            final(self)@ == (ManagerView { next_conn: next_number(old(self)@.next_conn), ..old(self)@ }),
    {
        let n: u64 = self.next_conn;
        if n == u64::MAX {
            self.next_conn = 0;
        } else {
            self.next_conn = n + 1;
        }
        ConnId(n)
    }

    /// Sending `msg` to the peer with `id`, if it has a connection.
    pub(super) fn send(&self, id: &EndpointId, msg: PeerMessage) -> (fx: Vec<Effect>)
        requires
            self.wf(),
        ensures
            effect_views(fx@) == if self@.peers.contains_key(id@) {
                send_to(self@.peers[id@], msg@)
            } else {
                seq![]
            },
    {
        broadcast use group_effects;

        let mut fx: Vec<Effect> = Vec::new();
        if let Some(p) = self.peers.get(id) {
            if let Some(conn) = p.conn() {
                fx.push(Effect::Send { conn, msg });
                assert(effect_views(fx@) =~= send_to(self@.peers[id@], msg@));
            }
        }
        fx
    }

    /// The effects of the core's actions for a peer.
    fn apply(&self, id: &EndpointId, actions: Vec<Action>) -> (fx: Vec<Effect>)
        requires
            self.wf(),
            self@.peers.contains_key(id@),
        ensures
            effect_views(fx@) == actions_effects(self@, id@, action_views(actions@)),
    {
        broadcast use group_effects;

        let ghost all = action_views(actions@);
        let mut fx: Vec<Effect> = Vec::new();
        assert(actions_effects(self@, id@, all.take(0)) =~= Seq::<EffectView>::empty());
        for a in it: actions
            invariant
                self.wf(),
                self@.peers.contains_key(id@),
                it.seq() == actions@,
                all == action_views(actions@),
                effect_views(fx@) == actions_effects(self@, id@, all.take(it.index())),
        {
            let ghost n = it.index();
            let ghost before = effect_views(fx@);
            proof {
                assert(all.take(n + 1).drop_last() =~= all.take(n));
                assert(all.take(n + 1).last() == a@);
            }
            match a {
                Action::Announce { peer: _, ports } => {
                    let mut more = self.send(id, PeerMessage::ExposedPorts(ports));
                    fx.append(&mut more);
                },
                Action::ApplyPorts { peer: _, ports } => {
                    fx.push(Effect::UpdatePorts { peer: *id, ports });
                },
                Action::PersistPin { key, label } => {
                    let by_code = self.is_known_by_code(&key);
                    fx.push(Effect::SavePin { key: key.to_string(), label, by_code });
                },
                Action::DropPin { key } => {
                    fx.push(Effect::DropPin { key: key.to_string() });
                },
                _ => {},
            }
            assert(effect_views(fx@) =~= before + action_effects(self@, id@, all[n]));
        }
        assert(all.take(actions@.len() as int) =~= all);
        fx
    }

    /// Handle an incoming connection. Known peers are reconnected; unknown
    /// peers must enroll with a valid code or are refused.
    pub fn handle_connection(&mut self, remote: EndpointId) -> (r: Inbound)
        requires
            old(self).wf(),
        ensures
            final(self).wf(),
            final(self).clock() == old(self).clock(),
            final(self)@ == after_connection(old(self)@, remote@),
            match r {
                Inbound::Pending(conn) => conn.0 == old(self)@.next_conn && !old(self)@.peers.contains_key(remote@),
                Inbound::Installed { conn, effects } => {
                    &&& conn.0 == old(self)@.next_conn
                    &&& old(self)@.peers.contains_key(remote@)
                    &&& effect_views(effects@) == installed_effects(old(self)@, remote@)
                },
            },
    {
        broadcast use group_effects;

        let conn = self.take_conn();
        let actions = self.session.on_inbound(conn, remote);
        let ghost m = old(self)@;
        let held = match self.peers.get(&remote) {
            Some(p) => p.conn(),
            None => {
                assert(self@ =~= after_connection(m, remote@));
                return Inbound::Pending(conn);
            },
        };
        let mut fx: Vec<Effect> = Vec::new();
        if let Some(old_conn) = held {
            fx.push(Effect::Close { conn: old_conn, reason: "replaced".to_owned() });
        }
        assert(effect_views(fx@) =~= close_effects(m.peers[remote@], "replaced"@));
        self.peers.set_conn(&remote, Some(conn));
        proof {
            assert(self@ =~= after_connection(m, remote@));
            assert(self@.peers.dom() =~= m.peers.dom());
        }
        fx.push(Effect::Wake { peer: remote });
        let mut more = self.apply(&remote, actions);
        fx.append(&mut more);
        Inbound::Installed { conn, effects: fx }
    }

    /// A control message on a connection that waits for a code. None means it
    /// goes on waiting.
    pub fn on_enroll_message(&mut self, e: &mut Enrollment, msg: PeerMessage) -> (r: Option<Vec<Effect>>)
        requires
            old(self).wf(),
        ensures
            final(self).wf(),
            final(self).clock() == old(self).clock(),
            final(e)@ == (EnrollmentView { version: version_after(old(e)@.version, msg@), ..old(e)@ }),
            exists|now: u64|
                final(self)@ == #[trigger] after_enroll_message(old(self)@, old(e)@, now, msg) && opt_effects(r)
                    == enroll_effects(old(self)@, old(e)@, now, msg),
    {
        let now = self.session.now();
        self.on_enroll_message_at(e, now, msg)
    }

    /// `on_enroll_message`, with the time of arrival given.
    pub fn on_enroll_message_at(&mut self, e: &mut Enrollment, now: u64, msg: PeerMessage) -> (r: Option<Vec<Effect>>)
        requires
            old(self).wf(),
        ensures
            final(self).wf(),
            final(self).clock() == old(self).clock(),
            final(e)@ == (EnrollmentView { version: version_after(old(e)@.version, msg@), ..old(e)@ }),
            final(self)@ == after_enroll_message(old(self)@, old(e)@, now, msg),
            opt_effects(r) == enroll_effects(old(self)@, old(e)@, now, msg),
    {
        broadcast use group_effects;

        let ghost m = old(self)@;
        let ghost ev = old(e)@;
        if let PeerMessage::Enroll { token: _, version } = &msg {
            if version.is_some() {
                e.version = copy_opt(version);
            }
        }
        let (conn, remote) = (e.conn, e.remote);
        let ghost s2 = after_unadmitted(m.session, now, ev.conn, ev.remote, msg);
        let ghost acts = unadmitted_actions(m.session, now, ev.conn, ev.remote, msg);
        let actions = self.session.on_unadmitted_at(now, conn, remote, msg);
        assert(action_views(actions@) == acts);
        if actions.len() == 0 {
            assert(acts.len() == 0);
            proof {
                if msg is Enroll {
                    assert(acts.len() > 0);
                }
            }
            assert(self@ =~= after_enroll_message(m, ev, now, msg));
            return None;
        }
        assert(acts.len() > 0);
        let refused = match &actions[0] {
            Action::Refuse { conn: _, reason: _ } => true,
            _ => false,
        };
        assert(acts[0] == actions@[0]@);
        let mut fx: Vec<Effect> = Vec::new();
        if refused {
            assert(self@ =~= after_enroll_message(m, ev, now, msg));
            fx.push(Effect::Close { conn, reason: Refusal::NotAuthorized.as_str().to_owned() });
            assert(effect_views(fx@) =~= seq![EffectView::Close { conn: ev.conn, reason: "not authorized"@ }]);
            return Some(fx);
        }
        let label = self.session.label_of(&remote);
        self.peers.insert(Peer::new(remote, label, false, None, Some(conn)));
        self.peers.set_version(&remote, copy_opt(&e.version));
        proof {
            let want = after_enroll_message(m, ev, now, msg);
            assert(self@.peers =~= want.peers);
            assert(self@ =~= want);
            assert(self@.peers.dom() =~= self@.session.peers.dom());
        }
        fx.push(Effect::Spawn { peer: remote });
        assert(effect_views(fx@) =~= seq![EffectView::Spawn { peer: ev.remote }]);
        let mut more = self.apply(&remote, actions);
        fx.append(&mut more);
        Some(fx)
    }

    /// The enrollment window elapsed, or the connection failed before a code
    /// came: it is closed without pinning or announcing anything.
    pub fn on_enroll_timeout(&mut self, e: Enrollment) -> (fx: Vec<Effect>)
        requires
            old(self).wf(),
        ensures
            final(self).wf(),
            final(self).clock() == old(self).clock(),
            final(self)@ == (ManagerView { session: after_timeout(old(self)@.session, e@.conn), ..old(self)@ }),
            effect_views(fx@) == seq![
                EffectView::Close {
                    conn: e@.conn,
                    reason: if old(self)@.session.pending.contains_key(e@.conn) {
                        "enroll timeout"@
                    } else {
                        "not authorized"@
                    },
                },
            ],
    {
        broadcast use group_effects;

        let actions = self.session.on_enroll_timeout(e.conn);
        let reason = if actions.len() > 0 {
            Refusal::EnrollTimeout
        } else {
            Refusal::NotAuthorized
        };
        proof {
            assert(action_views(actions@).len() == actions@.len());
            assert(self@ =~= (ManagerView { session: after_timeout(old(self)@.session, e@.conn), ..old(self)@ }));
        }
        let mut fx: Vec<Effect> = Vec::new();
        fx.push(Effect::Close { conn: e.conn, reason: reason.as_str().to_owned() });
        assert(effect_views(fx@) =~= seq![effect_views(fx@)[0]]);
        fx
    }

    /// A control message from a known peer.
    pub fn on_control(&mut self, id: &EndpointId, msg: PeerMessage) -> (fx: Vec<Effect>)
        requires
            old(self).wf(),
        ensures
            final(self).wf(),
            final(self).clock() == old(self).clock(),
            final(self)@ == after_control(old(self)@, id@, msg@),
            effect_views(fx@) == control_effects(old(self)@, id@, msg@),
    {
        broadcast use group_effects;

        let mut fx: Vec<Effect> = Vec::new();
        match msg {
            PeerMessage::ExposedPorts(ports) => {
                if self.peers.contains(id) {
                    fx.push(Effect::UpdatePorts { peer: *id, ports });
                    assert(effect_views(fx@) =~= control_effects(old(self)@, id@, msg@));
                }
            },
            PeerMessage::Enroll { token: _, version } => {
                // The peer is already known; nothing to enroll. The version, if
                // any, is why this message shows up again after admission.
                if version.is_some() {
                    self.peers.set_version(id, version);
                    proof {
                        assert(self@ =~= after_control(old(self)@, id@, msg@));
                        assert(self@.peers.dom() =~= old(self)@.peers.dom());
                    }
                }
            },
            _ => {},
        }
        fx
    }

    /// A tunnel request from a peer: the first two bytes of its stream name the
    /// port.
    pub fn on_tunnel(&self, id: &EndpointId, header: [u8; 2]) -> (r: TunnelStep)
        requires
            self.wf(),
        ensures
            r@ == tunnel_step(self@, id@, port_in(header@)),
    {
        let port = requested_port(header);
        match self.session.on_tunnel(id, port) {
            Action::ServeTunnel { port } => TunnelStep::Serve { host: self.host, port },
            _ => TunnelStep::Refuse { port, reason: Refusal::NotGranted },
        }
    }

    /// We reached a peer by dialing it.
    pub fn on_dialed(&mut self, id: &EndpointId) -> (r: (ConnId, Vec<Effect>))
        requires
            old(self).wf(),
        ensures
            final(self).wf(),
            final(self).clock() == old(self).clock(),
            final(self)@ == after_dialed(old(self)@, id@),
            r.0.0 == old(self)@.next_conn,
            effect_views(r.1@) == dialed_effects(old(self)@, id@),
    {
        broadcast use group_effects;

        let ghost m = old(self)@;
        let conn = self.take_conn();
        self.peers.set_conn(id, Some(conn));
        proof {
            assert(self@ =~= after_dialed(m, id@));
            assert(self@.peers.dom() =~= m.peers.dom());
        }
        let mut fx: Vec<Effect> = Vec::new();
        let token = match self.peers.get(id) {
            Some(p) => p.token(),
            None => {
                return (conn, fx);
            },
        };
        if let Some(t) = token {
            fx.push(Effect::Send { conn, msg: PeerMessage::enroll(t.as_str()) });
            assert(effect_views(fx@) =~= seq![EffectView::Send { conn: conn.0, msg: enroll_message(t@) }]);
        }
        let mut told = self.announce_to(id);
        fx.append(&mut told);
        assert(effect_views(fx@) =~= dialed_effects(m, id@));
        (conn, fx)
    }

    /// A connection of a peer starts to be served.
    pub fn on_serving(&self, id: &EndpointId) -> (fx: Vec<Effect>)
        requires
            self.wf(),
        ensures
            effect_views(fx@) == serving_effects(self@, id@),
    {
        broadcast use group_effects;

        if let Some(p) = self.peers.get(id) {
            if p.token().is_none() {
                return self.send(id, PeerMessage::enroll(""));
            }
        }
        Vec::new()
    }

    /// Announce to one peer the ports granted to it.
    pub fn announce_to(&self, id: &EndpointId) -> (fx: Vec<Effect>)
        requires
            self.wf(),
        ensures
            effect_views(fx@) == announce_effects(self@, announcement(self@.session, id@)),
    {
        match self.session.announce(*id) {
            Action::Announce { peer: _, ports } => self.send(id, PeerMessage::ExposedPorts(ports)),
            _ => Vec::new(),
        }
    }

    /// Sends the announcements among `actions`.
    pub(super) fn send_announcements(&self, actions: Vec<Action>) -> (fx: Vec<Effect>)
        requires
            self.wf(),
        ensures
            effect_views(fx@) == announces_effects(self@, action_views(actions@)),
    {
        broadcast use group_effects;

        let ghost all = action_views(actions@);
        let mut fx: Vec<Effect> = Vec::new();
        assert(announces_effects(self@, all.take(0)) =~= Seq::<EffectView>::empty());
        for a in it: actions
            invariant
                self.wf(),
                it.seq() == actions@,
                all == action_views(actions@),
                effect_views(fx@) == announces_effects(self@, all.take(it.index())),
        {
            let ghost n = it.index();
            let ghost before = effect_views(fx@);
            proof {
                assert(all.take(n + 1).drop_last() =~= all.take(n));
                assert(all.take(n + 1).last() == a@);
            }
            if let Action::Announce { peer, ports } = a {
                let mut more = self.send(&peer, PeerMessage::ExposedPorts(ports));
                fx.append(&mut more);
            }
            assert(effect_views(fx@) =~= before + announce_effects(self@, all[n]));
        }
        assert(all.take(actions@.len() as int) =~= all);
        fx
    }

    /// Re-announce grants to every connected peer (each gets its own view)
    pub fn broadcast_grants(&self) -> (fx: Vec<Effect>)
        requires
            self.wf(),
        ensures
            effect_views(fx@) == broadcast_effects(self@),
    {
        self.send_announcements(self.session.announce_all())
    }
}

}
