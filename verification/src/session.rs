//! The admission and authorization core.
//!
//! `Session` decides who may talk to this daemon and what they may reach. It
//! owns the grant table, the enrollment codes, and the set of admitted peers.
//! It performs no IO: every method takes an event and returns actions for the
//! shell to carry out.
//!
//! The four decisions that make up the security model live here:
//!
//! - admission of an inbound connection (`on_inbound`)
//! - the verdict on an enrollment claim (`on_unadmitted`, `on_enroll_timeout`)
//! - authorization of a tunnel request (`on_tunnel`)
//! - what ports a peer is told about (`announce`)

use crate::enroll::{fresh_codes, CodeView, Tokens};
use crate::grants::{announced, grant_order, grant_views, ports_granted, without, without_grantee, Grants};
use crate::key::{opt_id, EndpointId};
use crate::order::{key_order, lemma_port_listing, listing, lists, port_order};
use crate::protocol::PeerMessage;
use crate::roster::{id_views, keys_in_order, Admitted, AdmittedView, Admission, Roster};
use crate::text::{hex, opt_text};
use std::collections::BTreeMap;
use vstd::prelude::*;

verus! {

/// A connection the shell holds. The core never sees a live connection, it
/// addresses one by id.
#[derive(Copy, Clone, PartialEq, Eq, PartialOrd, Ord, Debug, Hash)]
pub struct ConnId(pub u64);

/// Why a connection, tunnel, or claim was turned away.
#[derive(Copy, Clone, PartialEq, Eq, Debug)]
pub enum Refusal {
    /// Unknown key, and no valid code presented.
    NotAuthorized,
    /// The enrollment window elapsed before a claim arrived.
    EnrollTimeout,
    /// The port is not granted to this specific peer.
    NotGranted,
}

impl Refusal {
    /// The text of the reason.
    pub open spec fn text(self) -> Seq<char> {
        match self {
            Refusal::NotAuthorized => "not authorized"@,
            Refusal::EnrollTimeout => "enroll timeout"@,
            Refusal::NotGranted => "not granted"@,
        }
    }

    /// Text for the close reason and logs.
    pub fn as_str(self) -> (s: &'static str)
        ensures
            s@ == self.text(),
    {
        match self {
            Refusal::NotAuthorized => "not authorized",
            Refusal::EnrollTimeout => "enroll timeout",
            Refusal::NotGranted => "not granted",
        }
    }
}

/// An action as plain values.
pub enum ActionView {
    Admit { conn: u64, peer: Seq<u8>, replacing: bool },
    Refuse { conn: u64, reason: Refusal },
    Announce { peer: Seq<u8>, ports: Seq<u16> },
    ApplyPorts { peer: Seq<u8>, ports: Seq<u16> },
    ServeTunnel { port: u16 },
    RejectTunnel { reason: Refusal },
    PersistPin { key: Seq<u8>, label: Option<Seq<char>> },
    DropPin { key: Seq<u8> },
}

/// What the shell should do next.
#[derive(Clone, PartialEq, Eq, Debug)]
pub enum Action {
    /// Install this connection as the peer's live one. `replacing` means an
    /// older connection is present and must be closed first.
    Admit { conn: ConnId, peer: EndpointId, replacing: bool },
    /// Close the connection without admitting it.
    Refuse { conn: ConnId, reason: Refusal },
    /// Tell `peer` exactly which of our ports it may reach. Sent even when
    /// empty, so a revocation tears down the peer's binding.
    Announce { peer: EndpointId, ports: Vec<u16> },
    /// Ports this peer announced before it was admitted, to apply now that it
    /// is.
    ApplyPorts { peer: EndpointId, ports: Vec<u16> },
    /// Serve a tunnel for this port.
    ServeTunnel { port: u16 },
    /// Refuse a tunnel.
    RejectTunnel { reason: Refusal },
    /// Write this pin to disk.
    PersistPin { key: EndpointId, label: Option<String> },
    /// Drop this pin from disk.
    DropPin { key: EndpointId },
}

impl View for Action {
    type V = ActionView;

    open spec fn view(&self) -> ActionView {
        match *self {
            Action::Admit { conn, peer, replacing } => ActionView::Admit { conn: conn.0, peer: peer@, replacing },
            Action::Refuse { conn, reason } => ActionView::Refuse { conn: conn.0, reason },
            Action::Announce { peer, ports } => ActionView::Announce { peer: peer@, ports: ports@ },
            Action::ApplyPorts { peer, ports } => ActionView::ApplyPorts { peer: peer@, ports: ports@ },
            Action::ServeTunnel { port } => ActionView::ServeTunnel { port },
            Action::RejectTunnel { reason } => ActionView::RejectTunnel { reason },
            Action::PersistPin { key, label } => ActionView::PersistPin { key: key@, label: opt_text(label) },
            Action::DropPin { key } => ActionView::DropPin { key: key@ },
        }
    }
}

/// The views of a sequence of actions.
pub open spec fn action_views(actions: Seq<Action>) -> Seq<ActionView> {
    Seq::new(actions.len(), |i: int| actions[i]@)
}

/// A connection accepted but not yet admitted. `early_ports` holds an
/// `ExposedPorts` message that arrived before the enrollment claim: they are
/// separate streams, so either order is possible.
#[derive(Debug)]
struct Pending {
    early_ports: Option<Vec<u16>>,
}

impl View for Pending {
    type V = Option<Seq<u16>>;

    closed spec fn view(&self) -> Option<Seq<u16>> {
        match self.early_ports {
            Some(ports) => Some(ports@),
            None => None,
        }
    }
}

/// What a session knows.
#[verifier::ext_equal]
pub struct SessionView {
    /// Which port is granted to which key
    pub grants: Set<(u16, Seq<u8>)>,
    /// The codes not claimed yet
    pub codes: Map<Seq<char>, CodeView>,
    /// The admitted peers
    pub peers: Map<Seq<u8>, AdmittedView>,
    /// The connections waiting for a claim, with the ports announced on them
    pub pending: Map<u64, Option<Seq<u16>>>,
}

/// Who may talk to this daemon, and what they may reach.
#[derive(Debug)]
pub struct Session {
    grants: Grants,
    tokens: Tokens,
    peers: Roster,
    pending: BTreeMap<u64, Pending>,
}

// ------------------------------------------------------------ what happens

/// A session in which nothing has happened.
pub open spec fn fresh_session() -> SessionView {
    SessionView {
        grants: Set::empty(),
        codes: Map::empty(),
        peers: Map::empty(),
        pending: Map::empty(),
    }
}

/// The announcement of its own granted ports to `peer`.
pub open spec fn announcement(s: SessionView, peer: Seq<u8>) -> ActionView {
    ActionView::Announce { peer, ports: announced(s.grants, peer) }
}

/// The announcements to every admitted peer, in the order of their keys.
pub open spec fn announcements(s: SessionView) -> Seq<ActionView> {
    keys_in_order(s.peers).map_values(|k: Seq<u8>| announcement(s, k))
}

/// The session after the operator named a peer: a known peer stays as it was.
pub open spec fn after_admit_known(
    s: SessionView,
    key: Seq<u8>,
    label: Option<Seq<char>>,
    admission: Admission,
) -> SessionView {
    if s.peers.contains_key(key) {
        s
    } else {
        SessionView { peers: s.peers.insert(key, AdmittedView { label, admission }), ..s }
    }
}

/// The session after a connection from `remote` arrived.
pub open spec fn after_inbound(s: SessionView, conn: u64, remote: Seq<u8>) -> SessionView {
    if s.peers.contains_key(remote) {
        s
    } else {
        SessionView { pending: s.pending.insert(conn, None), ..s }
    }
}

/// What an arriving connection from `remote` calls for.
pub open spec fn inbound_actions(s: SessionView, conn: u64, remote: Seq<u8>) -> Seq<ActionView> {
    if s.peers.contains_key(remote) {
        seq![ActionView::Admit { conn, peer: remote, replacing: true }, announcement(s, remote)]
    } else {
        seq![]
    }
}

/// Whether `token` can be claimed at `now`.
pub open spec fn claimable(s: SessionView, token: Seq<char>, now: u64) -> bool {
    fresh_codes(s.codes, now).contains_key(token)
}

/// The grants that come with a claimed code.
pub open spec fn carried_grants(ports: Seq<u16>, key: Seq<u8>) -> Set<(u16, Seq<u8>)> {
    Set::new(|g: (u16, Seq<u8>)| ports.contains(g.0) && g.1 == key)
}

/// The session after `remote` presented `token` on `conn` at `now`.
pub open spec fn after_claim(
    s: SessionView,
    now: u64,
    conn: u64,
    remote: Seq<u8>,
    token: Seq<char>,
) -> SessionView {
    let codes = fresh_codes(s.codes, now).remove(token);
    let pending = s.pending.remove(conn);
    if claimable(s, token, now) {
        let code = s.codes[token];
        SessionView {
            grants: s.grants.union(carried_grants(code.ports, remote)),
            codes,
            peers: s.peers.insert(remote, AdmittedView { label: code.name, admission: Admission::Code }),
            pending,
        }
    } else {
        SessionView { codes, pending, ..s }
    }
}

/// The ports announced on `conn` before its claim.
pub open spec fn early_ports(s: SessionView, conn: u64) -> Seq<u16> {
    if s.pending.contains_key(conn) && s.pending[conn] is Some {
        s.pending[conn]->Some_0
    } else {
        seq![]
    }
}

/// What a claim calls for.
pub open spec fn claim_actions(
    s: SessionView,
    now: u64,
    conn: u64,
    remote: Seq<u8>,
    token: Seq<char>,
) -> Seq<ActionView> {
    if claimable(s, token, now) {
        let early = early_ports(s, conn);
        seq![
            ActionView::Admit { conn, peer: remote, replacing: false },
            ActionView::PersistPin { key: remote, label: s.codes[token].name },
        ] + (if early.len() > 0 {
            seq![ActionView::ApplyPorts { peer: remote, ports: early }]
        } else {
            seq![]
        }) + seq![announcement(after_claim(s, now, conn, remote, token), remote)]
    } else {
        seq![ActionView::Refuse { conn, reason: Refusal::NotAuthorized }]
    }
}

/// The session after `conn` announced `ports` before any claim.
pub open spec fn after_early_ports(s: SessionView, conn: u64, ports: Seq<u16>) -> SessionView {
    if s.pending.contains_key(conn) {
        SessionView { pending: s.pending.insert(conn, Some(ports)), ..s }
    } else {
        s
    }
}

/// The session after a control message on a connection that is not admitted.
pub open spec fn after_unadmitted(
    s: SessionView,
    now: u64,
    conn: u64,
    remote: Seq<u8>,
    msg: PeerMessage,
) -> SessionView {
    match msg {
        PeerMessage::Enroll { token, .. } => after_claim(s, now, conn, remote, token@),
        PeerMessage::ExposedPorts(ports) => after_early_ports(s, conn, ports@),
        _ => s,
    }
}

/// What a control message on a connection that is not admitted calls for.
pub open spec fn unadmitted_actions(
    s: SessionView,
    now: u64,
    conn: u64,
    remote: Seq<u8>,
    msg: PeerMessage,
) -> Seq<ActionView> {
    match msg {
        PeerMessage::Enroll { token, .. } => claim_actions(s, now, conn, remote, token@),
        _ => seq![],
    }
}

/// The session after the enrollment window of `conn` elapsed.
pub open spec fn after_timeout(s: SessionView, conn: u64) -> SessionView {
    SessionView { pending: s.pending.remove(conn), ..s }
}

/// The session after `peer` was forgotten.
pub open spec fn after_evict(s: SessionView, peer: Seq<u8>) -> SessionView {
    if s.peers.contains_key(peer) {
        SessionView { peers: s.peers.remove(peer), grants: without_grantee(s.grants, peer), ..s }
    } else {
        s
    }
}

/// The session after `port` was granted to every key of `to`.
pub open spec fn after_expose(s: SessionView, port: u16, to: Seq<Seq<u8>>) -> SessionView {
    SessionView {
        grants: s.grants.union(Set::new(|g: (u16, Seq<u8>)| g.0 == port && to.contains(g.1))),
        ..s
    }
}

/// The session after `port` was revoked, for one key or for all.
pub open spec fn after_unexpose(s: SessionView, port: u16, to: Option<Seq<u8>>) -> SessionView {
    SessionView { grants: without(s.grants, port, to), ..s }
}

/// The verdict on a tunnel request.
pub open spec fn tunnel_verdict(s: SessionView, peer: Seq<u8>, port: u16) -> ActionView {
    if s.grants.contains((port, peer)) {
        ActionView::ServeTunnel { port }
    } else {
        ActionView::RejectTunnel { reason: Refusal::NotGranted }
    }
}

impl View for Session {
    type V = SessionView;

    closed spec fn view(&self) -> SessionView {
        SessionView {
            grants: self.grants@,
            codes: self.tokens@,
            peers: self.peers@,
            pending: self.pending@.map_values(|p: Pending| p@),
        }
    }
}

impl Default for Session {
    /// A session in which nothing has happened.
    fn default() -> (r: Session)
        ensures
            r.wf(),
            r@ == fresh_session(),
    {
        Session::new()
    }
}

impl Session {
    /// The tables the session is made of are in order.
    pub closed spec fn wf(&self) -> bool {
        self.grants.wf() && self.tokens.wf() && self.peers.wf()
    }

    /// When the clock was started by which codes expire. It is never set anew.
    pub closed spec fn clock(&self) -> std::time::Instant {
        self.tokens.clock()
    }

    /// The keys in order are exactly those of the admitted peers.
    pub proof fn lemma_keys(&self)
        requires
            self.wf(),
        ensures
            lists(keys_in_order(self@.peers), self@.peers.dom(), key_order()),
    {
        self.peers.lemma_keys();
    }

    /// Every grant is listed once, and so is every port of one.
    pub proof fn lemma_grants(&self)
        requires
            self.wf(),
        ensures
            lists(listing(self@.grants, grant_order()), self@.grants, grant_order()),
            lists(listing(ports_granted(self@.grants), port_order()), ports_granted(self@.grants), port_order()),
    {
        self.grants.lemma_all();
        lemma_port_listing(ports_granted(self@.grants));
    }

    /// A session in which nothing has happened.
    pub fn new() -> (r: Session)
        ensures
            r.wf(),
            r@ == fresh_session(),
    {
        let r = Session {
            grants: Grants::new(),
            tokens: Tokens::new(),
            peers: Roster::new(),
            pending: BTreeMap::new(),
        };
        assert(r@ =~= fresh_session());
        r
    }

    // ---------------------------------------------------------- admission

    /// Record a peer the operator named directly, by key or by pin.
    /// Idempotent: re-adding a known peer leaves it as it was.
    pub fn admit_known(
        &mut self,
        key: EndpointId,
        label: Option<String>,
        admission: Admission,
    ) -> (r: bool)
        requires
            old(self).wf(),
        ensures
            final(self).wf(),
            final(self).clock() == old(self).clock(),
            final(self)@ == after_admit_known(old(self)@, key@, opt_text(label), admission),
            r == !old(self)@.peers.contains_key(key@),
    {
        if self.peers.contains(&key) {
            return false;
        }
        self.peers.insert(key, Admitted { label, admission });
        assert(self@ =~= after_admit_known(old(self)@, key@, opt_text(label), admission));
        true
    }

    /// An inbound connection arrived. A known key is admitted with no claim; an
    /// unknown one is held pending until it presents a code.
    pub fn on_inbound(&mut self, conn: ConnId, remote: EndpointId) -> (r: Vec<Action>)
        requires
            old(self).wf(),
        ensures
            final(self).wf(),
            final(self).clock() == old(self).clock(),
            final(self)@ == after_inbound(old(self)@, conn.0, remote@),
            action_views(r@) == inbound_actions(old(self)@, conn.0, remote@),
    {
        let mut actions: Vec<Action> = Vec::new();
        if self.peers.contains(&remote) {
            actions.push(Action::Admit { conn, peer: remote, replacing: true });
            actions.push(self.announce(remote));
            assert(action_views(actions@) =~= inbound_actions(old(self)@, conn.0, remote@));
            return actions;
        }
        self.pending.insert(conn.0, Pending { early_ports: None });
        assert(self@ =~= after_inbound(old(self)@, conn.0, remote@));
        assert(action_views(actions@) =~= inbound_actions(old(self)@, conn.0, remote@));
        actions
    }

    /// A control message on a connection that is not yet admitted. Only an
    /// `Enroll` carrying a live code admits it. Anything else is buffered or
    /// ignored, and the connection stays pending until it claims or times out.
    pub fn on_unadmitted(&mut self, conn: ConnId, remote: EndpointId, msg: PeerMessage) -> (r: Vec<
        Action,
    >)
        requires
            old(self).wf(),
        ensures
            final(self).wf(),
            final(self).clock() == old(self).clock(),
            exists|now: u64|
                final(self)@ == #[trigger] after_unadmitted(old(self)@, now, conn.0, remote@, msg)
                    && action_views(r@) == unadmitted_actions(old(self)@, now, conn.0, remote@, msg),
    {
        let now = self.tokens.now();
        self.on_unadmitted_at(now, conn, remote, msg)
    }

    /// `on_unadmitted`, with the time of arrival given.
    pub fn on_unadmitted_at(
        &mut self,
        now: u64,
        conn: ConnId,
        remote: EndpointId,
        msg: PeerMessage,
    ) -> (r: Vec<Action>)
        requires
            old(self).wf(),
        ensures
            final(self).wf(),
            final(self).clock() == old(self).clock(),
            final(self)@ == after_unadmitted(old(self)@, now, conn.0, remote@, msg),
            action_views(r@) == unadmitted_actions(old(self)@, now, conn.0, remote@, msg),
    {
        match msg {
            PeerMessage::Enroll { token, version: _ } => self.claim(now, conn, remote, token),
            PeerMessage::ExposedPorts(ports) => {
                if self.pending.contains_key(&conn.0) {
                    let ghost pv = ports@;
                    self.pending.insert(conn.0, Pending { early_ports: Some(ports) });
                    assert(self@ =~= after_early_ports(old(self)@, conn.0, pv));
                }
                let none: Vec<Action> = Vec::new();
                assert(action_views(none@) =~= seq![]);
                none
            },
            _ => {
                let none: Vec<Action> = Vec::new();
                assert(action_views(none@) =~= seq![]);
                none
            },
        }
    }

    /// A code was presented.
    fn claim(&mut self, now: u64, conn: ConnId, remote: EndpointId, token: String) -> (r: Vec<Action>)
        requires
            old(self).wf(),
        ensures
            final(self).wf(),
            final(self).clock() == old(self).clock(),
            final(self)@ == after_claim(old(self)@, now, conn.0, remote@, token@),
            action_views(r@) == claim_actions(old(self)@, now, conn.0, remote@, token@),
    {
        let mut actions: Vec<Action> = Vec::new();
        let claimed = self.tokens.claim_at(token.as_str(), now);
        let held = self.pending.remove(&conn.0);
        match claimed {
            Some(claimed) => {
                let early: Vec<u16> = match held {
                    Some(p) => match p.early_ports {
                        Some(ports) => ports,
                        None => Vec::new(),
                    },
                    None => Vec::new(),
                };
                assert(early@ =~= early_ports(old(self)@, conn.0));
                let label = crate::text::copy_opt(&claimed.name);
                self.peers.insert(remote, Admitted { label, admission: Admission::Code });
                let mut i: usize = 0;
                while i < claimed.ports.len()
                    invariant
                        i <= claimed.ports@.len(),
                        self.wf(),
                        self.peers@ == old(self).peers@.insert(
                            remote@,
                            AdmittedView { label: opt_text(claimed.name), admission: Admission::Code },
                        ),
                        self.tokens@ == fresh_codes(old(self).tokens@, now).remove(token@),
                        self.tokens.clock() == old(self).tokens.clock(),
                        self.pending@ == old(self).pending@.remove(conn.0),
                        self.grants@ == old(self).grants@.union(
                            carried_grants(claimed.ports@.take(i as int), remote@),
                        ),
                    decreases claimed.ports@.len() - i,
                {
                    self.grants.add(claimed.ports[i], remote);
                    proof {
                        let a = claimed.ports@.take(i as int);
                        let b = claimed.ports@.take(i + 1);
                        assert(b =~= a.push(claimed.ports@[i as int]));
                        assert forall|p: u16| #[trigger] b.contains(p) <==> a.contains(p) || p
                            == claimed.ports@[i as int] by {
                            if a.contains(p) {
                                let x = choose|x: int| 0 <= x < a.len() && a[x] == p;
                                assert(b[x] == p);
                            }
                            if p == claimed.ports@[i as int] {
                                assert(b[i as int] == p);
                            }
                        }
                        assert(self.grants@ =~= old(self).grants@.union(carried_grants(b, remote@)));
                    }
                    i = i + 1;
                }
                assert(claimed.ports@.take(claimed.ports@.len() as int) =~= claimed.ports@);
                assert(self@ =~= after_claim(old(self)@, now, conn.0, remote@, token@));
                actions.push(Action::Admit { conn, peer: remote, replacing: false });
                actions.push(Action::PersistPin { key: remote, label: claimed.name });
                if early.len() > 0 {
                    actions.push(Action::ApplyPorts { peer: remote, ports: early });
                }
                actions.push(self.announce(remote));
                assert(action_views(actions@) =~= claim_actions(old(self)@, now, conn.0, remote@, token@));
                actions
            },
            None => {
                assert(self@ =~= after_claim(old(self)@, now, conn.0, remote@, token@));
                actions.push(Action::Refuse { conn, reason: Refusal::NotAuthorized });
                assert(action_views(actions@) =~= claim_actions(old(self)@, now, conn.0, remote@, token@));
                actions
            },
        }
    }

    /// The enrollment window elapsed with no valid claim.
    pub fn on_enroll_timeout(&mut self, conn: ConnId) -> (r: Vec<Action>)
        requires
            old(self).wf(),
        ensures
            final(self).wf(),
            final(self).clock() == old(self).clock(),
            final(self)@ == after_timeout(old(self)@, conn.0),
            action_views(r@) == if old(self)@.pending.contains_key(conn.0) {
                seq![ActionView::Refuse { conn: conn.0, reason: Refusal::EnrollTimeout }]
            } else {
                seq![]
            },
    {
        let mut actions: Vec<Action> = Vec::new();
        let held = self.pending.remove(&conn.0);
        assert(self@ =~= after_timeout(old(self)@, conn.0));
        if held.is_some() {
            actions.push(Action::Refuse { conn, reason: Refusal::EnrollTimeout });
            assert(action_views(actions@) =~= seq![
                ActionView::Refuse { conn: conn.0, reason: Refusal::EnrollTimeout },
            ]);
        } else {
            assert(action_views(actions@) =~= seq![]);
        }
        actions
    }

    /// Forget a peer: it loses admission, and every grant naming it is revoked.
    pub fn evict(&mut self, peer: &EndpointId) -> (r: Vec<Action>)
        requires
            old(self).wf(),
        ensures
            final(self).wf(),
            final(self).clock() == old(self).clock(),
            final(self)@ == after_evict(old(self)@, peer@),
            action_views(r@) == if old(self)@.peers.contains_key(peer@) {
                seq![ActionView::DropPin { key: peer@ }]
            } else {
                seq![]
            },
    {
        let mut actions: Vec<Action> = Vec::new();
        if !self.peers.remove(peer) {
            assert(self@.peers =~= old(self)@.peers);
            assert(action_views(actions@) =~= seq![]);
            return actions;
        }
        self.grants.revoke_grantee(peer);
        actions.push(Action::DropPin { key: *peer });
        assert(action_views(actions@) =~= seq![ActionView::DropPin { key: peer@ }]);
        actions
    }

    // ------------------------------------------------------------- access

    /// The security perimeter: a tunnel is served only for a port granted to
    /// this specific peer.
    pub fn on_tunnel(&self, peer: &EndpointId, port: u16) -> (r: Action)
        ensures
            r@ == tunnel_verdict(self@, peer@, port),
    {
        if self.grants.allows(port, peer) {
            Action::ServeTunnel { port }
        } else {
            Action::RejectTunnel { reason: Refusal::NotGranted }
        }
    }

    /// What this peer is allowed to know about: its granted ports, and nothing
    /// else.
    pub fn announce(&self, peer: EndpointId) -> (r: Action)
        requires
            self.wf(),
        ensures
            r is Announce,
            r@ == announcement(self@, peer@),
    {
        Action::Announce { peer, ports: self.grants.ports_for(&peer) }
    }

    /// Grant `port` to each of `to`, and re-announce to everyone, so a peer
    /// that lost nothing still hears an unchanged list.
    pub fn expose(&mut self, port: u16, to: &[EndpointId]) -> (r: Vec<Action>)
        requires
            old(self).wf(),
        ensures
            final(self).wf(),
            final(self).clock() == old(self).clock(),
            final(self)@ == after_expose(old(self)@, port, id_views(to@)),
            action_views(r@) == announcements(final(self)@),
    {
        let ghost keys = id_views(to@);
        let mut i: usize = 0;
        while i < to.len()
            invariant
                i <= to@.len(),
                keys == id_views(to@),
                self.wf(),
                self.peers == old(self).peers,
                self.tokens == old(self).tokens,
                self.pending == old(self).pending,
                self.grants@ == old(self).grants@.union(
                    Set::new(|g: (u16, Seq<u8>)| g.0 == port && keys.take(i as int).contains(g.1)),
                ),
            decreases to@.len() - i,
        {
            self.grants.add(port, to[i]);
            proof {
                let a = keys.take(i as int);
                let b = keys.take(i + 1);
                assert forall|k: Seq<u8>| #[trigger] b.contains(k) <==> a.contains(k) || k == to@[i as int]@ by {
                    if a.contains(k) {
                        let x = choose|x: int| 0 <= x < a.len() && a[x] == k;
                        assert(b[x] == k);
                    }
                    if k == to@[i as int]@ {
                        assert(b[i as int] == k);
                    }
                    if b.contains(k) {
                        let x = choose|x: int| 0 <= x < b.len() && b[x] == k;
                        if x < i {
                            assert(a[x] == k);
                        }
                    }
                }
                assert(self.grants@ =~= old(self).grants@.union(
                    Set::new(|g: (u16, Seq<u8>)| g.0 == port && b.contains(g.1)),
                ));
            }
            i = i + 1;
        }
        assert(keys.take(to@.len() as int) =~= keys);
        assert(self@ =~= after_expose(old(self)@, port, keys));
        self.announce_all()
    }

    /// Revoke grants for `port`: one grantee's, or every one of them.
    pub fn unexpose(&mut self, port: u16, to: Option<EndpointId>) -> (r: Vec<Action>)
        requires
            old(self).wf(),
        ensures
            final(self).wf(),
            final(self).clock() == old(self).clock(),
            final(self)@ == after_unexpose(old(self)@, port, opt_id(to)),
            action_views(r@) == announcements(final(self)@),
    {
        self.grants.remove(port, to);
        assert(self@ =~= after_unexpose(old(self)@, port, opt_id(to)));
        self.announce_all()
    }

    /// The announcements to every admitted peer, each with its own view.
    pub fn announce_all(&self) -> (r: Vec<Action>)
        requires
            self.wf(),
        ensures
            action_views(r@) == announcements(self@),
    {
        let keys = self.peers.keys();
        let mut actions: Vec<Action> = Vec::new();
        let mut i: usize = 0;
        while i < keys.len()
            invariant
                i <= keys@.len(),
                self.wf(),
                id_views(keys@) == keys_in_order(self@.peers),
                action_views(actions@) == announcements(self@).take(i as int),
            decreases keys@.len() - i,
        {
            let ghost before = actions@;
            actions.push(self.announce(keys[i]));
            proof {
                assert(keys_in_order(self@.peers)[i as int] == keys@[i as int]@);
                assert(action_views(actions@) =~= action_views(before).push(
                    announcement(self@, keys@[i as int]@),
                ));
                assert(action_views(actions@) =~= announcements(self@).take(i + 1));
            }
            i = i + 1;
        }
        assert(announcements(self@).take(keys@.len() as int) =~= announcements(self@));
        actions
    }

    // ------------------------------------------------------------ queries

    /// Every peer admitted right now.
    pub fn peer_keys(&self) -> (r: Vec<EndpointId>)
        requires
            self.wf(),
        ensures
            id_views(r@) == keys_in_order(self@.peers),
            forall|k: Seq<u8>| #[trigger] id_views(r@).contains(k) <==> self@.peers.contains_key(k),
    {
        self.peers.keys()
    }

    /// How `peer` was admitted, if it was.
    pub fn admission_of(&self, peer: &EndpointId) -> (r: Option<Admission>)
        requires
            self.wf(),
        ensures
            r == if self@.peers.contains_key(peer@) {
                Some(self@.peers[peer@].admission)
            } else {
                None
            },
    {
        self.peers.admission(peer)
    }

    /// What `peer` is called, if it is admitted and named.
    pub fn label_of(&self, peer: &EndpointId) -> (r: Option<String>)
        requires
            self.wf(),
        ensures
            opt_text(r) == if self@.peers.contains_key(peer@) {
                self@.peers[peer@].label
            } else {
                None
            },
    {
        self.peers.label(peer)
    }

    /// Milliseconds since the session started.
    pub fn now(&self) -> (now: u64) {
        self.tokens.now()
    }

    /// Mint a one-time code. `ports` are granted to whoever claims it, so a
    /// grant still names exactly one key: the key is filled in on claim.
    pub fn mint_token(&mut self, name: Option<String>, ports: Vec<u16>) -> (code: String)
        requires
            old(self).wf(),
        ensures
            final(self).wf(),
            final(self).clock() == old(self).clock(),
            exists|bytes: Seq<u8>| bytes.len() == 16 && code@ == #[trigger] hex(bytes),
            exists|now: u64|
                final(self)@ == #[trigger] after_mint(old(self)@, code@, now, opt_text(name), ports@),
    {
        let code = self.tokens.mint(name, ports);
        proof {
            let now = choose|now: u64|
                self.tokens@ == (#[trigger] fresh_codes(old(self).tokens@, now)).insert(
                    code@,
                    CodeView { name: opt_text(name), ports: ports@, minted: now },
                );
            assert(self@ =~= after_mint(old(self)@, code@, now, opt_text(name), ports@));
        }
        code
    }

    /// Holds a given code from `now` on.
    pub fn mint_token_at(&mut self, code: String, now: u64, name: Option<String>, ports: Vec<u16>)
        requires
            old(self).wf(),
        ensures
            final(self).wf(),
            final(self).clock() == old(self).clock(),
            final(self)@ == after_mint(old(self)@, code@, now, opt_text(name), ports@),
    {
        self.tokens.mint_at(code, now, name, ports);
        assert(self@ =~= after_mint(old(self)@, code@, now, opt_text(name), ports@));
    }

    /// The distinct granted ports, ascending.
    pub fn granted_ports(&self) -> (r: Vec<u16>)
        requires
            self.wf(),
        ensures
            r@ == listing(ports_granted(self@.grants), port_order()),
            lists(r@, ports_granted(self@.grants), port_order()),
    {
        self.grants.ports()
    }

    /// Every grant, ascending by port and then by key.
    pub fn all_grants(&self) -> (r: Vec<(u16, EndpointId)>)
        requires
            self.wf(),
        ensures
            grant_views(r@) == listing(self@.grants, grant_order()),
            lists(grant_views(r@), self@.grants, grant_order()),
    {
        self.grants.all()
    }
}

/// The session after `code` was minted at `now`.
pub open spec fn after_mint(
    s: SessionView,
    code: Seq<char>,
    now: u64,
    name: Option<Seq<char>>,
    ports: Seq<u16>,
) -> SessionView {
    SessionView { codes: fresh_codes(s.codes, now).insert(code, CodeView { name, ports, minted: now }), ..s }
}

}
