//! Peer management: admission, port announcements, surfaces and bindings.
//!
//! Access is default deny: an incoming connection is served only if its key is
//! already known (added by key, or pinned at enrollment) or it presents a valid
//! enrollment code. Anyone else is refused: no announcement, no tunnel.
//!
//! `PeerManager` decides; the shell holds the connections, tasks and sockets,
//! carries out the effects it is handed, and reports back what happened.

use crate::addr::{IpAddr, IpView};
use crate::effect::{effect_views, group_effects, Effect, EffectView};
use crate::grants::{grant_order, ports_granted};
use crate::key::{key_of_text, EndpointId, InvalidKey};
use crate::netstack::{after_add_surface, NetStack, StackView};
use crate::order::{key_order, listing, lists, port_order};
use crate::protocol::MessageView;
use crate::roster::Admission;
use crate::session::{after_admit_known, announcements, ActionView, Session, SessionView};
use crate::surface::Platform;
use crate::table::{announced_ports, new_peer, Peer, PeerTable, PeerView};
use crate::text::{copy_opt, hex, opt_text};
use vstd::prelude::*;

pub mod access;
pub mod course;
pub mod laws;
pub mod links;
pub mod queries;
pub mod projection;
pub mod reach;
pub mod recorded;
pub mod shown;
pub mod surfaces;
pub mod told;
pub mod update;

verus! {

/// Why a request about a peer was turned down.
#[derive(Debug, PartialEq, Eq)]
pub enum PeerError {
    /// The peer is known already
    AlreadyExists,
    /// The text is not a key
    InvalidKey,
    /// No peer has this key or name
    NoSuchPeer(String),
    /// The peer has no surface
    NotProjected(String),
}

/// An error as plain values.
pub enum PeerErrorView {
    AlreadyExists,
    InvalidKey,
    NoSuchPeer(Seq<char>),
    NotProjected(Seq<char>),
}

impl View for PeerError {
    type V = PeerErrorView;

    open spec fn view(&self) -> PeerErrorView {
        match *self {
            PeerError::AlreadyExists => PeerErrorView::AlreadyExists,
            PeerError::InvalidKey => PeerErrorView::InvalidKey,
            PeerError::NoSuchPeer(s) => PeerErrorView::NoSuchPeer(s@),
            PeerError::NotProjected(s) => PeerErrorView::NotProjected(s@),
        }
    }
}

/// The text of an error.
pub open spec fn peer_error_text(e: PeerErrorView) -> Seq<char> {
    match e {
        PeerErrorView::AlreadyExists => "peer already exists"@,
        PeerErrorView::InvalidKey => "invalid key"@,
        PeerErrorView::NoSuchPeer(s) => "no such peer: "@ + s,
        PeerErrorView::NotProjected(s) => "peer "@ + s + " is not projected"@,
    }
}

impl PeerError {
    /// What to tell the user.
    pub fn to_string(&self) -> (r: String)
        ensures
            r@ == peer_error_text(self@),
    {
        match self {
            PeerError::AlreadyExists => "peer already exists".to_owned(),
            PeerError::InvalidKey => "invalid key".to_owned(),
            PeerError::NoSuchPeer(s) => {
                let mut r = "no such peer: ".to_owned();
                r.append(s.as_str());
                r
            },
            PeerError::NotProjected(s) => {
                let mut r = "peer ".to_owned();
                r.append(s.as_str());
                r.append(" is not projected");
                r
            },
        }
    }
}

/// What a manager knows, as plain values.
#[verifier::ext_equal]
pub struct ManagerView {
    /// Peers by key
    pub peers: Map<Seq<u8>, PeerView>,
    /// Admission and access
    pub session: SessionView,
    /// The stack on the TUN device; None on loopback
    pub stack: Option<StackView>,
    /// Where tunnel requests are forwarded
    pub host: IpView,
    /// This node's own name
    pub self_name: Option<Seq<char>>,
    pub platform: Platform,
    /// The number of the next connection
    pub next_conn: u64,
}

/// The peers a daemon knows, and what it decides about them.
#[derive(Debug)]
pub struct PeerManager {
    peers: PeerTable,
    session: Session,
    stack: Option<NetStack>,
    host: IpAddr,
    self_name: Option<String>,
    platform: Platform,
    next_conn: u64,
}

/// The view of an optional stack.
pub open spec fn opt_stack(o: Option<NetStack>) -> Option<StackView> {
    match o {
        Some(s) => Some(s@),
        None => None,
    }
}

impl View for PeerManager {
    type V = ManagerView;

    closed spec fn view(&self) -> ManagerView {
        ManagerView {
            peers: self.peers@,
            session: self.session@,
            stack: opt_stack(self.stack),
            host: self.host@,
            self_name: opt_text(self.self_name),
            platform: self.platform,
            next_conn: self.next_conn,
        }
    }
}

/// What holds of every peer: a port is bound only while the peer is projected
/// and the port is among those it announced last.
pub open spec fn binds_what_it_announces(p: PeerView) -> bool {
    &&& p.surface is None ==> p.bound == Map::<u16, u64>::empty()
    &&& forall|port: u16| #[trigger] p.bound.contains_key(port) ==> announced_ports(p).contains(port)
}

/// What holds of every manager: the peers in the table are those the session
/// admitted, and a port is bound only while its peer is projected and announces
/// it.
pub open spec fn consistent(m: ManagerView) -> bool {
    &&& m.peers.dom() == m.session.peers.dom()
    &&& forall|k: Seq<u8>| #[trigger] m.peers.contains_key(k) ==> binds_what_it_announces(m.peers[k])
}

// -------------------------------------------------------------------- peers

/// The manager after a peer was recorded, unless it was known.
pub open spec fn after_record(
    m: ManagerView,
    key: Seq<u8>,
    name: Option<Seq<char>>,
    dial: bool,
    code: Option<Seq<char>>,
    admission: Admission,
) -> ManagerView {
    if m.peers.contains_key(key) {
        m
    } else {
        ManagerView {
            peers: m.peers.insert(key, new_peer(name, dial, code, None)),
            session: after_admit_known(m.session, key, name, admission),
            ..m
        }
    }
}

/// Whether a peer is known because it presented a code.
pub open spec fn known_by_code(m: ManagerView, key: Seq<u8>) -> bool {
    m.session.peers.contains_key(key) && m.session.peers[key].admission is Code
}

/// How a pinned peer came to be admitted.
pub open spec fn pin_admission(by_code: bool) -> Admission {
    if by_code {
        Admission::Code
    } else {
        Admission::Key
    }
}

/// The outcome of a request that names effects or fails.
pub open spec fn effects_result(r: Result<Vec<Effect>, PeerError>) -> Result<Seq<EffectView>, PeerErrorView> {
    match r {
        Ok(fx) => Ok(effect_views(fx@)),
        Err(e) => Err(e@),
    }
}

// ------------------------------------------------------------------ messages

/// Sending `msg` to a peer, if it has a connection.
pub open spec fn send_to(p: PeerView, msg: MessageView) -> Seq<EffectView> {
    match p.conn {
        Some(conn) => seq![EffectView::Send { conn, msg }],
        None => seq![],
    }
}

/// The effects of the core's actions, for the peer under `key`.
pub open spec fn action_effects(m: ManagerView, key: Seq<u8>, a: ActionView) -> Seq<EffectView> {
    match a {
        ActionView::Announce { ports, .. } => send_to(m.peers[key], MessageView::ExposedPorts(ports)),
        ActionView::ApplyPorts { ports, .. } => seq![EffectView::UpdatePorts { peer: key, ports }],
        ActionView::PersistPin { key: k, label } => seq![
            EffectView::SavePin { key: hex(k), label, by_code: known_by_code(m, k) },
        ],
        ActionView::DropPin { key: k } => seq![EffectView::DropPin { key: hex(k) }],
        _ => seq![],
    }
}

/// The effects of a sequence of actions, in their order.
pub open spec fn actions_effects(m: ManagerView, key: Seq<u8>, actions: Seq<ActionView>) -> Seq<EffectView>
    decreases actions.len(),
{
    if actions.len() == 0 {
        seq![]
    } else {
        actions_effects(m, key, actions.drop_last()) + action_effects(m, key, actions.last())
    }
}

/// The effect of telling one peer what it may reach.
pub open spec fn announce_effects(m: ManagerView, a: ActionView) -> Seq<EffectView> {
    match a {
        ActionView::Announce { peer, ports } => if m.peers.contains_key(peer) {
            send_to(m.peers[peer], MessageView::ExposedPorts(ports))
        } else {
            seq![]
        },
        _ => seq![],
    }
}

/// The effects of a sequence of announcements, in their order.
pub open spec fn announces_effects(m: ManagerView, actions: Seq<ActionView>) -> Seq<EffectView>
    decreases actions.len(),
{
    if actions.len() == 0 {
        seq![]
    } else {
        announces_effects(m, actions.drop_last()) + announce_effects(m, actions.last())
    }
}

/// Telling every connected peer what it may reach, in the order of their keys.
pub open spec fn broadcast_effects(m: ManagerView) -> Seq<EffectView> {
    announces_effects(m, announcements(m.session))
}

impl PeerManager {
    /// The table, the session and the stack are in order and agree.
    pub closed spec fn wf(&self) -> bool {
        &&& self.peers.wf()
        &&& self.session.wf()
        &&& (self.stack is Some ==> self.stack->Some_0.wf())
        &&& consistent(self@)
    }

    /// When the clock was started by which codes expire. It is never set anew.
    pub closed spec fn clock(&self) -> std::time::Instant {
        self.session.clock()
    }

    /// What holds of every manager; and the known keys are those of its peers.
    pub proof fn lemma_consistent(&self)
        requires
            self.wf(),
        ensures
            consistent(self@),
            lists(queries::known_keys(self@), self@.peers.dom(), key_order()),
    {
        self.session.lemma_keys();
    }

    /// Every grant is listed once, and so is every port of one.
    pub proof fn lemma_grants(&self)
        requires
            self.wf(),
        ensures
            lists(listing(self@.session.grants, grant_order()), self@.session.grants, grant_order()),
            lists(
                listing(ports_granted(self@.session.grants), port_order()),
                ports_granted(self@.session.grants),
                port_order(),
            ),
    {
        self.session.lemma_grants();
    }

    /// A manager that knows no peer. `tun` says whether surfaces live on a TUN
    /// device instead of loopback. The resolver in the stack answers our own
    /// name like that of a surface, with the address services are at.
    pub fn new(host: IpAddr, tun: bool, self_name: Option<String>, platform: Platform) -> (r: PeerManager)
        ensures
            r.wf(),
            r@.peers == Map::<Seq<u8>, PeerView>::empty(),
            r@.session == crate::session::fresh_session(),
            r@.host == host@,
            r@.self_name == opt_text(self_name),
            r@.platform == platform,
            r@.next_conn == 1,
            r@.stack == if tun {
                Some(fresh_stack(host@, opt_text(self_name)))
            } else {
                None
            },
    {
        let stack = if tun {
            let mut s = NetStack::new();
            if let IpAddr::V4(v4) = host {
                s.add_surface(v4, copy_opt(&self_name));
            }
            Some(s)
        } else {
            None
        };
        let r = PeerManager {
            peers: PeerTable::new(),
            session: Session::new(),
            stack,
            host,
            self_name,
            platform,
            next_conn: 1,
        };
        assert(r@.peers.dom() =~= r@.session.peers.dom());
        r
    }

    /// Records a peer unless it is known.
    fn record(
        &mut self,
        id: EndpointId,
        name: Option<String>,
        dial: bool,
        code: Option<String>,
        admission: Admission,
    ) -> (new: bool)
        requires
            old(self).wf(),
        ensures
            final(self).wf(),
            final(self).clock() == old(self).clock(),
            new == !old(self)@.peers.contains_key(id@),
            final(self)@ == after_record(old(self)@, id@, opt_text(name), dial, opt_text(code), admission),
    {
        if self.peers.contains(&id) {
            return false;
        }
        let ghost named = opt_text(name);
        self.session.admit_known(id, copy_opt(&name), admission);
        self.peers.insert(Peer::new(id, name, dial, code, None));
        proof {
            let want = after_record(old(self)@, id@, named, dial, opt_text(code), admission);
            assert(self@ =~= want);
            assert(self@.peers.dom() =~= self@.session.peers.dom());
        }
        true
    }

    /// Take up an invitation, or reach a peer known by key. We dial this peer
    /// and keep dialing it. A code, when there is one, is presented on connect
    /// and on every reconnect (the peer ignores it once we are known).
    ///
    /// The peer is recorded before it is dialed: one whose daemon is not up yet
    /// is still ours, and its connection loop retries.
    pub fn add_peer(&mut self, id: EndpointId, name: Option<String>, code: Option<String>) -> (r: Result<
        Vec<Effect>,
        PeerError,
    >)
        requires
            old(self).wf(),
        ensures
            final(self).wf(),
            final(self).clock() == old(self).clock(),
            final(self)@ == after_record(old(self)@, id@, opt_text(name), true, opt_text(code), Admission::Added),
            effects_result(r) == if old(self)@.peers.contains_key(id@) {
                Err::<Seq<EffectView>, PeerErrorView>(PeerErrorView::AlreadyExists)
            } else {
                Ok(seq![EffectView::Spawn { peer: id@ }])
            },
    {
        if !self.record(id, name, true, code, Admission::Added) {
            return Err(PeerError::AlreadyExists);
        }
        let mut fx: Vec<Effect> = Vec::new();
        fx.push(Effect::Spawn { peer: id });
        assert(effect_views(fx@) =~= seq![EffectView::Spawn { peer: id@ }]);
        Ok(fx)
    }

    /// Whether a peer is known because it presented a code.
    pub(crate) fn is_known_by_code(&self, id: &EndpointId) -> (r: bool)
        requires
            self.wf(),
        ensures
            r == known_by_code(self@, id@),
    {
        match self.session.admission_of(id) {
            Some(Admission::Code) => true,
            _ => false,
        }
    }

    /// Register a pinned peer, admitted as its pin says. We never dial it: it
    /// phones home. Pinning a known peer changes nothing.
    pub fn add_pinned_id(&mut self, id: EndpointId, name: Option<String>, by_code: bool) -> (fx: Vec<Effect>)
        requires
            old(self).wf(),
        ensures
            final(self).wf(),
            final(self).clock() == old(self).clock(),
            final(self)@ == after_record(old(self)@, id@, opt_text(name), false, None, pin_admission(by_code)),
            effect_views(fx@) == pinned_effects(old(self)@, id@),
    {
        let mut fx: Vec<Effect> = Vec::new();
        let admission = if by_code {
            Admission::Code
        } else {
            Admission::Key
        };
        if self.record(id, name, false, None, admission) {
            fx.push(Effect::Spawn { peer: id });
        }
        assert(effect_views(fx@) =~= pinned_effects(old(self)@, id@));
        fx
    }

    /// Register a peer pinned at a previous run. A pin whose key cannot be read
    /// is turned down.
    pub fn restore_pin(&mut self, key: &str, name: Option<String>, by_code: bool) -> (r: Result<Vec<Effect>, PeerError>)
        requires
            old(self).wf(),
        ensures
            final(self).wf(),
            final(self).clock() == old(self).clock(),
            match key_of_text(key@) {
                Some(k) => {
                    &&& final(self)@ == after_record(old(self)@, k, opt_text(name), false, None, pin_admission(by_code))
                    &&& effects_result(r) == Ok::<Seq<EffectView>, PeerErrorView>(pinned_effects(old(self)@, k))
                },
                None => {
                    &&& final(self)@ == old(self)@
                    &&& effects_result(r) == Err::<Seq<EffectView>, PeerErrorView>(PeerErrorView::InvalidKey)
                },
            },
    {
        match EndpointId::parse(key) {
            Ok(id) => Ok(self.add_pinned_id(id, name, by_code)),
            Err(InvalidKey) => Err(PeerError::InvalidKey),
        }
    }

    /// Register a peer whose key was vouched for.
    pub fn add_pinned(&mut self, key: &str, name: Option<String>) -> (r: Result<Vec<Effect>, PeerError>)
        requires
            old(self).wf(),
        ensures
            final(self).wf(),
            final(self).clock() == old(self).clock(),
            match key_of_text(key@) {
                Some(k) => {
                    &&& final(self)@ == after_record(old(self)@, k, opt_text(name), false, None, Admission::Key)
                    &&& effects_result(r) == Ok::<Seq<EffectView>, PeerErrorView>(pinned_effects(old(self)@, k))
                },
                None => {
                    &&& final(self)@ == old(self)@
                    &&& effects_result(r) == Err::<Seq<EffectView>, PeerErrorView>(PeerErrorView::InvalidKey)
                },
            },
    {
        self.restore_pin(key, name, false)
    }

    /// Pin a peer by key under a name without a code: register it live so it is
    /// authorized when it phones home, and persist the pin across restarts.
    /// Idempotent.
    pub fn pin_peer(&mut self, key: &str, name: Option<String>) -> (r: Result<Vec<Effect>, PeerError>)
        requires
            old(self).wf(),
        ensures
            final(self).wf(),
            final(self).clock() == old(self).clock(),
            match key_of_text(key@) {
                Some(k) => {
                    &&& final(self)@ == after_record(old(self)@, k, opt_text(name), false, None, Admission::Key)
                    &&& effects_result(r) == Ok::<Seq<EffectView>, PeerErrorView>(
                        pinned_effects(old(self)@, k).push(
                            EffectView::SavePin {
                                key: hex(k),
                                label: opt_text(name),
                                by_code: known_by_code(old(self)@, k),
                            },
                        ),
                    )
                },
                None => {
                    &&& final(self)@ == old(self)@
                    &&& effects_result(r) == Err::<Seq<EffectView>, PeerErrorView>(PeerErrorView::InvalidKey)
                },
            },
    {
        broadcast use group_effects;

        match EndpointId::parse(key) {
            Ok(id) => Ok(self.pin_id(id, name)),
            Err(InvalidKey) => Err(PeerError::InvalidKey),
        }
    }

    /// `pin_peer`, for a key that was read. The pin is written under the one
    /// text that the key prints as, and says how the peer is known.
    pub fn pin_id(&mut self, id: EndpointId, name: Option<String>) -> (fx: Vec<Effect>)
        requires
            old(self).wf(),
        ensures
            final(self).wf(),
            final(self).clock() == old(self).clock(),
            final(self)@ == after_record(old(self)@, id@, opt_text(name), false, None, Admission::Key),
            effect_views(fx@) == pinned_effects(old(self)@, id@).push(
                EffectView::SavePin {
                    key: hex(id@),
                    label: opt_text(name),
                    by_code: known_by_code(old(self)@, id@),
                },
            ),
    {
        broadcast use group_effects;

        let label = copy_opt(&name);
        let by_code = self.is_known_by_code(&id);
        let mut fx = self.add_pinned_id(id, name, false);
        fx.push(Effect::SavePin { key: id.to_string(), label, by_code });
        fx
    }
}

/// A stack that knows our own name and nothing else.
pub open spec fn fresh_stack(host: IpView, self_name: Option<Seq<char>>) -> StackView {
    let empty = StackView { names: Map::empty(), listeners: Set::empty() };
    match host {
        IpView::V4(v4) => after_add_surface(empty, v4, self_name),
        IpView::V6(_) => empty,
    }
}

/// A peer that was not known needs a connection loop.
pub open spec fn pinned_effects(m: ManagerView, key: Seq<u8>) -> Seq<EffectView> {
    if m.peers.contains_key(key) {
        seq![]
    } else {
        seq![EffectView::Spawn { peer: key }]
    }
}

}
