//! Projecting peers, taking their surfaces down, and forgetting them.

use super::links::close_effects;
use super::queries::{base_of, opt_ip, projected, resolved};
use super::reach::{
    after_releases, after_settle, auto_name, claim_of, name_of, releases_effects, save_effects, stack_with,
    stack_without, unclaim_args, unclaim_effects, ClaimView,
};
use super::{effects_result, ManagerView, PeerError, PeerErrorView, PeerManager};
use crate::addr::{IpAddr, IpView};
use crate::effect::{effect_views, group_effects, Effect, EffectView};
use crate::key::{key_of_text, EndpointId, InvalidKey};
use crate::session::after_evict;
use crate::surface::{allocate_in, free_address, no_free_address_text, opt_args, record_views, unsupported_text, RecordView, SurfaceRecord};
use crate::table::{bound_ports, changed, PeerView};
use crate::text::{copy_opt, hex, opt_text, texts};
use vstd::prelude::*;

verus! {

/// What follows when a peer is projected.
#[derive(Debug, PartialEq, Eq)]
pub enum ProjectNext {
    /// It was turned down, for this reason
    Refused(String),
    /// The surface is up; the peer's ports can be bound
    Ready(EndpointId),
    /// A command has to run; `settle` puts the surface up
    Run { id: EndpointId, ip: IpAddr, name: Option<String>, args: Vec<String> },
}

/// What follows, as plain values.
pub enum ProjectNextView {
    Refused(Seq<char>),
    Ready(Seq<u8>),
    Run { id: Seq<u8>, ip: IpView, name: Option<Seq<char>>, args: Seq<Seq<char>> },
}

impl View for ProjectNext {
    type V = ProjectNextView;

    open spec fn view(&self) -> ProjectNextView {
        match *self {
            ProjectNext::Refused(e) => ProjectNextView::Refused(e@),
            ProjectNext::Ready(id) => ProjectNextView::Ready(id@),
            ProjectNext::Run { id, ip, name, args } => ProjectNextView::Run {
                id: id@,
                ip: ip@,
                name: opt_text(name),
                args: texts(args@),
            },
        }
    }
}

/// A peer being projected: what has to be done first, and what follows.
#[derive(Debug, PartialEq, Eq)]
pub struct Projection {
    pub effects: Vec<Effect>,
    pub next: ProjectNext,
}

/// What becomes of a surface that was persisted.
#[derive(Debug, PartialEq, Eq)]
pub enum Restore {
    /// Its peer is not known
    Skip,
    /// It is up again
    Done,
    /// A command has to run; `restored` puts the surface up
    Run { id: EndpointId, ip: IpAddr, name: Option<String>, args: Vec<String> },
    /// It cannot be put up, for this reason
    Failed(String),
}

/// What becomes of it, as plain values.
pub enum RestoreView {
    Skip,
    Done,
    Run { id: Seq<u8>, ip: IpView, name: Option<Seq<char>>, args: Seq<Seq<char>> },
    Failed(Seq<char>),
}

impl View for Restore {
    type V = RestoreView;

    open spec fn view(&self) -> RestoreView {
        match *self {
            Restore::Skip => RestoreView::Skip,
            Restore::Done => RestoreView::Done,
            Restore::Run { id, ip, name, args } => RestoreView::Run {
                id: id@,
                ip: ip@,
                name: opt_text(name),
                args: texts(args@),
            },
            Restore::Failed(e) => RestoreView::Failed(e@),
        }
    }
}

// ------------------------------------------------------------------ teardown

/// The manager after the surface of a peer was taken down: its bindings are
/// released while the surface still stands, then it goes.
pub open spec fn after_teardown(m: ManagerView, key: Seq<u8>) -> ManagerView {
    match m.peers[key].surface {
        Some(s) => {
            let r = after_releases(m, key, bound_ports(m.peers[key]));
            ManagerView {
                peers: changed(r.peers, key, |p: PeerView| PeerView { surface: None, ..p }),
                stack: stack_without(r.stack, s.ip),
                ..r
            }
        },
        None => m,
    }
}

/// What releasing every binding of a peer calls for.
pub open spec fn teardown_effects(m: ManagerView, key: Seq<u8>) -> Seq<EffectView> {
    match m.peers[key].surface {
        Some(s) => releases_effects(m, key, bound_ports(m.peers[key])) + unclaim_effects(m, s.ip),
        None => seq![],
    }
}

// ------------------------------------------------------------------- project

/// The address to project at: the one that was asked for, or a free one.
pub open spec fn project_ip(m: ManagerView, ip: Option<IpView>) -> Option<IpView> {
    match ip {
        Some(a) => Some(a),
        None => free_address(projected(m), base_of(m)),
    }
}

/// The name to project under: the one that was asked for, or the one the surface
/// would get by itself, so that there always is a name to resolve.
pub open spec fn project_name(p: PeerView, key: Seq<u8>, name: Option<Seq<char>>) -> Option<Seq<char>> {
    match name {
        Some(n) => Some(n),
        None => Some(auto_name(p, key)),
    }
}

/// The manager after a peer was projected. Any existing surface is taken down
/// first, so that it moves cleanly.
pub open spec fn after_project(
    m: ManagerView,
    key: Seq<u8>,
    ip: Option<IpView>,
    name: Option<Seq<char>>,
) -> ManagerView {
    let t = after_teardown(m, key);
    match project_ip(t, ip) {
        Some(a) => if claim_of(t, a) is Free {
            let n = project_name(m.peers[key], key, name);
            after_settle(ManagerView { stack: stack_with(t.stack, a, n), ..t }, key, a, n)
        } else {
            t
        },
        None => t,
    }
}

/// What projecting a peer calls for.
pub open spec fn project_effects(
    m: ManagerView,
    key: Seq<u8>,
    ip: Option<IpView>,
    name: Option<Seq<char>>,
) -> Seq<EffectView> {
    let t = after_teardown(m, key);
    match project_ip(t, ip) {
        Some(a) => if claim_of(t, a) is Free {
            teardown_effects(m, key) + save_effects(key, a, project_name(m.peers[key], key, name))
        } else {
            teardown_effects(m, key)
        },
        None => teardown_effects(m, key),
    }
}

/// What follows when a peer is projected.
pub open spec fn project_next(
    m: ManagerView,
    key: Seq<u8>,
    ip: Option<IpView>,
    name: Option<Seq<char>>,
) -> ProjectNextView {
    let t = after_teardown(m, key);
    match project_ip(t, ip) {
        Some(a) => match claim_of(t, a) {
            ClaimView::Free => ProjectNextView::Ready(key),
            ClaimView::Run(args) => ProjectNextView::Run { id: key, ip: a, name: project_name(m.peers[key], key, name), args },
            ClaimView::Unsupported => ProjectNextView::Refused(unsupported_text(a)),
        },
        None => ProjectNextView::Refused(no_free_address_text(base_of(t))),
    }
}

/// What taking a surface down for good calls for: a command that fails ends it,
/// and the record stays.
pub open spec fn unproject_effects(m: ManagerView, key: Seq<u8>) -> Seq<EffectView> {
    releases_effects(m, key, bound_ports(m.peers[key])) + (match unclaim_args(m, m.peers[key].surface->Some_0.ip) {
        Some(args) => seq![EffectView::Require { args }],
        None => seq![],
    }) + seq![EffectView::DropSurface { key: hex(key) }]
}

// --------------------------------------------------------------------- evict

/// The manager after a peer was forgotten.
pub open spec fn after_evicted(m: ManagerView, key: Seq<u8>) -> ManagerView {
    if m.peers.contains_key(key) {
        let r = after_releases(m, key, bound_ports(m.peers[key]));
        ManagerView {
            peers: m.peers.remove(key),
            session: after_evict(m.session, key),
            stack: match m.peers[key].surface {
                Some(s) => stack_without(r.stack, s.ip),
                None => r.stack,
            },
            ..m
        }
    } else {
        m
    }
}

/// What forgetting a peer calls for: its loop ends, its connection closes, its
/// bindings and its address go, and so do its records.
pub open spec fn evict_effects(m: ManagerView, key: Seq<u8>, reason: Seq<char>) -> Seq<EffectView> {
    if m.peers.contains_key(key) {
        let p = m.peers[key];
        (seq![EffectView::Wake { peer: key }] + close_effects(p, reason)) + (releases_effects(m, key, bound_ports(p)) + (
        match p.surface {
            Some(s) => unclaim_effects(m, s.ip),
            None => seq![],
        })) + seq![EffectView::DropPin { key: hex(key) }, EffectView::DropSurface { key: hex(key) }]
    } else {
        seq![EffectView::DropSurface { key: hex(key) }]
    }
}

// ------------------------------------------------------------------- restore

/// What becomes of a surface that was persisted for the peer under `key`.
pub open spec fn restore_of(m: ManagerView, key: Seq<u8>, ip: IpView, name: Option<Seq<char>>) -> RestoreView {
    if m.peers.contains_key(key) {
        match claim_of(m, ip) {
            ClaimView::Free => RestoreView::Done,
            ClaimView::Run(args) => RestoreView::Run { id: key, ip, name, args },
            ClaimView::Unsupported => RestoreView::Failed(unsupported_text(ip)),
        }
    } else {
        RestoreView::Skip
    }
}

/// The manager after a persisted surface was looked at.
pub open spec fn after_restore(m: ManagerView, key: Seq<u8>, ip: IpView, name: Option<Seq<char>>) -> ManagerView {
    if m.peers.contains_key(key) && claim_of(m, ip) is Free {
        after_settle(ManagerView { stack: stack_with(m.stack, ip, name), ..m }, key, ip, name)
    } else {
        m
    }
}

/// The manager after a record was looked at. One whose key cannot be read is
/// skipped.
pub open spec fn after_record_restore(m: ManagerView, r: RecordView) -> ManagerView {
    match key_of_text(r.key) {
        Some(key) => after_restore(m, key, r.ip, r.name),
        None => m,
    }
}

/// What becomes of a record.
pub open spec fn record_restore(m: ManagerView, r: RecordView) -> RestoreView {
    match key_of_text(r.key) {
        Some(key) => restore_of(m, key, r.ip, r.name),
        None => RestoreView::Skip,
    }
}

/// The manager after some records were looked at, one after the other.
pub open spec fn after_restores(m: ManagerView, records: Seq<RecordView>) -> ManagerView
    decreases records.len(),
{
    if records.len() == 0 {
        m
    } else {
        after_record_restore(after_restores(m, records.drop_last()), records.last())
    }
}

/// What becomes of some records.
pub open spec fn restores_of(m: ManagerView, records: Seq<RecordView>) -> Seq<RestoreView>
    decreases records.len(),
{
    if records.len() == 0 {
        seq![]
    } else {
        restores_of(m, records.drop_last()).push(
            record_restore(after_restores(m, records.drop_last()), records.last()),
        )
    }
}

/// The views of a sequence of outcomes.
pub open spec fn restore_views(r: Seq<Restore>) -> Seq<RestoreView> {
    Seq::new(r.len(), |i: int| r[i]@)
}

/// Releasing bindings changes nothing of a peer but its bindings, and nothing
/// of any other.
pub proof fn lemma_releases(m: ManagerView, key: Seq<u8>, ports: Seq<u16>)
    requires
        m.peers.contains_key(key),
    ensures
        ({
            let r = after_releases(m, key, ports);
            &&& r.peers == m.peers.insert(key, PeerView { bound: m.peers[key].bound.remove_keys(ports.to_set()), ..m.peers[key] })
            &&& r.session == m.session
            &&& r.host == m.host
            &&& r.self_name == m.self_name
            &&& r.platform == m.platform
            &&& r.next_conn == m.next_conn
            &&& r.stack is Some == m.stack is Some
            &&& m.stack is Some ==> r.stack->Some_0.names == m.stack->Some_0.names
        }),
    decreases ports.len(),
{
    let r = after_releases(m, key, ports);
    if ports.len() == 0 {
        assert(m.peers[key].bound.remove_keys(ports.to_set()) =~= m.peers[key].bound);
        assert(r.peers =~= m.peers.insert(
            key,
            PeerView { bound: m.peers[key].bound.remove_keys(ports.to_set()), ..m.peers[key] },
        ));
    } else {
        let init = ports.drop_last();
        lemma_releases(m, key, init);
        let before = m.peers[key].bound;
        assert(before.remove_keys(init.to_set()).remove(ports.last()) =~= before.remove_keys(ports.to_set())) by {
            assert forall|p: u16| ports.to_set().contains(p) <==> init.to_set().contains(p) || p == ports.last() by {
                if ports.contains(p) {
                    let i = choose|i: int| 0 <= i < ports.len() && ports[i] == p;
                    if i < init.len() {
                        assert(init[i] == p);
                    }
                }
                if init.contains(p) {
                    let i = choose|i: int| 0 <= i < init.len() && init[i] == p;
                    assert(ports[i] == p);
                }
                assert(ports[ports.len() - 1] == ports.last());
            }
        }
        assert(r.peers =~= m.peers.insert(
            key,
            PeerView { bound: m.peers[key].bound.remove_keys(ports.to_set()), ..m.peers[key] },
        ));
    }
}

impl PeerManager {
    /// Releases every binding of a peer.
    fn release_every(&mut self, id: &EndpointId) -> (fx: Vec<Effect>)
        requires
            old(self).wf(),
            old(self)@.peers.contains_key(id@),
        ensures
            final(self).wf(),
            final(self).clock() == old(self).clock(),
            final(self)@ == after_releases(old(self)@, id@, bound_ports(old(self)@.peers[id@])),
            effect_views(fx@) == releases_effects(old(self)@, id@, bound_ports(old(self)@.peers[id@])),
            final(self)@.peers == old(self)@.peers.insert(
                id@,
                PeerView { bound: Map::<u16, u64>::empty(), ..old(self)@.peers[id@] },
            ),
            final(self)@.session == old(self)@.session,
            final(self)@.stack is Some == old(self)@.stack is Some,
            final(self)@.platform == old(self)@.platform,
    {
        let ports = match self.peers.get(id) {
            Some(p) => p.bound(),
            None => Vec::new(),
        };
        proof {
            let bound = old(self)@.peers[id@].bound;
            lemma_releases(old(self)@, id@, ports@);
            assert(bound.remove_keys(ports@.to_set()) =~= Map::<u16, u64>::empty()) by {
                assert forall|p: u16| bound.contains_key(p) implies ports@.to_set().contains(p) by {
                    assert(bound.dom().contains(p));
                    assert(ports@.contains(p));
                }
            }
        }
        self.release_all(id, &ports)
    }

    /// Takes the surface of a peer down and hands back its address, with the
    /// command that gives it up.
    fn take_down(&mut self, id: &EndpointId) -> (r: (Vec<Effect>, Option<Vec<String>>))
        requires
            old(self).wf(),
            old(self)@.peers.contains_key(id@),
            old(self)@.peers[id@].surface is Some,
        ensures
            final(self).wf(),
            final(self).clock() == old(self).clock(),
            final(self)@ == after_teardown(old(self)@, id@),
            effect_views(r.0@) == releases_effects(old(self)@, id@, bound_ports(old(self)@.peers[id@])),
            opt_args(r.1) == unclaim_args(old(self)@, old(self)@.peers[id@].surface->Some_0.ip),
            final(self)@.peers.dom() == old(self)@.peers.dom(),
            final(self)@.peers[id@].label == old(self)@.peers[id@].label,
    {
        let ghost m = old(self)@;
        let at = match self.peers.get(id) {
            Some(p) => p.ip(),
            None => None,
        };
        let fx = self.release_every(id);
        self.peers.set_surface(id, None);
        proof {
            assert(self@.peers.dom() =~= m.peers.dom());
        }
        match at {
            Some(ip) => {
                let args = self.unclaim_addr(ip);
                assert(self@ =~= after_teardown(m, id@));
                (fx, args)
            },
            None => (fx, None),
        }
    }

    /// Fully evict a peer: close its connection, release every binding it
    /// holds, tear down its surface, clear grants naming it, and delete its
    /// records.
    pub fn evict(&mut self, id: &EndpointId, reason: &str) -> (fx: Vec<Effect>)
        requires
            old(self).wf(),
        ensures
            final(self).wf(),
            final(self).clock() == old(self).clock(),
            final(self)@ == after_evicted(old(self)@, id@),
            effect_views(fx@) == evict_effects(old(self)@, id@, reason@),
    {
        broadcast use group_effects;

        let ghost m = old(self)@;
        let mut fx: Vec<Effect> = Vec::new();
        let (conn, at) = match self.peers.get(id) {
            Some(p) => (p.conn(), p.ip()),
            None => {
                fx.push(Effect::DropSurface { key: id.to_string() });
                assert(effect_views(fx@) =~= evict_effects(m, id@, reason@));
                return fx;
            },
        };
        fx.push(Effect::Wake { peer: *id });
        if let Some(conn) = conn {
            fx.push(Effect::Close { conn, reason: reason.to_owned() });
        }
        assert(effect_views(fx@) =~= seq![EffectView::Wake { peer: id@ }] + close_effects(m.peers[id@], reason@));
        let mut released = self.release_every(id);
        let ghost r = self@;
        if let Some(ip) = at {
            if let Some(args) = self.unclaim_addr(ip) {
                released.push(Effect::Run { args });
            }
        }
        assert(effect_views(released@) =~= releases_effects(m, id@, bound_ports(m.peers[id@])) + (match m.peers[id@].surface {
            Some(s) => unclaim_effects(m, s.ip),
            None => seq![],
        }));
        fx.append(&mut released);
        let _ = self.peers.remove(id);
        let _ = self.session.evict(id);
        proof {
            assert(self@.peers =~= m.peers.remove(id@));
            lemma_releases(m, id@, bound_ports(m.peers[id@]));
            assert(self@ =~= after_evicted(m, id@));
            assert(self@.peers.dom() =~= self@.session.peers.dom());
        }
        fx.push(Effect::DropPin { key: id.to_string() });
        fx.push(Effect::DropSurface { key: id.to_string() });
        assert(effect_views(fx@) =~= evict_effects(m, id@, reason@));
        fx
    }

    /// Forget a peer, named by key or by the name we gave it.
    pub fn remove_peer(&mut self, peer_ref: &str) -> (r: Result<Vec<Effect>, PeerError>)
        requires
            old(self).wf(),
        ensures
            final(self).wf(),
            final(self).clock() == old(self).clock(),
            match resolved(old(self)@, key_of_text(peer_ref@), peer_ref@) {
                Some(key) => {
                    &&& final(self)@ == after_evicted(old(self)@, key)
                    &&& effects_result(r) == Ok::<Seq<EffectView>, PeerErrorView>(
                        evict_effects(old(self)@, key, "removed"@),
                    )
                },
                None => {
                    &&& final(self)@ == old(self)@
                    &&& effects_result(r) == Err::<Seq<EffectView>, PeerErrorView>(PeerErrorView::NoSuchPeer(peer_ref@))
                },
            },
    {
        match self.resolve_peer(peer_ref) {
            Some(id) => Ok(self.evict(&id, "removed")),
            None => Err(PeerError::NoSuchPeer(peer_ref.to_owned())),
        }
    }

    /// Project a peer's surface explicitly: pin an address (chosen or
    /// allocated) and a name, overriding whatever was set by itself. Without a
    /// name it gets the one it would get by itself. Ports already announced are
    /// bound at the new address after it.
    pub fn project_id(&mut self, id: &EndpointId, ip: Option<IpAddr>, name: Option<String>) -> (r: Projection)
        requires
            old(self).wf(),
            old(self)@.peers.contains_key(id@),
        ensures
            final(self).wf(),
            final(self).clock() == old(self).clock(),
            final(self)@ == after_project(old(self)@, id@, opt_ip(ip), opt_text(name)),
            effect_views(r.effects@) == project_effects(old(self)@, id@, opt_ip(ip), opt_text(name)),
            r.next@ == project_next(old(self)@, id@, opt_ip(ip), opt_text(name)),
    {
        broadcast use group_effects;

        let ghost m = old(self)@;
        let mut fx: Vec<Effect> = Vec::new();
        let (up, label) = match self.peers.get(id) {
            Some(p) => (p.ip().is_some(), p.label()),
            None => (false, None),
        };
        if up {
            let (mut released, args) = self.take_down(id);
            fx.append(&mut released);
            if let Some(args) = args {
                fx.push(Effect::Run { args });
            }
        }
        let ghost t = self@;
        assert(t == after_teardown(m, id@));
        assert(effect_views(fx@) =~= teardown_effects(m, id@));
        let name = match name {
            Some(n) => Some(n),
            None => Some(name_of(id, label)),
        };
        let ip = match ip {
            Some(ip) => ip,
            None => {
                let taken = self.projected_ips();
                match allocate_in(taken.as_slice(), self.surface_base()) {
                    Ok(ip) => ip,
                    Err(e) => {
                        return Projection { effects: fx, next: ProjectNext::Refused(e.to_string()) };
                    },
                }
            },
        };
        match self.claim_addr(ip, copy_opt(&name)) {
            Ok(None) => {
                let mut saved = self.settle(id, ip, name);
                fx.append(&mut saved);
                Projection { effects: fx, next: ProjectNext::Ready(*id) }
            },
            Ok(Some(args)) => {
                assert(self@ =~= t);
                Projection { effects: fx, next: ProjectNext::Run { id: *id, ip, name, args } }
            },
            Err(e) => {
                assert(self@ =~= t);
                Projection { effects: fx, next: ProjectNext::Refused(e) }
            },
        }
    }

    /// `project_id`, for a peer named by key or by the name we gave it.
    pub fn project(&mut self, peer_ref: &str, ip: Option<IpAddr>, name: Option<String>) -> (r: Projection)
        requires
            old(self).wf(),
        ensures
            final(self).wf(),
            final(self).clock() == old(self).clock(),
            match resolved(old(self)@, key_of_text(peer_ref@), peer_ref@) {
                Some(key) => {
                    &&& final(self)@ == after_project(old(self)@, key, opt_ip(ip), opt_text(name))
                    &&& effect_views(r.effects@) == project_effects(old(self)@, key, opt_ip(ip), opt_text(name))
                    &&& r.next@ == project_next(old(self)@, key, opt_ip(ip), opt_text(name))
                },
                None => {
                    &&& final(self)@ == old(self)@
                    &&& r.effects@.len() == 0
                    &&& r.next@ == ProjectNextView::Refused(
                        super::peer_error_text(PeerErrorView::NoSuchPeer(peer_ref@)),
                    )
                },
            },
    {
        match self.resolve_peer(peer_ref) {
            Some(id) => self.project_id(&id, ip, name),
            None => Projection {
                effects: Vec::new(),
                next: ProjectNext::Refused(PeerError::NoSuchPeer(peer_ref.to_owned()).to_string()),
            },
        }
    }

    /// Unproject a peer's surface: release every binding, drop the address and
    /// name. The peer stays connected; only its local reach is torn down.
    pub fn unproject(&mut self, peer_ref: &str) -> (r: Result<Vec<Effect>, PeerError>)
        requires
            old(self).wf(),
        ensures
            final(self).wf(),
            final(self).clock() == old(self).clock(),
            match resolved(old(self)@, key_of_text(peer_ref@), peer_ref@) {
                Some(key) => {
                    &&& final(self)@ == after_teardown(old(self)@, key)
                    &&& effects_result(r) == if old(self)@.peers[key].surface is Some {
                        Ok::<Seq<EffectView>, PeerErrorView>(unproject_effects(old(self)@, key))
                    } else {
                        Err(PeerErrorView::NotProjected(peer_ref@))
                    }
                },
                None => {
                    &&& final(self)@ == old(self)@
                    &&& effects_result(r) == Err::<Seq<EffectView>, PeerErrorView>(PeerErrorView::NoSuchPeer(peer_ref@))
                },
            },
    {
        broadcast use group_effects;

        let ghost m = old(self)@;
        let id = match self.resolve_peer(peer_ref) {
            Some(id) => id,
            None => {
                return Err(PeerError::NoSuchPeer(peer_ref.to_owned()));
            },
        };
        let up = match self.peers.get(&id) {
            Some(p) => p.ip().is_some(),
            None => false,
        };
        if !up {
            return Err(PeerError::NotProjected(peer_ref.to_owned()));
        }
        let (mut fx, args) = self.take_down(&id);
        if let Some(args) = args {
            fx.push(Effect::Require { args });
        }
        fx.push(Effect::DropSurface { key: id.to_string() });
        assert(effect_views(fx@) =~= unproject_effects(m, id@));
        Ok(fx)
    }

    /// Re-apply a persisted surface at startup, so that a projected peer keeps
    /// its address and name across a restart. Its ports are bound when it
    /// reconnects and announces them.
    pub fn restore_id(&mut self, id: &EndpointId, ip: IpAddr, name: Option<String>) -> (r: Restore)
        requires
            old(self).wf(),
        ensures
            final(self).wf(),
            final(self).clock() == old(self).clock(),
            final(self)@ == after_restore(old(self)@, id@, ip@, opt_text(name)),
            r@ == restore_of(old(self)@, id@, ip@, opt_text(name)),
    {
        if !self.peers.contains(id) {
            return Restore::Skip;
        }
        let ghost m = old(self)@;
        match self.claim_addr(ip, copy_opt(&name)) {
            Ok(None) => {
                self.put_surface(id, ip, name);
                Restore::Done
            },
            Ok(Some(args)) => {
                assert(self@ =~= m);
                Restore::Run { id: *id, ip, name, args }
            },
            Err(e) => {
                assert(self@ =~= m);
                Restore::Failed(e)
            },
        }
    }

    /// `restore_id`, for a record. One whose key cannot be read is skipped.
    pub fn restore_surface(&mut self, record: SurfaceRecord) -> (r: Restore)
        requires
            old(self).wf(),
        ensures
            final(self).wf(),
            final(self).clock() == old(self).clock(),
            final(self)@ == after_record_restore(old(self)@, record@),
            r@ == record_restore(old(self)@, record@),
    {
        match EndpointId::parse(record.key.as_str()) {
            Ok(id) => self.restore_id(&id, record.ip, record.name),
            Err(InvalidKey) => Restore::Skip,
        }
    }

    /// Re-apply the persisted surfaces, one after the other.
    pub fn restore_surfaces(&mut self, records: Vec<SurfaceRecord>) -> (r: Vec<Restore>)
        requires
            old(self).wf(),
        ensures
            final(self).wf(),
            final(self).clock() == old(self).clock(),
            final(self)@ == after_restores(old(self)@, record_views(records@)),
            restore_views(r@) == restores_of(old(self)@, record_views(records@)),
    {
        let ghost m = old(self)@;
        let ghost all = record_views(records@);
        let mut r: Vec<Restore> = Vec::new();
        assert(restore_views(r@) =~= restores_of(m, all.take(0)));
        for record in it: records
            invariant
                self.wf(),
                self.clock() == old(self).clock(),
                it.seq() == records@,
                all == record_views(records@),
                self@ == after_restores(m, all.take(it.index())),
                restore_views(r@) == restores_of(m, all.take(it.index())),
        {
            let ghost n = it.index();
            let ghost before = restore_views(r@);
            proof {
                assert(all.take(n + 1).drop_last() =~= all.take(n));
                assert(all.take(n + 1).last() == record@);
            }
            r.push(self.restore_surface(record));
            assert(restore_views(r@) =~= before.push(r@.last()@));
        }
        assert(all.take(records@.len() as int) =~= all);
        r
    }

    /// The command for a persisted surface has run: it is up again.
    pub fn restored(&mut self, id: &EndpointId, ip: IpAddr, name: Option<String>)
        requires
            old(self).wf(),
        ensures
            final(self).wf(),
            final(self).clock() == old(self).clock(),
            final(self)@ == after_settle(old(self)@, id@, ip@, opt_text(name)),
    {
        self.put_surface(id, ip, name);
    }
}

}
