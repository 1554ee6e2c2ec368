//! Surfaces and bindings: where a peer's ports are reachable.
//!
//! Bindings exist only while a peer is projected: with a surface, each
//! announced port binds under the surface's address; without one, the ports are
//! recorded but nothing is bound. A peer with no surface is projected on its
//! first announced port; `project` only overrides the address or the name.

use super::queries::{base_of, projected};
use super::{ManagerView, PeerManager};
use crate::addr::{IpAddr, IpView};
use crate::effect::{effect_views, group_effects, Effect, EffectView};
use crate::key::{default_name, default_name_spec, EndpointId};
use crate::netstack::{
    after_add_surface, after_listen, after_remove_surface, after_unlisten, StackView,
};
use crate::order::lemma_filter_step;
use crate::surface::{
    add_args, allocate_in, ensure_addr, free_address, is_stock, no_free_address_text, opt_args,
    remove_addr, remove_args, unsupported_text, Surface, SurfaceView,
};
use crate::table::{announced_ports, changed, held_ports, noted, surface_ip, PeerView};
use crate::text::{copy_opt, hex, opt_text, texts};
use vstd::prelude::*;

verus! {

// ------------------------------------------------------------------- release

/// The manager after one binding was released. On a TUN device the stack stops
/// listening, too.
pub open spec fn after_release(m: ManagerView, key: Seq<u8>, port: u16) -> ManagerView {
    if m.peers.contains_key(key) {
        ManagerView {
            peers: changed(m.peers, key, |p: PeerView| PeerView { bound: p.bound.remove(port), ..p }),
            stack: match (m.stack, surface_ip(m.peers[key])) {
                (Some(s), Some(IpView::V4(ip))) => Some(after_unlisten(s, ip, port)),
                _ => m.stack,
            },
            ..m
        }
    } else {
        m
    }
}

/// What releasing one binding calls for.
pub open spec fn release_effects(m: ManagerView, key: Seq<u8>, port: u16) -> Seq<EffectView> {
    if m.peers.contains_key(key) {
        let p = m.peers[key];
        (if p.bound.contains_key(port) {
            seq![EffectView::Stop { task: p.bound[port] }]
        } else {
            seq![]
        }) + (match (m.stack, surface_ip(p)) {
            (Some(s), Some(IpView::V4(ip))) => if s.listeners.contains((ip, port)) {
                seq![EffectView::Unlisten { ip, port }]
            } else {
                seq![]
            },
            _ => seq![],
        })
    } else {
        seq![]
    }
}

/// The manager after some bindings were released, one after the other.
pub open spec fn after_releases(m: ManagerView, key: Seq<u8>, ports: Seq<u16>) -> ManagerView
    decreases ports.len(),
{
    if ports.len() == 0 {
        m
    } else {
        after_release(after_releases(m, key, ports.drop_last()), key, ports.last())
    }
}

/// What releasing some bindings calls for.
pub open spec fn releases_effects(m: ManagerView, key: Seq<u8>, ports: Seq<u16>) -> Seq<EffectView>
    decreases ports.len(),
{
    if ports.len() == 0 {
        seq![]
    } else {
        releases_effects(m, key, ports.drop_last()) + release_effects(
            after_releases(m, key, ports.drop_last()),
            key,
            ports.last(),
        )
    }
}

// ------------------------------------------------------------------- address

/// What stands between an address and its use.
pub enum ClaimView {
    /// Nothing: it is ours
    Free,
    /// A command has to run first
    Run(Seq<Seq<char>>),
    /// This system cannot do it
    Unsupported,
}

/// What stands between an address and its use. A TUN device has every address
/// of its network.
pub open spec fn claim_of(m: ManagerView, ip: IpView) -> ClaimView {
    if m.stack is Some || is_stock(ip) || m.platform is Linux {
        ClaimView::Free
    } else if m.platform is MacOs {
        ClaimView::Run(add_args(ip))
    } else {
        ClaimView::Unsupported
    }
}

/// The stack, if there is one, after a surface came up at `ip`.
pub open spec fn stack_with(stack: Option<StackView>, ip: IpView, name: Option<Seq<char>>) -> Option<StackView> {
    match (stack, ip) {
        (Some(s), IpView::V4(v4)) => Some(after_add_surface(s, v4, name)),
        _ => stack,
    }
}

/// The stack, if there is one, after the surface at `ip` went down.
pub open spec fn stack_without(stack: Option<StackView>, ip: IpView) -> Option<StackView> {
    match (stack, ip) {
        (Some(s), IpView::V4(v4)) => Some(after_remove_surface(s, v4)),
        _ => stack,
    }
}

/// The command that gives an address up, where one has to run.
pub open spec fn unclaim_args(m: ManagerView, ip: IpView) -> Option<Seq<Seq<char>>> {
    if m.stack is Some || is_stock(ip) || !(m.platform is MacOs) {
        None
    } else {
        Some(remove_args(ip))
    }
}

/// Running the command that gives an address up, if one has to run.
pub open spec fn unclaim_effects(m: ManagerView, ip: IpView) -> Seq<EffectView> {
    match unclaim_args(m, ip) {
        Some(args) => seq![EffectView::Run { args }],
        None => seq![],
    }
}

/// The manager after the surface of a peer was put up at an address that is
/// ours.
pub open spec fn after_settle(m: ManagerView, key: Seq<u8>, ip: IpView, name: Option<Seq<char>>) -> ManagerView {
    ManagerView {
        peers: changed(m.peers, key, |p: PeerView| PeerView { surface: Some(SurfaceView { ip, name }), ..p }),
        ..m
    }
}

/// Writing the surface of a peer to disk.
pub open spec fn save_effects(key: Seq<u8>, ip: IpView, name: Option<Seq<char>>) -> Seq<EffectView> {
    seq![EffectView::SaveSurface { key: hex(key), ip, name }]
}

// ------------------------------------------------------------- announcements

/// The ports of `old_ports` that are not among `new_ports`.
pub open spec fn gone_ports(old_ports: Seq<u16>, new_ports: Seq<u16>) -> Seq<u16> {
    old_ports.filter(|p: u16| !new_ports.contains(p))
}

/// The manager after a peer announced `ports`: the bindings of those it no
/// longer announces are released. The ports are noted once its bindings are in
/// line with them.
pub open spec fn after_announced(m: ManagerView, key: Seq<u8>, ports: Seq<u16>) -> ManagerView {
    if m.peers.contains_key(key) {
        let r = after_releases(m, key, gone_ports(held_ports(m.peers[key]), ports));
        ManagerView { peers: changed(r.peers, key, |p: PeerView| PeerView { incoming: Some(ports), ..p }), ..r }
    } else {
        m
    }
}

/// The manager after the ports that a peer announced were noted.
pub open spec fn after_noted(m: ManagerView, key: Seq<u8>) -> ManagerView {
    ManagerView { peers: changed(m.peers, key, |p: PeerView| noted(p)), ..m }
}

/// What the announcement calls for at once.
pub open spec fn announced_effects(m: ManagerView, key: Seq<u8>, ports: Seq<u16>) -> Seq<EffectView> {
    if m.peers.contains_key(key) {
        releases_effects(m, key, gone_ports(held_ports(m.peers[key]), ports))
    } else {
        seq![]
    }
}

/// The name a surface gets by itself: what we call the peer, or a short form of
/// its key.
pub open spec fn auto_name(p: PeerView, key: Seq<u8>) -> Seq<char> {
    match p.label {
        Some(l) => l,
        None => default_name_spec(key),
    }
}

/// Where the ports of a peer can be bound.
#[derive(Debug, PartialEq, Eq)]
pub enum Place {
    /// At its surface; what was done to get there
    Ready(Vec<Effect>),
    /// There is nothing to bind
    Nothing,
    /// At `ip`, once a command has run
    Run { ip: IpAddr, name: Option<String>, args: Vec<String> },
    /// Nowhere
    Failed(String),
}

/// A place as plain values.
pub enum PlaceView {
    Ready(Seq<EffectView>),
    Nothing,
    Run { ip: IpView, name: Option<Seq<char>>, args: Seq<Seq<char>> },
    Failed(Seq<char>),
}

impl View for Place {
    type V = PlaceView;

    open spec fn view(&self) -> PlaceView {
        match *self {
            Place::Ready(fx) => PlaceView::Ready(effect_views(fx@)),
            Place::Nothing => PlaceView::Nothing,
            Place::Run { ip, name, args } => PlaceView::Run { ip: ip@, name: opt_text(name), args: texts(args@) },
            Place::Failed(e) => PlaceView::Failed(e@),
        }
    }
}

/// Where the ports of a peer can be bound: at its surface, or at one that is
/// projected now because it has none and announced a port.
pub open spec fn place_of(m: ManagerView, key: Seq<u8>, ports: Seq<u16>) -> PlaceView {
    if !m.peers.contains_key(key) {
        PlaceView::Nothing
    } else if m.peers[key].surface is Some {
        PlaceView::Ready(seq![])
    } else if ports.len() == 0 {
        PlaceView::Nothing
    } else {
        match free_address(projected(m), base_of(m)) {
            None => PlaceView::Failed(no_free_address_text(base_of(m))),
            Some(ip) => {
                let name = Some(auto_name(m.peers[key], key));
                match claim_of(m, ip) {
                    ClaimView::Free => PlaceView::Ready(save_effects(key, ip, name)),
                    ClaimView::Run(args) => PlaceView::Run { ip, name, args },
                    ClaimView::Unsupported => PlaceView::Failed(unsupported_text(ip)),
                }
            },
        }
    }
}

/// The manager after a place was found: a new surface is up if nothing stood in
/// its way.
pub open spec fn after_place(m: ManagerView, key: Seq<u8>, ports: Seq<u16>) -> ManagerView {
    if m.peers.contains_key(key) && m.peers[key].surface is None && ports.len() > 0 {
        match free_address(projected(m), base_of(m)) {
            Some(ip) => {
                let name = Some(auto_name(m.peers[key], key));
                if claim_of(m, ip) is Free {
                    after_settle(ManagerView { stack: stack_with(m.stack, ip, name), ..m }, key, ip, name)
                } else {
                    m
                }
            },
            None => m,
        }
    } else {
        m
    }
}

// ------------------------------------------------------------------- binding

/// How one port of a peer gets bound.
#[derive(Debug, PartialEq, Eq)]
pub enum BindStep {
    /// There is nothing to do: it is bound, not announced, or has nowhere to be
    Skip,
    /// The stack listens for it
    Listening(Vec<Effect>),
    /// A listener has to be bound here; `on_bound` reports it
    Bind { ip: IpAddr, port: u16 },
}

/// A step as plain values.
pub enum BindStepView {
    Skip,
    Listening(Seq<EffectView>),
    Bind { ip: IpView, port: u16 },
}

impl View for BindStep {
    type V = BindStepView;

    open spec fn view(&self) -> BindStepView {
        match *self {
            BindStep::Skip => BindStepView::Skip,
            BindStep::Listening(fx) => BindStepView::Listening(effect_views(fx@)),
            BindStep::Bind { ip, port } => BindStepView::Bind { ip: ip@, port },
        }
    }
}

/// Whether a port of a peer is to be bound.
pub open spec fn wants_binding(m: ManagerView, key: Seq<u8>, port: u16) -> bool {
    may_bind(m, key, port) && !m.peers[key].bound.contains_key(port)
}

/// Whether a port of a peer may be bound: the peer is projected, and the port is
/// among those it announced last.
pub open spec fn may_bind(m: ManagerView, key: Seq<u8>, port: u16) -> bool {
    m.peers.contains_key(key) && m.peers[key].surface is Some && announced_ports(m.peers[key]).contains(port)
}

/// How one port of a peer gets bound.
pub open spec fn bind_step(m: ManagerView, key: Seq<u8>, port: u16) -> BindStepView {
    if !wants_binding(m, key, port) {
        BindStepView::Skip
    } else {
        match (m.stack, m.peers[key].surface->Some_0.ip) {
            (Some(s), IpView::V4(ip)) => BindStepView::Listening(
                if s.listeners.contains((ip, port)) {
                    seq![]
                } else {
                    seq![EffectView::Listen { ip, port }]
                },
            ),
            (_, ip) => BindStepView::Bind { ip, port },
        }
    }
}

/// The manager after the stack was told to listen for a port, where it is the
/// stack that does; `task` stands for the binding.
pub open spec fn after_bind(m: ManagerView, key: Seq<u8>, port: u16, task: u64) -> ManagerView {
    if bind_step(m, key, port) is Listening {
        let ip = m.peers[key].surface->Some_0.ip->V4_0;
        ManagerView {
            peers: changed(m.peers, key, |p: PeerView| PeerView { bound: p.bound.insert(port, task), ..p }),
            stack: Some(after_listen(m.stack->Some_0, ip, port)),
            ..m
        }
    } else {
        m
    }
}

/// The manager after `task` began to serve a port that may be bound.
pub open spec fn after_bound(m: ManagerView, key: Seq<u8>, port: u16, task: u64) -> ManagerView {
    if may_bind(m, key, port) {
        ManagerView {
            peers: changed(m.peers, key, |p: PeerView| PeerView { bound: p.bound.insert(port, task), ..p }),
            ..m
        }
    } else {
        m
    }
}

/// What a listener that was bound calls for: nothing, or it is stopped again.
pub open spec fn bound_effects(m: ManagerView, key: Seq<u8>, port: u16, task: u64) -> Seq<EffectView> {
    if may_bind(m, key, port) {
        seq![]
    } else {
        seq![EffectView::Stop { task }]
    }
}

impl PeerManager {
    /// Release one binding. On the TUN backend, also tells the stack to stop
    /// listening.
    fn release_binding(&mut self, id: &EndpointId, port: u16) -> (fx: Vec<Effect>)
        requires
            old(self).wf(),
        ensures
            final(self).wf(),
            final(self).clock() == old(self).clock(),
            final(self)@ == after_release(old(self)@, id@, port),
            effect_views(fx@) == release_effects(old(self)@, id@, port),
    {
        broadcast use group_effects;

        let ghost m = old(self)@;
        let mut fx: Vec<Effect> = Vec::new();
        let at = match self.peers.get(id) {
            Some(p) => p.ip(),
            None => {
                return fx;
            },
        };
        if let Some(task) = self.peers.unbind(id, port) {
            fx.push(Effect::Stop { task });
            assert(effect_views(fx@) =~= seq![EffectView::Stop { task }]);
        }
        if let Some(stack) = &mut self.stack {
            if let Some(IpAddr::V4(ip)) = at {
                if stack.unlisten(ip, port) {
                    fx.push(Effect::Unlisten { ip, port });
                }
            }
        }
        proof {
            assert(self@ =~= after_release(m, id@, port));
            assert(effect_views(fx@) =~= release_effects(m, id@, port));
            assert(self@.peers.dom() =~= m.peers.dom());
            assert forall|k: Seq<u8>| #[trigger] self@.peers.contains_key(k) implies super::binds_what_it_announces(
                self@.peers[k],
            ) by {
                assert(m.peers.contains_key(k));
                if k == id@ && m.peers[k].surface is None {
                    assert(self@.peers[k].bound =~= Map::<u16, u64>::empty());
                }
            }
        }
        fx
    }

    /// Release some bindings, one after the other.
    pub(super) fn release_all(&mut self, id: &EndpointId, ports: &Vec<u16>) -> (fx: Vec<Effect>)
        requires
            old(self).wf(),
        ensures
            final(self).wf(),
            final(self).clock() == old(self).clock(),
            final(self)@ == after_releases(old(self)@, id@, ports@),
            effect_views(fx@) == releases_effects(old(self)@, id@, ports@),
    {
        broadcast use group_effects;

        let ghost m = old(self)@;
        let mut fx: Vec<Effect> = Vec::new();
        let mut i: usize = 0;
        while i < ports.len()
            invariant
                i <= ports@.len(),
                self.wf(),
                self.clock() == old(self).clock(),
                self@ == after_releases(m, id@, ports@.take(i as int)),
                effect_views(fx@) == releases_effects(m, id@, ports@.take(i as int)),
            decreases ports@.len() - i,
        {
            proof {
                assert(ports@.take(i + 1).drop_last() =~= ports@.take(i as int));
                assert(ports@.take(i + 1).last() == ports@[i as int]);
            }
            let mut more = self.release_binding(id, ports[i]);
            fx.append(&mut more);
            i = i + 1;
        }
        assert(ports@.take(ports@.len() as int) =~= ports@);
        fx
    }

    /// A peer announced its ports: the bindings of those it no longer announces
    /// are released.
    pub(super) fn take_ports(&mut self, id: &EndpointId, ports: Vec<u16>) -> (fx: Vec<Effect>)
        requires
            old(self).wf(),
        ensures
            final(self).wf(),
            final(self).clock() == old(self).clock(),
            final(self)@ == after_announced(old(self)@, id@, ports@),
            effect_views(fx@) == announced_effects(old(self)@, id@, ports@),
    {
        broadcast use group_effects;

        let ghost m = old(self)@;
        let old_ports = match self.peers.get(id) {
            Some(p) => p.held(),
            None => {
                return Vec::new();
            },
        };
        let gone = ports_without(&old_ports, &ports);
        let fx = self.release_all(id, &gone);
        let ghost r = self@;
        self.peers.set_incoming(id, ports);
        proof {
            assert(self@ =~= after_announced(m, id@, ports@));
            lemma_gone_is_released(m, id@, ports@);
            assert(self@.peers.dom() =~= r.peers.dom());
            assert forall|k: Seq<u8>| #[trigger] self@.peers.contains_key(k) implies super::binds_what_it_announces(
                self@.peers[k],
            ) by {
                assert(r.peers.contains_key(k));
            }
        }
        fx
    }

    /// The bindings of a peer are in line with the ports it announced: they are
    /// noted.
    pub(super) fn note_ports(&mut self, id: &EndpointId)
        requires
            old(self).wf(),
        ensures
            final(self).wf(),
            final(self).clock() == old(self).clock(),
            final(self)@ == after_noted(old(self)@, id@),
    {
        self.peers.note_incoming(id);
        proof {
            assert(self@ =~= after_noted(old(self)@, id@));
            assert(self@.peers.dom() =~= old(self)@.peers.dom());
        }
    }

    /// Claim a surface address: on the TUN backend, add its name to the stack;
    /// on loopback, say what has to run first.
    pub(super) fn claim_addr(&mut self, ip: IpAddr, name: Option<String>) -> (r: Result<Option<Vec<String>>, String>)
        requires
            old(self).wf(),
        ensures
            final(self).wf(),
            final(self).clock() == old(self).clock(),
            final(self)@ == (ManagerView { stack: stack_with(old(self)@.stack, ip@, opt_text(name)), ..old(self)@ }),
            match claim_of(old(self)@, ip@) {
                ClaimView::Free => r is Ok && r->Ok_0 is None,
                ClaimView::Run(args) => r is Ok && opt_args(r->Ok_0) == Some(args),
                ClaimView::Unsupported => r is Err && r->Err_0@ == unsupported_text(ip@),
            },
    {
        if let Some(stack) = &mut self.stack {
            if let IpAddr::V4(v4) = ip {
                stack.add_surface(v4, name);
            }
            assert(self@ =~= (ManagerView { stack: stack_with(old(self)@.stack, ip@, opt_text(name)), ..old(self)@ }));
            return Ok(None);
        }
        match ensure_addr(self.platform, ip) {
            Ok(args) => Ok(args),
            Err(e) => Err(e.to_string()),
        }
    }

    /// Reverse of `claim_addr`: the command to run, if there is one.
    pub(super) fn unclaim_addr(&mut self, ip: IpAddr) -> (r: Option<Vec<String>>)
        requires
            old(self).wf(),
        ensures
            final(self).wf(),
            final(self).clock() == old(self).clock(),
            final(self)@ == (ManagerView { stack: stack_without(old(self)@.stack, ip@), ..old(self)@ }),
            opt_args(r) == unclaim_args(old(self)@, ip@),
    {
        if let Some(stack) = &mut self.stack {
            if let IpAddr::V4(v4) = ip {
                stack.remove_surface(v4);
            }
            assert(self@ =~= (ManagerView { stack: stack_without(old(self)@.stack, ip@), ..old(self)@ }));
            return None;
        }
        remove_addr(self.platform, ip)
    }

    /// Notes the surface of a peer.
    pub(super) fn put_surface(&mut self, id: &EndpointId, ip: IpAddr, name: Option<String>)
        requires
            old(self).wf(),
        ensures
            final(self).wf(),
            final(self).clock() == old(self).clock(),
            final(self)@ == after_settle(old(self)@, id@, ip@, opt_text(name)),
    {
        self.peers.set_surface(id, Some(Surface { ip, name }));
        proof {
            assert(self@ =~= after_settle(old(self)@, id@, ip@, opt_text(name)));
            assert(self@.peers.dom() =~= old(self)@.peers.dom());
        }
    }

    /// The command for an address has run: the surface of the peer is up, and
    /// written to disk.
    pub fn settle(&mut self, id: &EndpointId, ip: IpAddr, name: Option<String>) -> (fx: Vec<Effect>)
        requires
            old(self).wf(),
        ensures
            final(self).wf(),
            final(self).clock() == old(self).clock(),
            final(self)@ == after_settle(old(self)@, id@, ip@, opt_text(name)),
            effect_views(fx@) == save_effects(id@, ip@, opt_text(name)),
    {
        broadcast use group_effects;

        let mut fx: Vec<Effect> = Vec::new();
        let saved = copy_opt(&name);
        self.put_surface(id, ip, name);
        fx.push(Effect::SaveSurface { key: id.to_string(), ip, name: saved });
        assert(effect_views(fx@) =~= save_effects(id@, ip@, opt_text(name)));
        fx
    }

    /// The address to bind a peer's ports at: its existing surface, or a
    /// freshly projected one when it has ports to bind and none yet.
    pub fn place(&mut self, id: &EndpointId, ports: &Vec<u16>) -> (r: Place)
        requires
            old(self).wf(),
        ensures
            final(self).wf(),
            final(self).clock() == old(self).clock(),
            final(self)@ == after_place(old(self)@, id@, ports@),
            r@ == place_of(old(self)@, id@, ports@),
    {
        broadcast use group_effects;

        let ghost m = old(self)@;
        let label = match self.peers.get(id) {
            Some(p) => {
                if p.ip().is_some() {
                    let none: Vec<Effect> = Vec::new();
                    return Place::Ready(none);
                }
                p.label()
            },
            None => {
                return Place::Nothing;
            },
        };
        if ports.len() == 0 {
            return Place::Nothing;
        }
        let taken = self.projected_ips();
        let ip = match allocate_in(taken.as_slice(), self.surface_base()) {
            Ok(ip) => ip,
            Err(e) => {
                return Place::Failed(e.to_string());
            },
        };
        let name = Some(name_of(id, label));
        match self.claim_addr(ip, copy_opt(&name)) {
            Ok(None) => {
                let fx = self.settle(id, ip, name);
                assert(self@ =~= after_place(m, id@, ports@));
                Place::Ready(fx)
            },
            Ok(Some(args)) => {
                assert(self@ =~= m);
                Place::Run { ip, name, args }
            },
            Err(e) => {
                assert(self@ =~= m);
                Place::Failed(e)
            },
        }
    }

    /// Bind one port of a peer under its surface. On the TUN backend the stack
    /// listens and `task` stands for the binding.
    pub fn bind_one(&mut self, id: &EndpointId, port: u16, task: u64) -> (r: BindStep)
        requires
            old(self).wf(),
        ensures
            final(self).wf(),
            final(self).clock() == old(self).clock(),
            final(self)@ == after_bind(old(self)@, id@, port, task),
            r@ == bind_step(old(self)@, id@, port),
    {
        broadcast use group_effects;

        let ghost m = old(self)@;
        let at = match self.peers.get(id) {
            Some(p) => {
                if p.is_bound(port) || !has_port(&p.announced(), port) {
                    return BindStep::Skip;
                }
                p.ip()
            },
            None => {
                return BindStep::Skip;
            },
        };
        let ip = match at {
            Some(ip) => ip,
            None => {
                return BindStep::Skip;
            },
        };
        if let Some(stack) = &mut self.stack {
            if let IpAddr::V4(v4) = ip {
                let mut fx: Vec<Effect> = Vec::new();
                if stack.listen(v4, port) {
                    fx.push(Effect::Listen { ip: v4, port });
                    assert(effect_views(fx@) =~= seq![EffectView::Listen { ip: v4@, port }]);
                }
                self.peers.bind(id, port, task);
                proof {
                    assert(self@ =~= after_bind(m, id@, port, task));
                    assert(self@.peers.dom() =~= m.peers.dom());
                }
                return BindStep::Listening(fx);
            }
        }
        BindStep::Bind { ip, port }
    }

    /// A listener was bound for a port of a peer, and `task` serves it. If the
    /// peer is gone, no longer projected, or no longer announces the port, the
    /// task is stopped again.
    pub fn on_bound(&mut self, id: &EndpointId, port: u16, task: u64) -> (fx: Vec<Effect>)
        requires
            old(self).wf(),
        ensures
            final(self).wf(),
            final(self).clock() == old(self).clock(),
            final(self)@ == after_bound(old(self)@, id@, port, task),
            effect_views(fx@) == bound_effects(old(self)@, id@, port, task),
    {
        broadcast use group_effects;

        let mut fx: Vec<Effect> = Vec::new();
        let projected = match self.peers.get(id) {
            Some(p) => p.ip().is_some() && has_port(&p.announced(), port),
            None => false,
        };
        if projected {
            self.peers.bind(id, port, task);
            proof {
                assert(self@ =~= after_bound(old(self)@, id@, port, task));
                assert(self@.peers.dom() =~= old(self)@.peers.dom());
            }
        } else {
            fx.push(Effect::Stop { task });
            assert(effect_views(fx@) =~= seq![EffectView::Stop { task }]);
        }
        fx
    }
}

/// What is still bound once the ports that are gone were released is among the
/// new ports.
pub(super) proof fn lemma_gone_is_released(m: ManagerView, key: Seq<u8>, ports: Seq<u16>)
    requires
        m.peers.contains_key(key),
        super::binds_what_it_announces(m.peers[key]),
    ensures
        ({
            let r = after_announced(m, key, ports);
            &&& super::binds_what_it_announces(r.peers[key])
            &&& r.peers.contains_key(key)
            &&& r.peers[key] == (PeerView { incoming: Some(ports), bound: r.peers[key].bound, ..m.peers[key] })
            &&& forall|k: Seq<u8>| k != key ==> (#[trigger] r.peers.contains_key(k) == m.peers.contains_key(k)) && r.peers[k] == m.peers[k]
            &&& r.session == m.session
        }),
{
    broadcast use vstd::seq_lib::group_filter_ensures;

    let held = held_ports(m.peers[key]);
    let gone = gone_ports(held, ports);
    let keep = |p: u16| !ports.contains(p);
    super::projection::lemma_releases(m, key, gone);
    let r = after_announced(m, key, ports);
    assert forall|p: u16| #[trigger] r.peers[key].bound.contains_key(p) implies ports.contains(p) by {
        if !ports.contains(p) {
            assert(m.peers[key].bound.contains_key(p));
            let last = announced_ports(m.peers[key]);
            let j = choose|j: int| 0 <= j < last.len() && last[j] == p;
            let i = held.len() - last.len() + j;
            assert(held[i] == p);
            assert(keep(held[i]));
            assert(gone.contains(p));
            assert(gone.to_set().contains(p));
        }
    }
    if m.peers[key].surface is None {
        assert(r.peers[key].bound =~= Map::<u16, u64>::empty());
    }
}

/// The name a surface gets by itself: what we call the peer, or a short form of
/// its key.
pub(super) fn name_of(id: &EndpointId, label: Option<String>) -> (name: String)
    ensures
        name@ == match opt_text(label) {
            Some(l) => l,
            None => default_name_spec(id@),
        },
{
    match label {
        Some(l) => l,
        None => default_name(id),
    }
}

/// The ports of `ports` that are not among `others`.
fn ports_without(ports: &Vec<u16>, others: &Vec<u16>) -> (r: Vec<u16>)
    ensures
        r@ == gone_ports(ports@, others@),
{
    let ghost keep = |p: u16| !others@.contains(p);
    let mut r: Vec<u16> = Vec::new();
    let mut i: usize = 0;
    proof {
        reveal(Seq::filter);
        assert(r@ =~= ports@.take(0).filter(keep));
    }
    while i < ports.len()
        invariant
            i <= ports@.len(),
            keep == (|p: u16| !others@.contains(p)),
            r@ == ports@.take(i as int).filter(keep),
        decreases ports@.len() - i,
    {
        proof {
            lemma_filter_step(ports@, keep, i as int);
        }
        if !has_port(others, ports[i]) {
            r.push(ports[i]);
        }
        i = i + 1;
    }
    assert(ports@.take(ports@.len() as int) =~= ports@);
    r
}

/// Whether `ports` holds `port`.
fn has_port(ports: &Vec<u16>, port: u16) -> (r: bool)
    ensures
        r == ports@.contains(port),
{
    let mut i: usize = 0;
    while i < ports.len()
        invariant
            i <= ports@.len(),
            forall|j: int| 0 <= j < i ==> ports@[j] != port,
        decreases ports@.len() - i,
    {
        if ports[i] == port {
            return true;
        }
        i = i + 1;
    }
    false
}

}
