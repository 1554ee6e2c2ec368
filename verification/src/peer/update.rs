//! How the bindings of a peer are brought in line with the ports it announced.
//!
//! The shell runs one update at a time: it performs the step it is told,
//! reports how that ended, and is told the next one. First the bindings of
//! ports that are gone are released, then a place for the others is found, then
//! they are bound there one after the other, and at the end the ports are noted.
//! After a projection the ports are bound in the same way.

use super::reach::{
    after_announced, after_bind, after_bound, after_noted, after_place, after_settle, announced_effects, bind_step,
    bound_effects, place_of, save_effects, BindStep, BindStepView, Place, PlaceView,
};
use super::{ManagerView, PeerManager};
use crate::addr::{IpAddr, IpView};
use crate::effect::{effect_views, group_effects, Effect, EffectView};
use crate::key::EndpointId;
use crate::link::{bind_retry, BIND_ATTEMPTS, BIND_RETRY_DELAY};
use crate::table::announced_ports;
use crate::text::{opt_text, texts};
use vstd::prelude::*;

verus! {

/// What an update does next.
#[derive(Debug, PartialEq, Eq)]
pub enum UpdateStep {
    /// Carry out effects
    Perform(Vec<Effect>),
    /// Run `ifconfig` with these arguments
    Run { args: Vec<String> },
    /// Bind a listener, and serve it with a task
    Bind { ip: IpAddr, port: u16 },
    /// Wait, in milliseconds
    Wait { delay: u64 },
    /// End: the ports have nowhere to be, for this reason
    Failed(String),
    /// End
    Done,
}

/// A step as plain values.
pub enum UpdateStepView {
    Perform(Seq<EffectView>),
    Run { args: Seq<Seq<char>> },
    Bind { ip: IpView, port: u16 },
    Wait { delay: u64 },
    Failed(Seq<char>),
    Done,
}

impl View for UpdateStep {
    type V = UpdateStepView;

    open spec fn view(&self) -> UpdateStepView {
        match *self {
            UpdateStep::Perform(fx) => UpdateStepView::Perform(effect_views(fx@)),
            UpdateStep::Run { args } => UpdateStepView::Run { args: texts(args@) },
            UpdateStep::Bind { ip, port } => UpdateStepView::Bind { ip: ip@, port },
            UpdateStep::Wait { delay } => UpdateStepView::Wait { delay },
            UpdateStep::Failed(e) => UpdateStepView::Failed(e@),
            UpdateStep::Done => UpdateStepView::Done,
        }
    }
}

/// How a step ended.
#[derive(Copy, Clone, PartialEq, Eq, Debug)]
pub enum UpdateEvent {
    /// The effects were carried out
    Performed,
    /// The command ran
    Ran,
    /// The command failed
    RunFailed,
    /// The listener was bound
    Bound,
    /// The listener could not be bound
    BindFailed,
    /// The delay is over
    Waited,
}

/// Where an update stands.
#[derive(Debug)]
enum Phase {
    /// What is gone is being released
    Placing,
    /// A command is running for an address
    Claiming { ip: IpAddr, name: Option<String> },
    /// The next port can be bound
    Ports,
    /// A listener for the next port is being bound
    Binding { ip: IpAddr },
    /// It could not be bound just now
    Waiting { ip: IpAddr },
    /// There is nothing left to do
    Over,
}

/// Where an update stands, as plain values.
pub enum PhaseView {
    Placing,
    Claiming { ip: IpView, name: Option<Seq<char>> },
    Ports,
    Binding { ip: IpView },
    Waiting { ip: IpView },
    Over,
}

impl View for Phase {
    type V = PhaseView;

    closed spec fn view(&self) -> PhaseView {
        match *self {
            Phase::Placing => PhaseView::Placing,
            Phase::Claiming { ip, name } => PhaseView::Claiming { ip: ip@, name: opt_text(name) },
            Phase::Ports => PhaseView::Ports,
            Phase::Binding { ip } => PhaseView::Binding { ip: ip@ },
            Phase::Waiting { ip } => PhaseView::Waiting { ip: ip@ },
            Phase::Over => PhaseView::Over,
        }
    }
}

/// An update of one peer.
#[derive(Debug)]
pub struct Update {
    id: EndpointId,
    /// The ports that it announced
    ports: Vec<u16>,
    /// How many of them were dealt with
    next: usize,
    /// How often the next one could not be bound
    failed: u32,
    /// Those that were given up
    dark: Vec<u16>,
    phase: Phase,
}

/// An update as plain values.
pub struct UpdateView {
    pub key: Seq<u8>,
    pub ports: Seq<u16>,
    pub next: int,
    pub failed: u32,
    pub dark: Seq<u16>,
    pub phase: PhaseView,
}

impl View for Update {
    type V = UpdateView;

    closed spec fn view(&self) -> UpdateView {
        UpdateView {
            key: self.id@,
            ports: self.ports@,
            next: self.next as int,
            failed: self.failed,
            dark: self.dark@,
            phase: self.phase@,
        }
    }
}

/// What holds of every update: no more ports were dealt with than there are, a
/// listener is bound for one that is left, and it was not given up yet.
pub open spec fn valid_update(u: UpdateView) -> bool {
    &&& 0 <= u.next <= u.ports.len()
    &&& u.failed < BIND_ATTEMPTS
    &&& u.phase is Binding || u.phase is Waiting ==> u.next < u.ports.len()
    &&& u.phase is Waiting ==> u.failed > 0
    &&& !(u.phase is Binding) && !(u.phase is Waiting) && !(u.phase is Over) ==> u.failed == 0
    &&& u.phase is Placing || u.phase is Claiming ==> u.next == 0
}

/// What becomes of a step: the manager, the update, and the step that follows.
pub struct Turn {
    pub peers: ManagerView,
    pub update: UpdateView,
    pub step: UpdateStepView,
}

/// The update of a peer that announced `ports`.
pub open spec fn update_start(m: ManagerView, key: Seq<u8>, ports: Seq<u16>) -> Turn {
    Turn {
        peers: after_announced(m, key, ports),
        update: UpdateView { key, ports, next: 0, failed: 0, dark: seq![], phase: PhaseView::Placing },
        step: UpdateStepView::Perform(announced_effects(m, key, ports)),
    }
}

/// The update of a peer that was projected: the ports it announced before are
/// bound at its surface.
pub open spec fn rebind_start(m: ManagerView, key: Seq<u8>) -> Turn {
    let ports = if m.peers.contains_key(key) {
        announced_ports(m.peers[key])
    } else {
        seq![]
    };
    Turn {
        peers: m,
        update: UpdateView { key, ports, next: 0, failed: 0, dark: seq![], phase: PhaseView::Ports },
        step: UpdateStepView::Perform(seq![]),
    }
}

/// The update ends: the ports are noted.
pub open spec fn ended(m: ManagerView, u: UpdateView, step: UpdateStepView) -> Turn {
    Turn { peers: after_noted(m, u.key), update: UpdateView { phase: PhaseView::Over, ..u }, step }
}

/// The next port was dealt with.
pub open spec fn port_done(u: UpdateView) -> UpdateView {
    UpdateView { next: u.next + 1, failed: 0, phase: PhaseView::Ports, ..u }
}

/// What becomes of the next port.
pub open spec fn port_turn(m: ManagerView, u: UpdateView, task: u64) -> Turn {
    let port = u.ports[u.next];
    match bind_step(m, u.key, port) {
        BindStepView::Skip => Turn { peers: m, update: port_done(u), step: UpdateStepView::Perform(seq![]) },
        BindStepView::Listening(fx) => Turn {
            peers: after_bind(m, u.key, port, task),
            update: port_done(u),
            step: UpdateStepView::Perform(fx),
        },
        BindStepView::Bind { ip, port } => Turn {
            peers: m,
            update: UpdateView { phase: PhaseView::Binding { ip }, ..u },
            step: UpdateStepView::Bind { ip, port },
        },
    }
}

/// What follows when a place for the ports is looked for.
pub open spec fn place_turn(m: ManagerView, u: UpdateView) -> Turn {
    let after = after_place(m, u.key, u.ports);
    match place_of(m, u.key, u.ports) {
        PlaceView::Ready(fx) => Turn {
            peers: after,
            update: UpdateView { phase: PhaseView::Ports, ..u },
            step: UpdateStepView::Perform(fx),
        },
        PlaceView::Run { ip, name, args } => Turn {
            peers: after,
            update: UpdateView { phase: PhaseView::Claiming { ip, name }, ..u },
            step: UpdateStepView::Run { args },
        },
        PlaceView::Failed(e) => ended(after, u, UpdateStepView::Failed(e)),
        PlaceView::Nothing => ended(after, u, UpdateStepView::Done),
    }
}

/// What follows when the next port could not be bound: another attempt after a
/// while, or it is given up.
pub open spec fn retry_turn(m: ManagerView, u: UpdateView, ip: IpView) -> Turn {
    if u.failed + 1 < BIND_ATTEMPTS {
        Turn {
            peers: m,
            update: UpdateView { failed: (u.failed + 1) as u32, phase: PhaseView::Waiting { ip }, ..u },
            step: UpdateStepView::Wait { delay: BIND_RETRY_DELAY },
        }
    } else {
        Turn {
            peers: m,
            update: UpdateView { dark: u.dark.push(u.ports[u.next]), ..port_done(u) },
            step: UpdateStepView::Perform(seq![]),
        }
    }
}

/// What follows an event. `task` stands for what is bound by it. An event that
/// does not belong to the step ends the update.
pub open spec fn update_turn(m: ManagerView, u: UpdateView, e: UpdateEvent, task: u64) -> Turn {
    match (u.phase, e) {
        (PhaseView::Over, _) => Turn { peers: m, update: u, step: UpdateStepView::Done },
        (PhaseView::Placing, UpdateEvent::Performed) => place_turn(m, u),
        (PhaseView::Claiming { ip, name }, UpdateEvent::Ran) => Turn {
            peers: after_settle(m, u.key, ip, name),
            update: UpdateView { phase: PhaseView::Ports, ..u },
            step: UpdateStepView::Perform(save_effects(u.key, ip, name)),
        },
        (PhaseView::Ports, UpdateEvent::Performed) => if u.next < u.ports.len() {
            port_turn(m, u, task)
        } else {
            ended(m, u, UpdateStepView::Done)
        },
        (PhaseView::Binding { .. }, UpdateEvent::Bound) => Turn {
            peers: after_bound(m, u.key, u.ports[u.next], task),
            update: port_done(u),
            step: UpdateStepView::Perform(bound_effects(m, u.key, u.ports[u.next], task)),
        },
        (PhaseView::Binding { ip }, UpdateEvent::BindFailed) => retry_turn(m, u, ip),
        (PhaseView::Waiting { ip }, UpdateEvent::Waited) => Turn {
            peers: m,
            update: UpdateView { phase: PhaseView::Binding { ip }, ..u },
            step: UpdateStepView::Bind { ip, port: u.ports[u.next] },
        },
        _ => ended(m, u, UpdateStepView::Done),
    }
}

impl Update {
    /// No more ports were dealt with than there are, and what is being bound is
    /// one that is left.
    pub open spec fn wf(&self) -> bool {
        valid_update(self@)
    }

    /// The ports that could not be bound.
    pub fn dark(&self) -> (r: &Vec<u16>)
        ensures
            r@ == self@.dark,
    {
        &self.dark
    }
}

impl PeerManager {
    /// A peer announced its ports: its update begins.
    ///
    /// Bindings exist only while the peer is projected: with a surface, each
    /// announced port binds under the surface's address; without one, the ports
    /// are recorded but nothing is bound. A unique address per surface means no
    /// two peers contend for one.
    pub fn begin_update(&mut self, id: EndpointId, ports: Vec<u16>) -> (r: (Update, UpdateStep))
        requires
            old(self).wf(),
        ensures
            final(self).wf(),
            final(self).clock() == old(self).clock(),
            r.0.wf(),
            (Turn { peers: final(self)@, update: r.0@, step: r.1@ }) == update_start(old(self)@, id@, ports@),
    {
        let taken = ports.clone();
        assert(taken@ =~= ports@);
        let fx = self.take_ports(&id, taken);
        let dark: Vec<u16> = Vec::new();
        let u = Update { id, ports, next: 0, failed: 0, dark, phase: Phase::Placing };
        assert(u@.dark =~= seq![]);
        (u, UpdateStep::Perform(fx))
    }

    /// A peer was projected: what it announced is bound at its surface.
    pub fn begin_rebind(&self, id: EndpointId) -> (r: (Update, UpdateStep))
        requires
            self.wf(),
        ensures
            r.0.wf(),
            (Turn { peers: self@, update: r.0@, step: r.1@ }) == rebind_start(self@, id@),
    {
        broadcast use group_effects;

        let ports = self.announced_by(&id);
        let dark: Vec<u16> = Vec::new();
        let none: Vec<Effect> = Vec::new();
        let u = Update { id, ports, next: 0, failed: 0, dark, phase: Phase::Ports };
        assert(u@.dark =~= seq![]);
        (u, UpdateStep::Perform(none))
    }

    /// The step after `event`. Where a listener was bound, `task` serves it;
    /// where the stack listens for a port, `task` stands for the binding.
    pub fn on_update(&mut self, u: &mut Update, event: UpdateEvent, task: u64) -> (r: UpdateStep)
        requires
            old(self).wf(),
            old(u).wf(),
        ensures
            final(self).wf(),
            final(self).clock() == old(self).clock(),
            final(u).wf(),
            (Turn { peers: final(self)@, update: final(u)@, step: r@ }) == update_turn(old(self)@, old(u)@, event, task),
    {
        broadcast use group_effects;

        let total: usize = u.ports.len();
        assert(u.next <= total);
        let mut phase = Phase::Over;
        std::mem::swap(&mut phase, &mut u.phase);
        match (phase, event) {
            (Phase::Over, _) => UpdateStep::Done,
            (Phase::Placing, UpdateEvent::Performed) => self.find_place(u),
            (Phase::Claiming { ip, name }, UpdateEvent::Ran) => {
                let fx = self.settle(&u.id, ip, name);
                u.phase = Phase::Ports;
                UpdateStep::Perform(fx)
            },
            (Phase::Ports, UpdateEvent::Performed) => {
                if u.next < u.ports.len() {
                    self.next_port(u, task)
                } else {
                    self.note_ports(&u.id);
                    UpdateStep::Done
                }
            },
            (Phase::Binding { .. }, UpdateEvent::Bound) => {
                let port = u.ports[u.next];
                let fx = self.on_bound(&u.id, port, task);
                u.next = u.next + 1;
                u.failed = 0;
                u.phase = Phase::Ports;
                UpdateStep::Perform(fx)
            },
            (Phase::Binding { ip }, UpdateEvent::BindFailed) => {
                let failed: u32 = u.failed + 1;
                match bind_retry(failed) {
                    Some(delay) => {
                        u.failed = failed;
                        u.phase = Phase::Waiting { ip };
                        UpdateStep::Wait { delay }
                    },
                    None => {
                        let port = u.ports[u.next];
                        u.dark.push(port);
                        u.next = u.next + 1;
                        u.failed = 0;
                        u.phase = Phase::Ports;
                        let none: Vec<Effect> = Vec::new();
                        UpdateStep::Perform(none)
                    },
                }
            },
            (Phase::Waiting { ip }, UpdateEvent::Waited) => {
                let port = u.ports[u.next];
                u.phase = Phase::Binding { ip };
                UpdateStep::Bind { ip, port }
            },
            _ => {
                self.note_ports(&u.id);
                UpdateStep::Done
            },
        }
    }

    /// Looks for a place for the ports.
    fn find_place(&mut self, u: &mut Update) -> (r: UpdateStep)
        requires
            old(self).wf(),
            valid_update(old(u)@),
            old(u)@.next == 0,
            old(u)@.failed == 0,
        ensures
            final(self).wf(),
            final(self).clock() == old(self).clock(),
            final(u).wf(),
            (Turn { peers: final(self)@, update: final(u)@, step: r@ }) == place_turn(old(self)@, old(u)@),
    {
        match self.place(&u.id, &u.ports) {
            Place::Ready(fx) => {
                u.phase = Phase::Ports;
                UpdateStep::Perform(fx)
            },
            Place::Run { ip, name, args } => {
                u.phase = Phase::Claiming { ip, name };
                UpdateStep::Run { args }
            },
            Place::Failed(e) => {
                self.note_ports(&u.id);
                u.phase = Phase::Over;
                UpdateStep::Failed(e)
            },
            Place::Nothing => {
                self.note_ports(&u.id);
                u.phase = Phase::Over;
                UpdateStep::Done
            },
        }
    }

    /// Binds the next port, or says where to.
    fn next_port(&mut self, u: &mut Update, task: u64) -> (r: UpdateStep)
        requires
            old(self).wf(),
            valid_update(old(u)@),
            old(u)@.next < old(u)@.ports.len(),
            old(u)@.failed == 0,
        ensures
            final(self).wf(),
            final(self).clock() == old(self).clock(),
            final(u).wf(),
            (Turn { peers: final(self)@, update: final(u)@, step: r@ }) == port_turn(old(self)@, old(u)@, task),
    {
        broadcast use group_effects;

        let total: usize = u.ports.len();
        assert(u.next < total);
        let port = u.ports[u.next];
        match self.bind_one(&u.id, port, task) {
            BindStep::Skip => {
                u.next = u.next + 1;
                u.phase = Phase::Ports;
                let none: Vec<Effect> = Vec::new();
                UpdateStep::Perform(none)
            },
            BindStep::Listening(fx) => {
                u.next = u.next + 1;
                u.phase = Phase::Ports;
                UpdateStep::Perform(fx)
            },
            BindStep::Bind { ip, port } => {
                u.phase = Phase::Binding { ip };
                UpdateStep::Bind { ip, port }
            },
        }
    }
}

}
