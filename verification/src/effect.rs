//! What the shell has to do for the decisions made here to take effect.

use crate::addr::{IpAddr, IpView, Ipv4Addr};
use crate::key::EndpointId;
use crate::protocol::{MessageView, PeerMessage};
use crate::session::ConnId;
use crate::text::{opt_text, texts};
use vstd::prelude::*;

verus! {

/// One thing for the shell to do.
#[derive(Debug, PartialEq, Eq)]
pub enum Effect {
    /// Start the connection loop of a peer that was just recorded.
    Spawn { peer: EndpointId },
    /// Wake the connection loop of a peer: its connection was replaced, or the
    /// peer is gone.
    Wake { peer: EndpointId },
    /// Close a connection.
    Close { conn: ConnId, reason: String },
    /// Send a control message. A failure is only logged.
    Send { conn: ConnId, msg: PeerMessage },
    /// Reconcile a peer's bindings with the ports it announced.
    UpdatePorts { peer: EndpointId, ports: Vec<u16> },
    /// Stop the task that serves a binding, and wait for its listener to drop.
    Stop { task: u64 },
    /// Start accepting in the stack at an address and port.
    Listen { ip: Ipv4Addr, port: u16 },
    /// Stop accepting in the stack at an address and port.
    Unlisten { ip: Ipv4Addr, port: u16 },
    /// Run `ifconfig` with these arguments. A failure is only logged.
    Run { args: Vec<String> },
    /// Run `ifconfig` with these arguments. A failure ends the request with its
    /// error, and what follows is not done.
    Require { args: Vec<String> },
    /// Write a pin to disk.
    SavePin { key: String, label: Option<String>, by_code: bool },
    /// Drop a pin from disk.
    DropPin { key: String },
    /// Write a surface to disk.
    SaveSurface { key: String, ip: IpAddr, name: Option<String> },
    /// Drop a surface from disk.
    DropSurface { key: String },
}

/// An effect as plain values.
pub enum EffectView {
    Spawn { peer: Seq<u8> },
    Wake { peer: Seq<u8> },
    Close { conn: u64, reason: Seq<char> },
    Send { conn: u64, msg: MessageView },
    UpdatePorts { peer: Seq<u8>, ports: Seq<u16> },
    Stop { task: u64 },
    Listen { ip: Seq<u8>, port: u16 },
    Unlisten { ip: Seq<u8>, port: u16 },
    Run { args: Seq<Seq<char>> },
    Require { args: Seq<Seq<char>> },
    SavePin { key: Seq<char>, label: Option<Seq<char>>, by_code: bool },
    DropPin { key: Seq<char> },
    SaveSurface { key: Seq<char>, ip: IpView, name: Option<Seq<char>> },
    DropSurface { key: Seq<char> },
}

impl View for Effect {
    type V = EffectView;

    open spec fn view(&self) -> EffectView {
        match *self {
            Effect::Spawn { peer } => EffectView::Spawn { peer: peer@ },
            Effect::Wake { peer } => EffectView::Wake { peer: peer@ },
            Effect::Close { conn, reason } => EffectView::Close { conn: conn.0, reason: reason@ },
            Effect::Send { conn, msg } => EffectView::Send { conn: conn.0, msg: msg@ },
            Effect::UpdatePorts { peer, ports } => EffectView::UpdatePorts { peer: peer@, ports: ports@ },
            Effect::Stop { task } => EffectView::Stop { task },
            Effect::Listen { ip, port } => EffectView::Listen { ip: ip@, port },
            Effect::Unlisten { ip, port } => EffectView::Unlisten { ip: ip@, port },
            Effect::Run { args } => EffectView::Run { args: texts(args@) },
            Effect::Require { args } => EffectView::Require { args: texts(args@) },
            Effect::SavePin { key, label, by_code } => EffectView::SavePin {
                key: key@,
                label: opt_text(label),
                by_code,
            },
            Effect::DropPin { key } => EffectView::DropPin { key: key@ },
            Effect::SaveSurface { key, ip, name } => EffectView::SaveSurface { key: key@, ip: ip@, name: opt_text(name) },
            Effect::DropSurface { key } => EffectView::DropSurface { key: key@ },
        }
    }
}

/// The views of a sequence of effects.
pub open spec fn effect_views(effects: Seq<Effect>) -> Seq<EffectView> {
    Seq::new(effects.len(), |i: int| effects[i]@)
}

/// No effects have no views.
pub broadcast proof fn lemma_no_effects(effects: Seq<Effect>)
    requires
        effects.len() == 0,
    ensures
        #[trigger] effect_views(effects) == Seq::<EffectView>::empty(),
{
    assert(effect_views(effects) =~= Seq::<EffectView>::empty());
}

/// One effect more has one view more.
pub broadcast proof fn lemma_effects_push(effects: Seq<Effect>, e: Effect)
    ensures
        #[trigger] effect_views(effects.push(e)) == effect_views(effects).push(e@),
{
    assert(effect_views(effects.push(e)) =~= effect_views(effects).push(e@));
}

/// The views of two sequences follow each other as they do.
pub broadcast proof fn lemma_effects_concat(a: Seq<Effect>, b: Seq<Effect>)
    ensures
        #[trigger] effect_views(a + b) == effect_views(a) + effect_views(b),
{
    assert(effect_views(a + b) =~= effect_views(a) + effect_views(b));
}

/// The views of effects that were put together.
pub broadcast group group_effects {
    lemma_no_effects,
    lemma_effects_push,
    lemma_effects_concat,
}

}
