//! What holds between two daemons: an invitation on one side, and its
//! acceptance on the other.

use crate::daemon::accept_outcome;
use crate::effect::EffectView;
use crate::enroll::CODE_TTL_MS;
use crate::invite::HandleView;
use crate::peer::links::{
    admits_by, after_dialed, after_enroll_message, dialed_effects, enroll_effects, tunnel_step, EnrollmentView,
};
use crate::peer::{action_effects, actions_effects, ManagerView};
use crate::protocol::{enroll_message, PeerMessage};
use crate::roster::Admission;
use crate::session::{after_mint, claimable, unadmitted_actions, ActionView};
use crate::text::hex;
use vstd::prelude::*;

verus! {

/// The accepter of an invitation dials its issuer and presents the code first
/// of all, on every connection.
pub proof fn law_accepter_presents_the_code(m: ManagerView, issuer: Seq<u8>, code: Seq<char>, name: Option<Seq<char>>)
    requires
        !m.peers.contains_key(issuer),
    ensures
        ({
            let (b, _) = accept_outcome(m, HandleView::Invite { key: issuer, code }, name);
            &&& b.peers[issuer].dial
            &&& b.peers[issuer].token == Some(code)
            &&& dialed_effects(b, issuer).len() > 0
            &&& dialed_effects(b, issuer)[0] == (EffectView::Send { conn: b.next_conn, msg: enroll_message(code) })
            &&& dialed_effects(after_dialed(b, issuer), issuer)[0] == (EffectView::Send {
                conn: after_dialed(b, issuer).next_conn,
                msg: enroll_message(code),
            })
        }),
{
}

/// An invitation admits whoever takes it up in time: the issuer records the
/// accepter under the name that came with the code, by code, writes that down,
/// and serves it exactly the ports that came with it and what it could reach
/// before.
pub proof fn law_invitation_admits_its_accepter(
    m: ManagerView,
    code: Seq<char>,
    minted: u64,
    name: Option<Seq<char>>,
    ports: Seq<u16>,
    now: u64,
    e: EnrollmentView,
    msg: PeerMessage,
    port: u16,
)
    requires
        now < minted + CODE_TTL_MS,
        msg@ == enroll_message(code),
    ensures
        ({
            let a = ManagerView { session: after_mint(m.session, code, minted, name, ports), ..m };
            let r = after_enroll_message(a, e, now, msg);
            &&& admits_by(a, now, msg)
            &&& r.peers.contains_key(e.remote)
            &&& r.peers[e.remote].label == name
            &&& r.peers[e.remote].conn == Some(e.conn)
            &&& !r.peers[e.remote].dial
            &&& r.session.peers[e.remote].admission == Admission::Code
            &&& enroll_effects(a, e, now, msg)->Some_0.contains(
                EffectView::SavePin { key: hex(e.remote), label: name, by_code: true },
            )
            &&& tunnel_step(r, e.remote, port) is Serve <==> ports.contains(port) || m.session.grants.contains((port, e.remote))
        }),
{
    let a = ManagerView { session: after_mint(m.session, code, minted, name, ports), ..m };
    let r = after_enroll_message(a, e, now, msg);
    let actions = unadmitted_actions(a.session, now, e.conn, e.remote, msg);
    let pin = EffectView::SavePin { key: hex(e.remote), label: name, by_code: true };
    assert(actions[1] == (ActionView::PersistPin { key: e.remote, label: name }));
    lemma_action_is_applied(r, e.remote, actions, 1, pin);
    let fx = enroll_effects(a, e, now, msg)->Some_0;
    let applied = actions_effects(r, e.remote, actions);
    let i = choose|i: int| 0 <= i < applied.len() && applied[i] == pin;
    assert(fx[i + 1] == pin);
}

/// The effect of an action is among those of all actions.
proof fn lemma_action_is_applied(m: ManagerView, key: Seq<u8>, actions: Seq<ActionView>, i: int, fx: EffectView)
    requires
        0 <= i < actions.len(),
        action_effects(m, key, actions[i]) == seq![fx],
    ensures
        actions_effects(m, key, actions).contains(fx),
    decreases actions.len(),
{
    let init = actions.drop_last();
    let before = actions_effects(m, key, init);
    let all = actions_effects(m, key, actions);
    if i < init.len() {
        assert(init[i] == actions[i]);
        lemma_action_is_applied(m, key, init, i, fx);
        let j = choose|j: int| 0 <= j < before.len() && before[j] == fx;
        assert(all[j] == fx);
    } else {
        assert(all[before.len() as int] == fx);
    }
}

/// A peer that was not invited gets nothing: whatever code it presents, it is
/// refused as not authorized, and neither who is known nor what is reachable
/// changes.
pub proof fn law_uninvited_peer_is_refused(m: ManagerView, e: EnrollmentView, now: u64, msg: PeerMessage)
    requires
        msg is Enroll,
        !claimable(m.session, msg->Enroll_token@, now),
    ensures
        enroll_effects(m, e, now, msg) == Some(
            seq![EffectView::Close { conn: e.conn, reason: "not authorized"@ }],
        ),
        after_enroll_message(m, e, now, msg).peers == m.peers,
        after_enroll_message(m, e, now, msg).session.peers == m.session.peers,
        after_enroll_message(m, e, now, msg).session.grants == m.session.grants,
{
}

/// A code that was presented admits no second peer.
pub proof fn law_invitation_is_taken_up_once(
    m: ManagerView,
    e: EnrollmentView,
    now: u64,
    msg: PeerMessage,
    later: u64,
    second: PeerMessage,
)
    requires
        msg is Enroll,
        second is Enroll,
        second->Enroll_token@ == msg->Enroll_token@,
    ensures
        !admits_by(after_enroll_message(m, e, now, msg), later, second),
{
}

/// Whatever else an unknown peer says before it presents a code admits it to
/// nothing.
pub proof fn law_only_a_code_admits(m: ManagerView, e: EnrollmentView, now: u64, msg: PeerMessage)
    requires
        !(msg is Enroll),
    ensures
        enroll_effects(m, e, now, msg) is None,
        after_enroll_message(m, e, now, msg).peers == m.peers,
        after_enroll_message(m, e, now, msg).session.grants == m.session.grants,
{
}

}
