//! What holds of every session, whatever has happened to it.
//!
//! A history is a sequence of events from the start of a session. The laws
//! below say where every admission and every grant comes from, and what takes
//! them away again.

use crate::enroll::CODE_TTL_MS;
use crate::grants::{announced, grant_order, lemma_grant_order, ports_granted, ports_to};
use crate::order::{
    ascending, lemma_ascending_is_distinct, lemma_port_listing, lemma_port_order, listing, port_order,
};
use crate::protocol::PeerMessage;
use crate::roster::{Admission, AdmittedView};
use crate::session::{
    after_admit_known, after_claim, after_early_ports, after_evict, after_expose, after_inbound,
    after_mint, after_timeout, after_unadmitted, after_unexpose, announcement, claim_actions, claimable,
    fresh_session, inbound_actions, tunnel_verdict, unadmitted_actions, ActionView, Refusal, Session, SessionView,
};
use vstd::prelude::*;

verus! {

/// What can happen to a session.
pub enum Event {
    AdmitKnown { key: Seq<u8>, label: Option<Seq<char>>, admission: Admission },
    Inbound { conn: u64, remote: Seq<u8> },
    Unadmitted { now: u64, conn: u64, remote: Seq<u8>, msg: PeerMessage },
    EnrollTimeout { conn: u64 },
    Evict { peer: Seq<u8> },
    Expose { port: u16, to: Seq<Seq<u8>> },
    Unexpose { port: u16, to: Option<Seq<u8>> },
    Mint { code: Seq<char>, now: u64, name: Option<Seq<char>>, ports: Seq<u16> },
}

/// The session after an event.
pub open spec fn step(s: SessionView, e: Event) -> SessionView {
    match e {
        Event::AdmitKnown { key, label, admission } => after_admit_known(s, key, label, admission),
        Event::Inbound { conn, remote } => after_inbound(s, conn, remote),
        Event::Unadmitted { now, conn, remote, msg } => after_unadmitted(s, now, conn, remote, msg),
        Event::EnrollTimeout { conn } => after_timeout(s, conn),
        Event::Evict { peer } => after_evict(s, peer),
        Event::Expose { port, to } => after_expose(s, port, to),
        Event::Unexpose { port, to } => after_unexpose(s, port, to),
        Event::Mint { code, now, name, ports } => after_mint(s, code, now, name, ports),
    }
}

/// The session after a history.
pub open spec fn run(history: Seq<Event>) -> SessionView
    decreases history.len(),
{
    if history.len() == 0 {
        fresh_session()
    } else {
        step(run(history.drop_last()), history.last())
    }
}

/// Whether `e` is a claim by `key` of a code that is claimable in `s`.
pub open spec fn is_valid_claim(s: SessionView, e: Event, key: Seq<u8>) -> bool {
    match e {
        Event::Unadmitted { now, conn: _, remote, msg } => match msg {
            PeerMessage::Enroll { token, .. } => remote == key && claimable(s, token@, now),
            _ => false,
        },
        _ => false,
    }
}

/// The ports that come with the code claimed by `e`.
pub open spec fn claimed_ports(s: SessionView, e: Event) -> Seq<u16> {
    match e {
        Event::Unadmitted { msg: PeerMessage::Enroll { token, .. }, .. } => s.codes[token@].ports,
        _ => seq![],
    }
}

/// Whether `e`, happening in `s`, admits `key`.
pub open spec fn admits(s: SessionView, e: Event, key: Seq<u8>) -> bool {
    ||| e matches Event::AdmitKnown { key: k, .. } && k == key
    ||| is_valid_claim(s, e, key)
}

/// Whether `e`, happening in `s`, grants `port` to `key`.
pub open spec fn grants_port(s: SessionView, e: Event, port: u16, key: Seq<u8>) -> bool {
    ||| e matches Event::Expose { port: p, to } && p == port && to.contains(key)
    ||| is_valid_claim(s, e, key) && claimed_ports(s, e).contains(port)
}

/// Whether `e`, happening in `s`, revokes `port` from `key`.
pub open spec fn revokes_port(s: SessionView, e: Event, port: u16, key: Seq<u8>) -> bool {
    ||| e matches Event::Unexpose { port: p, to } && p == port && (to is None || to == Some(key))
    ||| e matches Event::Evict { peer } && peer == key && s.peers.contains_key(key)
}

// --------------------------------------------------------------- the present

/// Nothing is reachable in a session in which nothing has happened.
pub proof fn law_default_deny(peer: Seq<u8>, port: u16)
    ensures
        tunnel_verdict(fresh_session(), peer, port) == (ActionView::RejectTunnel { reason: Refusal::NotGranted }),
{
}

/// One event changes a grant only by granting or revoking that port for that
/// key, and does so exactly when it grants or revokes it.
pub proof fn law_grant_changes(s: SessionView, e: Event, port: u16, key: Seq<u8>)
    ensures
        step(s, e).grants.contains((port, key)) <==> grants_port(s, e, port, key) || (s.grants.contains((port, key))
            && !revokes_port(s, e, port, key)),
{
}

/// One event changes who is admitted only by admitting or evicting that key.
pub proof fn law_admission_changes(s: SessionView, e: Event, key: Seq<u8>)
    ensures
        step(s, e).peers.contains_key(key) <==> admits(s, e, key) || (s.peers.contains_key(key) && !(e matches Event::Evict {
            peer,
        } && peer == key)),
{
}

// --------------------------------------------------------------- the history

/// A tunnel is served only if some event of the history granted that very port
/// to that very key, and no later event revoked it.
pub proof fn law_every_tunnel_was_granted(history: Seq<Event>, peer: Seq<u8>, port: u16)
    ensures
        tunnel_verdict(run(history), peer, port) == (ActionView::ServeTunnel { port }) <==> exists|i: int|
            0 <= i < history.len() && #[trigger] grants_port(run(history.take(i)), history[i], port, peer) && (forall|j: int|
                i < j < history.len() ==> !#[trigger] revokes_port(run(history.take(j)), history[j], port, peer)),
    decreases history.len(),
{
    if history.len() > 0 {
        let before = history.drop_last();
        let n = before.len() as int;
        law_every_tunnel_was_granted(before, peer, port);
        law_grant_changes(run(before), history.last(), port, peer);
        assert(history.take(n) =~= before);
        assert forall|i: int| 0 <= i <= n implies #[trigger] history.take(i) == before.take(i) by {
            assert(history.take(i) =~= before.take(i));
        }
        let served = run(history).grants.contains((port, peer));
        let was_served = run(before).grants.contains((port, peer));
        if served {
            if grants_port(run(before), history.last(), port, peer) {
                assert(grants_port(run(history.take(n)), history[n], port, peer));
            } else {
                assert(was_served);
                let i = choose|i: int|
                    0 <= i < before.len() && #[trigger] grants_port(run(before.take(i)), before[i], port, peer) && (forall|
                        j: int,
                    |
                        i < j < before.len() ==> !#[trigger] revokes_port(run(before.take(j)), before[j], port, peer));
                assert(grants_port(run(history.take(i)), history[i], port, peer));
                assert forall|j: int| i < j < history.len() implies !#[trigger] revokes_port(
                    run(history.take(j)),
                    history[j],
                    port,
                    peer,
                ) by {
                    if j < n {
                        assert(!revokes_port(run(before.take(j)), before[j], port, peer));
                    }
                }
            }
        }
        if exists|i: int|
            0 <= i < history.len() && #[trigger] grants_port(run(history.take(i)), history[i], port, peer) && (forall|j: int|
                i < j < history.len() ==> !#[trigger] revokes_port(run(history.take(j)), history[j], port, peer)) {
            let i = choose|i: int|
                0 <= i < history.len() && #[trigger] grants_port(run(history.take(i)), history[i], port, peer) && (forall|
                    j: int,
                |
                    i < j < history.len() ==> !#[trigger] revokes_port(run(history.take(j)), history[j], port, peer));
            if i < n {
                assert(!revokes_port(run(history.take(n)), history[n], port, peer));
                assert(grants_port(run(before.take(i)), before[i], port, peer));
                assert forall|j: int| i < j < before.len() implies !#[trigger] revokes_port(
                    run(before.take(j)),
                    before[j],
                    port,
                    peer,
                ) by {
                    assert(!revokes_port(run(history.take(j)), history[j], port, peer));
                }
                assert(was_served);
            }
        }
    }
}

/// A key is admitted only if the operator named it or it claimed a code that
/// was claimable at that moment, and it was not evicted since.
pub proof fn law_every_peer_was_admitted(history: Seq<Event>, key: Seq<u8>)
    ensures
        run(history).peers.contains_key(key) <==> exists|i: int|
            0 <= i < history.len() && #[trigger] admits(run(history.take(i)), history[i], key) && (forall|j: int|
                i < j < history.len() ==> !(#[trigger] history[j] matches Event::Evict { peer } && peer == key)),
    decreases history.len(),
{
    if history.len() > 0 {
        let before = history.drop_last();
        let n = before.len() as int;
        law_every_peer_was_admitted(before, key);
        law_admission_changes(run(before), history.last(), key);
        assert(history.take(n) =~= before);
        assert forall|i: int| 0 <= i <= n implies #[trigger] history.take(i) == before.take(i) by {
            assert(history.take(i) =~= before.take(i));
        }
        if run(history).peers.contains_key(key) {
            if admits(run(before), history.last(), key) {
                assert(admits(run(history.take(n)), history[n], key));
            } else {
                let i = choose|i: int|
                    0 <= i < before.len() && #[trigger] admits(run(before.take(i)), before[i], key) && (forall|j: int|
                        i < j < before.len() ==> !(#[trigger] before[j] matches Event::Evict { peer } && peer == key));
                assert(admits(run(history.take(i)), history[i], key));
                assert forall|j: int| i < j < history.len() implies !(#[trigger] history[j] matches Event::Evict { peer }
                    && peer == key) by {
                    if j < n {
                        assert(history[j] == before[j]);
                    }
                }
            }
        }
        if exists|i: int|
            0 <= i < history.len() && #[trigger] admits(run(history.take(i)), history[i], key) && (forall|j: int|
                i < j < history.len() ==> !(#[trigger] history[j] matches Event::Evict { peer } && peer == key)) {
            let i = choose|i: int|
                0 <= i < history.len() && #[trigger] admits(run(history.take(i)), history[i], key) && (forall|j: int|
                    i < j < history.len() ==> !(#[trigger] history[j] matches Event::Evict { peer } && peer == key));
            if i < n {
                assert(!(history[n] matches Event::Evict { peer } && peer == key));
                assert(admits(run(before.take(i)), before[i], key));
                assert forall|j: int| i < j < before.len() implies !(#[trigger] before[j] matches Event::Evict { peer }
                    && peer == key) by {
                    assert(history[j] == before[j]);
                }
            }
        }
    }
}

// ------------------------------------------------------------- announcements

/// A peer is told exactly the ports a tunnel would be served for: no port
/// granted to another, and none of its own left out.
pub proof fn law_announcement_is_what_is_served(s: SessionView, peer: Seq<u8>, port: u16)
    ensures
        announcement(s, peer) == (ActionView::Announce { peer, ports: announced(s.grants, peer) }),
        announced(s.grants, peer).contains(port) <==> tunnel_verdict(s, peer, port) == (ActionView::ServeTunnel { port }),
        ascending(announced(s.grants, peer), port_order()),
{
    lemma_port_listing(ports_to(s.grants, peer));
}

/// When nothing is granted to a peer any more it is told an empty list.
pub proof fn law_revocation_announces_an_empty_list(s: SessionView, peer: Seq<u8>)
    requires
        forall|p: u16| !#[trigger] s.grants.contains((p, peer)),
    ensures
        announcement(s, peer) == (ActionView::Announce { peer, ports: seq![] }),
{
    let told = announced(s.grants, peer);
    if told.len() > 0 {
        law_announcement_is_what_is_served(s, peer, told[0]);
        assert(told.contains(told[0]));
    }
    assert(told =~= seq![]);
}

/// Every grant is listed in a row of its own, never twice; the granted ports are
/// those of the rows, each once.
pub proof fn law_grants_are_listed_once(session: Session, port: u16, key: Seq<u8>)
    requires
        session.wf(),
    ensures
        ({
            let rows = listing(session@.grants, grant_order());
            let ports = listing(ports_granted(session@.grants), port_order());
            &&& rows.no_duplicates()
            &&& rows.contains((port, key)) <==> session@.grants.contains((port, key))
            &&& ports.no_duplicates()
            &&& ports.contains(port) <==> exists|k: Seq<u8>| rows.contains((port, k))
        }),
{
    session.lemma_grants();
    let rows = listing(session@.grants, grant_order());
    let ports = listing(ports_granted(session@.grants), port_order());
    lemma_grant_order();
    lemma_port_order();
    lemma_ascending_is_distinct(rows, grant_order());
    lemma_ascending_is_distinct(ports, port_order());
    assert forall|k: Seq<u8>| rows.contains((port, k)) <==> #[trigger] session@.grants.contains((port, k)) by {}
    if ports_granted(session@.grants).contains(port) {
        let k = choose|k: Seq<u8>| #[trigger] session@.grants.contains((port, k));
        assert(rows.contains((port, k)));
    }
}

// ------------------------------------------------------------------- access

/// A grant to some peers serves each of them and is of no use to any other, nor
/// for any other port.
pub proof fn law_grant_is_directed(s: SessionView, port: u16, to: Seq<Seq<u8>>, peer: Seq<u8>, other: u16)
    ensures
        to.contains(peer) ==> tunnel_verdict(after_expose(s, port, to), peer, port) == (ActionView::ServeTunnel { port }),
        !to.contains(peer) || other != port ==> tunnel_verdict(after_expose(s, port, to), peer, other)
            == tunnel_verdict(s, peer, other),
{
}

/// Revoking a port from one grantee, or from all, refuses it to those and
/// changes nothing for anyone else or any other port.
pub proof fn law_revocation(s: SessionView, port: u16, to: Option<Seq<u8>>, peer: Seq<u8>, other: u16)
    ensures
        to is None || to == Some(peer) ==> tunnel_verdict(after_unexpose(s, port, to), peer, port) is RejectTunnel,
        other != port || (to is Some && to != Some(peer)) ==> tunnel_verdict(after_unexpose(s, port, to), peer, other)
            == tunnel_verdict(s, peer, other),
{
}

/// Revoking what was just granted to one key that did not have it undoes it.
pub proof fn law_unexpose_undoes_expose(s: SessionView, port: u16, key: Seq<u8>)
    requires
        !s.grants.contains((port, key)),
    ensures
        after_unexpose(after_expose(s, port, seq![key]), port, Some(key)) == s,
{
    let t = after_unexpose(after_expose(s, port, seq![key]), port, Some(key));
    assert(seq![key][0] == key);
    assert(t.grants =~= s.grants);
}

/// A peer that is forgotten is no longer admitted, no tunnel is served to it,
/// and nobody else is touched.
pub proof fn law_eviction_revokes_everything(s: SessionView, peer: Seq<u8>, port: u16, other: Seq<u8>)
    ensures
        !after_evict(s, peer).peers.contains_key(peer),
        s.peers.contains_key(peer) ==> tunnel_verdict(after_evict(s, peer), peer, port) is RejectTunnel,
        other != peer ==> tunnel_verdict(after_evict(s, peer), other, port) == tunnel_verdict(s, other, port),
        other != peer ==> after_evict(s, peer).peers.contains_key(other) == s.peers.contains_key(other),
{
}

// ---------------------------------------------------------------- admission

/// An unknown peer is not admitted on arrival: nothing is done, and it waits.
pub proof fn law_unknown_peer_waits(s: SessionView, conn: u64, remote: Seq<u8>)
    requires
        !s.peers.contains_key(remote),
    ensures
        inbound_actions(s, conn, remote) == Seq::<ActionView>::empty(),
        !after_inbound(s, conn, remote).peers.contains_key(remote),
        after_inbound(s, conn, remote).pending.contains_key(conn),
        after_inbound(s, conn, remote).grants == s.grants,
{
}

/// A known peer is admitted on arrival with no claim, its older connection
/// replaced, and is told its own ports.
pub proof fn law_known_peer_needs_no_claim(s: SessionView, conn: u64, remote: Seq<u8>)
    requires
        s.peers.contains_key(remote),
    ensures
        after_inbound(s, conn, remote) == s,
        inbound_actions(s, conn, remote) == seq![
            ActionView::Admit { conn, peer: remote, replacing: true },
            announcement(s, remote),
        ],
{
}

/// A forgotten peer that dials again waits like any unknown one.
pub proof fn law_evicted_peer_is_unknown(s: SessionView, peer: Seq<u8>, conn: u64)
    ensures
        inbound_actions(after_evict(s, peer), conn, peer) == Seq::<ActionView>::empty(),
{
}

/// Naming a known peer again changes nothing, whatever it is now called.
pub proof fn law_admit_known_is_idempotent(
    s: SessionView,
    key: Seq<u8>,
    label: Option<Seq<char>>,
    admission: Admission,
    label2: Option<Seq<char>>,
    admission2: Admission,
)
    ensures
        after_admit_known(after_admit_known(s, key, label, admission), key, label2, admission2) == after_admit_known(
            s,
            key,
            label,
            admission,
        ),
{
}

/// A connection without a claimable code is never admitted by what it says, and
/// gains no access; a bad code is refused as not authorized.
pub proof fn law_no_code_no_admission(s: SessionView, now: u64, conn: u64, remote: Seq<u8>, msg: PeerMessage)
    requires
        !is_valid_claim(s, (Event::Unadmitted { now, conn, remote, msg }), remote),
    ensures
        after_unadmitted(s, now, conn, remote, msg).peers == s.peers,
        after_unadmitted(s, now, conn, remote, msg).grants == s.grants,
        msg is Enroll ==> unadmitted_actions(s, now, conn, remote, msg) == seq![
            ActionView::Refuse { conn, reason: Refusal::NotAuthorized },
        ],
        !(msg is Enroll) ==> unadmitted_actions(s, now, conn, remote, msg) == Seq::<ActionView>::empty(),
{
}

/// A code admits once: once presented, it is not claimable again, by anyone, at
/// any time.
pub proof fn law_code_admits_once(
    s: SessionView,
    now: u64,
    conn: u64,
    remote: Seq<u8>,
    token: Seq<char>,
    later: u64,
)
    ensures
        !claimable(after_claim(s, now, conn, remote, token), token, later),
{
}

/// A code minted for some ports and claimed in time admits whoever claims it,
/// serves that key those ports, and changes nothing for any other key.
pub proof fn law_invitation_carries_its_grant(
    s: SessionView,
    code: Seq<char>,
    minted: u64,
    name: Option<Seq<char>>,
    ports: Seq<u16>,
    now: u64,
    conn: u64,
    remote: Seq<u8>,
    other: Seq<u8>,
    port: u16,
)
    requires
        now < minted + CODE_TTL_MS,
    ensures
        ({
            let m = after_mint(s, code, minted, name, ports);
            let t = after_claim(m, now, conn, remote, code);
            &&& claimable(m, code, now)
            &&& t.peers[remote] == (AdmittedView { label: name, admission: Admission::Code })
            &&& t.peers.contains_key(remote)
            &&& ports.contains(port) ==> tunnel_verdict(t, remote, port) == (ActionView::ServeTunnel { port })
            &&& !ports.contains(port) ==> tunnel_verdict(t, remote, port) == tunnel_verdict(s, remote, port)
            &&& other != remote ==> tunnel_verdict(t, other, port) == tunnel_verdict(s, other, port)
            &&& claim_actions(m, now, conn, remote, code)[1] == (ActionView::PersistPin { key: remote, label: name })
        }),
{
}

/// An invitation is not access: without ports of its own, admitting a peer by
/// code or by name entitles it to nothing it did not have.
pub proof fn law_admission_is_not_access(
    s: SessionView,
    now: u64,
    conn: u64,
    remote: Seq<u8>,
    token: Seq<char>,
    label: Option<Seq<char>>,
    admission: Admission,
)
    ensures
        s.codes[token].ports.len() == 0 ==> after_claim(s, now, conn, remote, token).grants == s.grants,
        after_admit_known(s, remote, label, admission).grants == s.grants,
{
    if s.codes[token].ports.len() == 0 {
        assert(after_claim(s, now, conn, remote, token).grants =~= s.grants);
    }
}

/// Granting to every peer known now is no rule for peers admitted later: a key
/// that is unknown at that moment gains nothing by it.
pub proof fn law_granting_to_all_is_a_snapshot(
    s: SessionView,
    port: u16,
    later: Seq<u8>,
    label: Option<Seq<char>>,
    admission: Admission,
    known: Seq<Seq<u8>>,
)
    requires
        forall|k: Seq<u8>| #[trigger] known.contains(k) <==> s.peers.contains_key(k),
        !s.peers.contains_key(later),
    ensures
        tunnel_verdict(after_admit_known(after_expose(s, port, known), later, label, admission), later, port)
            == tunnel_verdict(s, later, port),
        forall|k: Seq<u8>|
            #[trigger] s.peers.contains_key(k) ==> tunnel_verdict(after_expose(s, port, known), k, port) == (
            ActionView::ServeTunnel { port }),
{
    assert forall|k: Seq<u8>| #[trigger] s.peers.contains_key(k) implies tunnel_verdict(
        after_expose(s, port, known),
        k,
        port,
    ) == (ActionView::ServeTunnel { port }) by {
        assert(known.contains(k));
    }
    assert(!known.contains(later));
}

/// Ports announced before the claim are applied with it.
pub proof fn law_early_ports_are_applied(
    s: SessionView,
    now: u64,
    conn: u64,
    remote: Seq<u8>,
    token: Seq<char>,
    ports: Seq<u16>,
)
    requires
        !s.peers.contains_key(remote),
        claimable(s, token, now),
        ports.len() > 0,
    ensures
        ({
            let held = after_early_ports(after_inbound(s, conn, remote), conn, ports);
            claim_actions(held, now, conn, remote, token).contains(ActionView::ApplyPorts { peer: remote, ports })
        }),
{
    let held = after_early_ports(after_inbound(s, conn, remote), conn, ports);
    let actions = claim_actions(held, now, conn, remote, token);
    assert(held.pending[conn] == Some(ports));
    assert(actions[2] == (ActionView::ApplyPorts { peer: remote, ports }));
}

/// A connection that waited out its window is refused once, and nobody is
/// admitted by it.
pub proof fn law_timeout_refuses_once(s: SessionView, conn: u64)
    ensures
        !after_timeout(s, conn).pending.contains_key(conn),
        after_timeout(s, conn).peers == s.peers,
        after_timeout(s, conn).grants == s.grants,
        after_timeout(after_timeout(s, conn), conn) == after_timeout(s, conn),
{
    assert(after_timeout(after_timeout(s, conn), conn) =~= after_timeout(s, conn));
}

/// Minting a code grants nothing and admits nobody, and leaves every other code
/// that can be claimed as it was.
pub proof fn law_minting_spares_the_others(
    s: SessionView,
    code: Seq<char>,
    now: u64,
    name: Option<Seq<char>>,
    ports: Seq<u16>,
    other: Seq<char>,
    later: u64,
)
    requires
        other != code,
        now <= later,
    ensures
        ({
            let r = after_mint(s, code, now, name, ports);
            &&& claimable(r, other, later) <==> claimable(s, other, later)
            &&& claimable(r, other, later) ==> r.codes[other] == s.codes[other]
            &&& r.grants == s.grants && r.peers == s.peers && r.pending == s.pending
        }),
{
}

/// Presenting a code spends that code alone, and is the end of that connection's
/// wait alone; nobody else is touched.
pub proof fn law_claim_spares_the_others(
    s: SessionView,
    now: u64,
    conn: u64,
    remote: Seq<u8>,
    token: Seq<char>,
    other: Seq<char>,
    later: u64,
    waiting: u64,
    key: Seq<u8>,
)
    requires
        other != token,
        now <= later,
        waiting != conn,
        key != remote,
    ensures
        ({
            let r = after_claim(s, now, conn, remote, token);
            &&& claimable(r, other, later) <==> claimable(s, other, later)
            &&& claimable(r, other, later) ==> r.codes[other] == s.codes[other]
            &&& !r.pending.contains_key(conn)
            &&& r.pending.contains_key(waiting) == s.pending.contains_key(waiting)
            &&& s.pending.contains_key(waiting) ==> r.pending[waiting] == s.pending[waiting]
            &&& r.peers.contains_key(key) == s.peers.contains_key(key)
            &&& s.peers.contains_key(key) ==> r.peers[key] == s.peers[key]
        }),
{
}

/// What a claim that holds calls for, in this order: the connection is admitted,
/// the key is pinned under the name of the code, the ports it announced before
/// are applied, and it is told what is granted to it.
pub proof fn law_claim_calls_for(s: SessionView, now: u64, conn: u64, remote: Seq<u8>, token: Seq<char>, port: u16)
    requires
        claimable(s, token, now),
    ensures
        ({
            let acts = claim_actions(s, now, conn, remote, token);
            let early = s.pending.contains_key(conn) && s.pending[conn] is Some && s.pending[conn]->Some_0.len() > 0;
            &&& acts.len() == if early {
                4int
            } else {
                3
            }
            &&& acts[0] == (ActionView::Admit { conn, peer: remote, replacing: false })
            &&& acts[1] == (ActionView::PersistPin { key: remote, label: s.codes[token].name })
            &&& early ==> acts[2] == (ActionView::ApplyPorts { peer: remote, ports: s.pending[conn]->Some_0 })
            &&& acts.last() is Announce && acts.last()->Announce_peer == remote
            &&& acts.last()->Announce_ports.contains(port) <==> s.grants.contains((port, remote)) || s.codes[token].ports.contains(port)
        }),
{
    let r = after_claim(s, now, conn, remote, token);
    law_announcement_is_what_is_served(r, remote, port);
}

/// Of the ports that a waiting connection announces the last list counts, and
/// what one connection says is kept for that connection alone.
pub proof fn law_last_early_ports_count(s: SessionView, conn: u64, first: Seq<u16>, second: Seq<u16>, other: u64)
    ensures
        s.pending.contains_key(conn) ==> after_early_ports(s, conn, second).pending[conn] == Some(second),
        after_early_ports(after_early_ports(s, conn, first), conn, second) == after_early_ports(s, conn, second),
        !s.pending.contains_key(conn) ==> after_early_ports(s, conn, first) == s,
        other != conn ==> after_early_ports(s, conn, first).pending.contains_key(other) == s.pending.contains_key(other),
        other != conn && s.pending.contains_key(other) ==> after_early_ports(s, conn, first).pending[other] == s.pending[other],
{
    assert(after_early_ports(after_early_ports(s, conn, first), conn, second) =~= after_early_ports(s, conn, second));
}

/// A key that is named is admitted as it was named, and nobody else is touched.
pub proof fn law_named_key_is_admitted(
    s: SessionView,
    key: Seq<u8>,
    label: Option<Seq<char>>,
    admission: Admission,
    other: Seq<u8>,
)
    ensures
        ({
            let r = after_admit_known(s, key, label, admission);
            &&& r.peers.contains_key(key)
            &&& !s.peers.contains_key(key) ==> r.peers[key] == (AdmittedView { label, admission })
            &&& s.peers.contains_key(key) ==> r == s
            &&& other != key ==> r.peers.contains_key(other) == s.peers.contains_key(other)
            &&& other != key && s.peers.contains_key(other) ==> r.peers[other] == s.peers[other]
            &&& r.grants == s.grants && r.codes == s.codes && r.pending == s.pending
        }),
{
}

/// Granting and revoking touch grants alone.
pub proof fn law_grants_touch_nothing_else(s: SessionView, port: u16, to: Seq<Seq<u8>>, from: Option<Seq<u8>>)
    ensures
        after_expose(s, port, to).peers == s.peers && after_unexpose(s, port, from).peers == s.peers,
        after_expose(s, port, to).codes == s.codes && after_unexpose(s, port, from).codes == s.codes,
        after_expose(s, port, to).pending == s.pending && after_unexpose(s, port, from).pending == s.pending,
{
}

/// The end of one connection's wait is the end of no other's.
pub proof fn law_timeout_spares_the_others(s: SessionView, conn: u64, other: u64)
    requires
        other != conn,
    ensures
        after_timeout(s, conn).pending.contains_key(other) == s.pending.contains_key(other),
        s.pending.contains_key(other) ==> after_timeout(s, conn).pending[other] == s.pending[other],
        after_timeout(s, conn).codes == s.codes,
{
}

}
