//! What is kept of a peer: what each operation writes down, and what it leaves
//! alone.

use super::links::{
    admits_by, after_connection, after_dialed, after_enroll_message, EnrollmentView,
};
use super::projection::after_evicted;
use super::{after_record, consistent, pinned_effects, ManagerView};
use super::access::after_grants;
use crate::effect::EffectView;
use crate::protocol::PeerMessage;
use crate::roster::{Admission, AdmittedView};
use vstd::prelude::*;

verus! {

/// Nothing of any peer but the one under `key` is different, nor of how they
/// came to be admitted; and the daemon is the same.
pub open spec fn only_peer_changed(m: ManagerView, n: ManagerView, key: Seq<u8>) -> bool {
    &&& forall|k: Seq<u8>| k != key ==> #[trigger] n.peers.contains_key(k) == m.peers.contains_key(k)
    &&& forall|k: Seq<u8>| k != key && #[trigger] m.peers.contains_key(k) ==> n.peers[k] == m.peers[k]
    &&& forall|k: Seq<u8>| k != key ==> #[trigger] n.session.peers.contains_key(k) == m.session.peers.contains_key(k)
    &&& forall|k: Seq<u8>| k != key && #[trigger] m.session.peers.contains_key(k) ==> n.session.peers[k] == m.session.peers[k]
    &&& n.host == m.host
    &&& n.self_name == m.self_name
    &&& n.platform == m.platform
}

/// A peer that is added or pinned is known from then on, under the name it was
/// given, dialed or not as was said, with the code to present; it has no
/// connection, no surface and nothing bound, and is granted nothing. Adding a
/// known peer changes nothing. A connection loop starts for a new peer alone.
pub proof fn law_recorded_peer_is_as_given(
    m: ManagerView,
    key: Seq<u8>,
    name: Option<Seq<char>>,
    dial: bool,
    code: Option<Seq<char>>,
    admission: Admission,
)
    requires
        consistent(m),
    ensures
        ({
            let r = after_record(m, key, name, dial, code, admission);
            &&& m.peers.contains_key(key) ==> r == m
            &&& r.peers.contains_key(key)
            &&& r.session.peers.contains_key(key)
            &&& !m.peers.contains_key(key) ==> {
                let p = r.peers[key];
                &&& p.label == name && p.dial == dial && p.token == code
                &&& p.conn is None && p.surface is None && p.version is None && p.incoming is None
                &&& p.exposed.len() == 0
                &&& forall|port: u16| !#[trigger] p.bound.contains_key(port)
                &&& r.session.peers[key] == (AdmittedView { label: name, admission })
            }
            &&& only_peer_changed(m, r, key)
            &&& r.stack == m.stack && r.next_conn == m.next_conn
            &&& r.session.grants == m.session.grants && r.session.codes == m.session.codes
            &&& r.session.pending == m.session.pending
            &&& pinned_effects(m, key).contains(EffectView::Spawn { peer: key }) <==> !m.peers.contains_key(key)
            &&& forall|i: int| 0 <= i < pinned_effects(m, key).len() ==> #[trigger] pinned_effects(m, key)[i] == (EffectView::Spawn { peer: key })
        }),
{
    assert(m.peers.dom().contains(key) == m.session.peers.dom().contains(key));
    if !m.peers.contains_key(key) {
        assert(pinned_effects(m, key)[0] == (EffectView::Spawn { peer: key }));
    }
}

/// A connection gets a number of its own, the next one. That of a known peer becomes its live
/// one; that of an unknown one waits for a code, with nothing announced on it.
/// Nothing else changes.
pub proof fn law_connection_is_kept(m: ManagerView, remote: Seq<u8>)
    requires
        consistent(m),
    ensures
        ({
            let r = after_connection(m, remote);
            let d = after_dialed(m, remote);
            &&& r.next_conn != m.next_conn && d.next_conn == r.next_conn
            &&& m.next_conn < u64::MAX ==> r.next_conn == m.next_conn + 1
            &&& only_peer_changed(m, r, remote) && only_peer_changed(m, d, remote)
            &&& r.peers.contains_key(remote) == m.peers.contains_key(remote)
            &&& m.peers.contains_key(remote) ==> {
                let (p, q) = (m.peers[remote], r.peers[remote]);
                &&& q.conn == Some(m.next_conn)
                &&& q.label == p.label && q.dial == p.dial && q.token == p.token && q.version == p.version
                &&& q.exposed == p.exposed && q.incoming == p.incoming && q.surface == p.surface && q.bound == p.bound
                &&& d.peers[remote] == q
                &&& r.session == m.session
            }
            &&& !m.peers.contains_key(remote) ==> {
                &&& r.session.pending.contains_key(m.next_conn) && r.session.pending[m.next_conn] is None
                &&& forall|c: u64| c != m.next_conn ==> #[trigger] r.session.pending.contains_key(c) == m.session.pending.contains_key(c)
                &&& forall|c: u64| c != m.next_conn && #[trigger] m.session.pending.contains_key(c) ==> r.session.pending[c]
                    == m.session.pending[c]
            }
            &&& r.session.peers == m.session.peers && r.session.grants == m.session.grants
            &&& r.session.codes == m.session.codes
            &&& r.stack == m.stack
            &&& d.session == m.session && d.stack == m.stack
        }),
{
    assert(m.peers.dom().contains(remote) == m.session.peers.dom().contains(remote));
}

/// A peer that a code admits is known under the name that came with the code,
/// with its connection as the live one; it is not dialed, and has no surface and
/// nothing bound. The code is spent, and no other; nobody else is touched.
pub proof fn law_enrolled_peer_is_recorded(m: ManagerView, e: EnrollmentView, now: u64, msg: PeerMessage, other: Seq<char>)
    requires
        admits_by(m, now, msg),
    ensures
        ({
            let r = after_enroll_message(m, e, now, msg);
            let token = msg->Enroll_token@;
            let p = r.peers[e.remote];
            &&& r.peers.contains_key(e.remote)
            &&& p.label == m.session.codes[token].name && p.conn == Some(e.conn) && !p.dial && p.token is None
            &&& p.surface is None && p.exposed.len() == 0 && p.incoming is None
            &&& forall|port: u16| !#[trigger] p.bound.contains_key(port)
            &&& r.session.peers[e.remote] == (AdmittedView { label: m.session.codes[token].name, admission: Admission::Code })
            &&& only_peer_changed(m, r, e.remote)
            &&& r.stack == m.stack && r.next_conn == m.next_conn
            &&& !r.session.pending.contains_key(e.conn)
            &&& !r.session.codes.contains_key(token)
            &&& other != token && admits_code(m, other, now) ==> r.session.codes.contains_key(other)
                && r.session.codes[other] == m.session.codes[other]
        }),
{
}

/// Whether a code is held and has not expired.
pub open spec fn admits_code(m: ManagerView, code: Seq<char>, now: u64) -> bool {
    m.session.codes.contains_key(code) && now < m.session.codes[code].minted + crate::enroll::CODE_TTL_MS
}

/// A code admits exactly while it is held and has not expired, and nothing else
/// that an unknown peer says does.
pub proof fn law_a_live_code_admits(m: ManagerView, now: u64, msg: PeerMessage)
    ensures
        admits_by(m, now, msg) <==> msg is Enroll && admits_code(m, msg->Enroll_token@, now),
{
}

/// Forgetting a peer forgets that peer alone, with every grant to it.
pub proof fn law_forgetting_is_directed(m: ManagerView, key: Seq<u8>, port: u16, other: Seq<u8>)
    requires
        consistent(m),
    ensures
        ({
            let r = after_evicted(m, key);
            &&& !r.peers.contains_key(key) && !r.session.peers.contains_key(key)
            &&& only_peer_changed(m, r, key)
            &&& m.peers.contains_key(key) ==> !r.session.grants.contains((port, key))
            &&& other != key ==> r.session.grants.contains((port, other)) == m.session.grants.contains((port, other))
            &&& r.session.codes == m.session.codes && r.session.pending == m.session.pending
            &&& r.next_conn == m.next_conn
        }),
{
    assert(m.peers.dom().contains(key) == m.session.peers.dom().contains(key));
}

/// Granting some ports to one key grants it those and no other, and nobody else
/// anything.
pub proof fn law_granting_is_directed(m: ManagerView, ports: Seq<u16>, key: Seq<u8>, port: u16, other: Seq<u8>)
    ensures
        ({
            let r = after_grants(m, ports, key);
            &&& r.session.grants.contains((port, other)) <==> m.session.grants.contains((port, other)) || (other == key
                && ports.contains(port))
            &&& r.peers == m.peers && r.stack == m.stack
            &&& r.session.peers == m.session.peers && r.session.codes == m.session.codes
        }),
{
}

}
