//! What is shown and found of the peers: rows of a listing, references, names
//! and addresses.

use super::queries::{first_key, info_of, infos_of, known_keys, named_ip, owner_of, resolved};
use super::{peer_error_text, ManagerView, PeerErrorView, PeerManager};
use crate::addr::{ip_text, IpView};
use crate::invite::InviteError;
use crate::order::{lemma_port_listing, port_order};
use crate::protocol::InfoView;
use crate::roster::Admission;
use crate::session::{ConnId, Refusal};
use crate::table::surface_ip;
use crate::text::hex;
use vstd::prelude::*;

verus! {

/// Whether one of the open connections is the one with the number `conn`.
pub open spec fn is_open(live: Seq<ConnId>, conn: u64) -> bool {
    exists|i: int| 0 <= i < live.len() && (#[trigger] live[i]).0 == conn
}

/// The first key that meets a condition meets it; where there is none, no key
/// does.
pub(super) proof fn lemma_first_meets(keys: Seq<Seq<u8>>, meets: spec_fn(Seq<u8>) -> bool)
    ensures
        match first_key(keys, meets) {
            Some(k) => keys.contains(k) && meets(k),
            None => forall|k: Seq<u8>| keys.contains(k) ==> !#[trigger] meets(k),
        },
    decreases keys.len(),
{
    if keys.len() > 0 {
        let rest = keys.drop_first();
        lemma_first_meets(rest, meets);
        assert(keys.contains(keys[0]));
        match first_key(rest, meets) {
            Some(k) => {
                let i = choose|i: int| 0 <= i < rest.len() && rest[i] == k;
                assert(keys[i + 1] == k);
            },
            None => {
                if !meets(keys[0]) {
                    assert forall|k: Seq<u8>| keys.contains(k) implies !#[trigger] meets(k) by {
                        let i = choose|i: int| 0 <= i < keys.len() && keys[i] == k;
                        if i > 0 {
                            assert(rest[i - 1] == k);
                        }
                    }
                }
            },
        }
    }
}

/// Whether a row shows the peer under `key` as it is. It is online exactly when
/// it has a connection and that very connection is open.
pub open spec fn shows_peer(row: InfoView, m: ManagerView, key: Seq<u8>, live: Seq<ConnId>) -> bool {
    let p = m.peers[key];
    &&& row.key == hex(key)
    &&& row.name == p.label
    &&& row.version == p.version
    &&& row.online <==> p.conn is Some && is_open(live, p.conn->Some_0)
    &&& row.admission == match m.session.peers[key].admission {
        Admission::Added => "added"@,
        Admission::Code => "code"@,
        Admission::Key => "key"@,
    }
    &&& row.they_expose == p.exposed
    &&& row.ip is Some <==> p.surface is Some
    &&& p.surface is Some ==> row.ip == Some(ip_text(p.surface->Some_0.ip))
    &&& forall|port: u16| #[trigger] row.bound.contains(port) <==> p.bound.contains_key(port)
    &&& forall|i: int, j: int| #![trigger row.bound[i], row.bound[j]] 0 <= i < j < row.bound.len() ==> row.bound[i] < row.bound[j]
}

/// Every known peer has a row that shows it as it is, and every row shows a known
/// peer. A peer whose own connection is not among the open ones is offline,
/// whichever others are open.
pub proof fn law_rows_show_the_peers(manager: PeerManager, live: Seq<ConnId>, key: Seq<u8>)
    requires
        manager.wf(),
    ensures
        ({
            let m = manager@;
            let rows = infos_of(m, live);
            &&& m.peers.contains_key(key) ==> exists|i: int| 0 <= i < rows.len() && shows_peer(#[trigger] rows[i], m, key, live)
            &&& forall|i: int|
                0 <= i < rows.len() ==> exists|k: Seq<u8>| #[trigger] m.peers.contains_key(k) && shows_peer(
                    #[trigger] rows[i],
                    m,
                    k,
                    live,
                )
        }),
{
    let m = manager@;
    let rows = infos_of(m, live);
    let keys = known_keys(m);
    manager.lemma_consistent();
    assert forall|i: int| 0 <= i < rows.len() implies shows_peer(#[trigger] rows[i], m, keys[i], live) by {
        let p = m.peers[keys[i]];
        assert(rows[i] == info_of(m, keys[i], live));
        lemma_port_listing(p.bound.dom());
        let bound = rows[i].bound;
        let lt = port_order();
        assert forall|a: int, b: int| #![trigger bound[a], bound[b]] 0 <= a < b < bound.len() implies bound[a] < bound[b] by {
            assert(lt(bound[a], bound[b]));
        }
        assert forall|port: u16| #[trigger] bound.contains(port) <==> p.bound.contains_key(port) by {
            assert(bound.contains(port) <==> p.bound.dom().contains(port));
        }
        if p.conn is Some {
            let conn = p.conn->Some_0;
            if live.contains(ConnId(conn)) {
                let j = choose|j: int| 0 <= j < live.len() && live[j] == ConnId(conn);
                assert(live[j].0 == conn);
            }
            if is_open(live, conn) {
                let j = choose|j: int| 0 <= j < live.len() && (#[trigger] live[j]).0 == conn;
                assert(live[j] == ConnId(conn));
            }
        }
    }
    if m.peers.contains_key(key) {
        assert(m.peers.dom().contains(key));
        assert(keys.contains(key));
        let i = choose|i: int| 0 <= i < keys.len() && keys[i] == key;
        assert(shows_peer(rows[i], m, key, live));
    }
    assert forall|i: int| 0 <= i < rows.len() implies exists|k: Seq<u8>| #[trigger] m.peers.contains_key(k) && shows_peer(
        #[trigger] rows[i],
        m,
        k,
        live,
    ) by {
        assert(keys.contains(keys[i]));
        assert(m.peers.dom().contains(keys[i]));
        assert(m.peers.contains_key(keys[i]));
    }
}

/// A reference means the known peer whose key it is; else a known peer that we
/// call so; and nobody only where there is neither.
pub proof fn law_reference_means_a_peer(manager: PeerManager, parsed: Option<Seq<u8>>, text: Seq<char>)
    requires
        manager.wf(),
    ensures
        ({
            let m = manager@;
            &&& parsed is Some && m.peers.contains_key(parsed->Some_0) ==> resolved(m, parsed, text) == parsed
            &&& !(parsed is Some && m.peers.contains_key(parsed->Some_0)) ==> match resolved(m, parsed, text) {
                Some(k) => m.peers.contains_key(k) && m.peers[k].label == Some(text),
                None => forall|k: Seq<u8>| #[trigger] m.peers.contains_key(k) ==> m.peers[k].label != Some(text),
            }
        }),
{
    let m = manager@;
    let keys = known_keys(m);
    let meets = |k: Seq<u8>| m.peers[k].label == Some(text);
    manager.lemma_consistent();
    lemma_first_meets(keys, meets);
    assert forall|k: Seq<u8>| #[trigger] m.peers.contains_key(k) implies keys.contains(k) by {
        assert(m.peers.dom().contains(k));
    }
    assert forall|k: Seq<u8>| #[trigger] keys.contains(k) implies m.peers.contains_key(k) by {
        assert(m.peers.dom().contains(k));
    }
    if first_key(keys, meets) is None {
        assert forall|k: Seq<u8>| #[trigger] m.peers.contains_key(k) implies m.peers[k].label != Some(text) by {
            assert(!meets(k));
        }
    }
}

/// A connection that is accepted at an address goes to a peer whose surface is
/// there; to nobody only where no surface is.
pub proof fn law_owner_is_at_the_address(manager: PeerManager, ip: IpView)
    requires
        manager.wf(),
    ensures
        ({
            let m = manager@;
            match owner_of(m, ip) {
                Some(k) => m.peers.contains_key(k) && m.peers[k].surface is Some && m.peers[k].surface->Some_0.ip == ip,
                None => forall|k: Seq<u8>| #[trigger] m.peers.contains_key(k) ==> !(m.peers[k].surface is Some
                    && m.peers[k].surface->Some_0.ip == ip),
            }
        }),
{
    let m = manager@;
    let keys = known_keys(m);
    let meets = |k: Seq<u8>| surface_ip(m.peers[k]) == Some(ip);
    manager.lemma_consistent();
    lemma_first_meets(keys, meets);
    assert forall|k: Seq<u8>| #[trigger] m.peers.contains_key(k) implies keys.contains(k) by {
        assert(m.peers.dom().contains(k));
    }
    assert forall|k: Seq<u8>| #[trigger] keys.contains(k) implies m.peers.contains_key(k) by {
        assert(m.peers.dom().contains(k));
    }
    if first_key(keys, meets) is None {
        assert forall|k: Seq<u8>| #[trigger] m.peers.contains_key(k) implies !(m.peers[k].surface is Some
            && m.peers[k].surface->Some_0.ip == ip) by {
            assert(!meets(k));
        }
    }
}

/// Our own name leads to where our services are; any other to a surface that is
/// called so, and to nothing only where none is.
pub proof fn law_name_leads_to_a_surface(manager: PeerManager, name: Seq<char>)
    requires
        manager.wf(),
    ensures
        ({
            let m = manager@;
            &&& m.self_name == Some(name) ==> named_ip(m, name) == Some(m.host)
            &&& m.self_name != Some(name) ==> match named_ip(m, name) {
                Some(ip) => exists|k: Seq<u8>| #[trigger] m.peers.contains_key(k) && m.peers[k].surface is Some
                    && m.peers[k].surface->Some_0.name == Some(name) && m.peers[k].surface->Some_0.ip == ip,
                None => forall|k: Seq<u8>| #[trigger] m.peers.contains_key(k) ==> !(m.peers[k].surface is Some
                    && m.peers[k].surface->Some_0.name == Some(name)),
            }
        }),
{
    let m = manager@;
    let keys = known_keys(m);
    let meets = |k: Seq<u8>| m.peers[k].surface is Some && m.peers[k].surface->Some_0.name == Some(name);
    manager.lemma_consistent();
    lemma_first_meets(keys, meets);
    assert forall|k: Seq<u8>| #[trigger] m.peers.contains_key(k) implies keys.contains(k) by {
        assert(m.peers.dom().contains(k));
    }
    assert forall|k: Seq<u8>| #[trigger] keys.contains(k) implies m.peers.contains_key(k) by {
        assert(m.peers.dom().contains(k));
    }
    if first_key(keys, meets) is Some {
        let k = first_key(keys, meets)->Some_0;
        assert(m.peers.contains_key(k));
    } else {
        assert forall|k: Seq<u8>| #[trigger] m.peers.contains_key(k) implies !(m.peers[k].surface is Some
            && m.peers[k].surface->Some_0.name == Some(name)) by {
            assert(!meets(k));
        }
    }
}

/// What is said when a request about a peer is turned down.
pub proof fn law_refusals_say_why(name: Seq<char>)
    ensures
        peer_error_text(PeerErrorView::AlreadyExists) == "peer already exists"@,
        peer_error_text(PeerErrorView::InvalidKey) == "invalid key"@,
        peer_error_text(PeerErrorView::NoSuchPeer(name)) == "no such peer: "@ + name,
        peer_error_text(PeerErrorView::NotProjected(name)) == "peer "@ + name + " is not projected"@,
        Refusal::NotAuthorized.text() == "not authorized"@,
        Refusal::EnrollTimeout.text() == "enroll timeout"@,
        Refusal::NotGranted.text() == "not granted"@,
        InviteError::NoCode.text() == "invitation has no code"@,
        InviteError::InvalidInvitationKey.text() == "invitation has an invalid key"@,
        InviteError::InvalidKey.text() == "invalid key"@,
{
}

}
