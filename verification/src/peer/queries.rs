//! What is known of the peers.

use super::{ManagerView, PeerManager};
use crate::addr::{ip_text, ip_views, IpAddr, IpView};
use crate::key::{key_of_text, opt_id, EndpointId, InvalidKey};
use crate::netstack::lookup_in;
use crate::protocol::{info_views, InfoView, PeerInfo};
use crate::resolver::{asked_label, question_of, reply_bytes};
use crate::roster::{id_views, keys_in_order};
use crate::session::ConnId;
use crate::surface::{LOOPBACK_BASE, TUN_BASE};
use crate::table::{announced_ports, bound_ports, surface_ip};
use crate::text::{hex, opt_is};
use vstd::prelude::*;

verus! {

/// The keys of the known peers, ascending.
pub open spec fn known_keys(m: ManagerView) -> Seq<Seq<u8>> {
    keys_in_order(m.session.peers)
}

/// The first of some keys that meets a condition.
pub open spec fn first_key(keys: Seq<Seq<u8>>, meets: spec_fn(Seq<u8>) -> bool) -> Option<Seq<u8>>
    decreases keys.len(),
{
    if keys.len() == 0 {
        None
    } else if meets(keys[0]) {
        Some(keys[0])
    } else {
        first_key(keys.drop_first(), meets)
    }
}

/// The peer a reference means, once it is known what key it reads as: the peer
/// with that key; else the first one of that name.
pub open spec fn resolved(m: ManagerView, parsed: Option<Seq<u8>>, peer_ref: Seq<char>) -> Option<Seq<u8>> {
    if parsed is Some && m.peers.contains_key(parsed->Some_0) {
        parsed
    } else {
        first_key(known_keys(m), |k: Seq<u8>| m.peers[k].label == Some(peer_ref))
    }
}

/// The addresses in use by the surfaces of some peers.
pub open spec fn ips_of(m: ManagerView, keys: Seq<Seq<u8>>) -> Seq<IpView>
    decreases keys.len(),
{
    if keys.len() == 0 {
        seq![]
    } else {
        match surface_ip(m.peers[keys.last()]) {
            Some(ip) => ips_of(m, keys.drop_last()).push(ip),
            None => ips_of(m, keys.drop_last()),
        }
    }
}

/// The addresses in use by surfaces.
pub open spec fn projected(m: ManagerView) -> Seq<IpView> {
    ips_of(m, known_keys(m))
}

/// The network that surfaces are allocated from.
pub open spec fn base_of(m: ManagerView) -> Seq<u8> {
    if m.stack is Some {
        TUN_BASE@
    } else {
        LOOPBACK_BASE@
    }
}

/// The address that a name of ours stands for: our own name for where our
/// services are, any other for the surface that is called so.
pub open spec fn named_ip(m: ManagerView, label: Seq<char>) -> Option<IpView> {
    if m.self_name == Some(label) {
        Some(m.host)
    } else {
        match first_key(
            known_keys(m),
            |k: Seq<u8>| m.peers[k].surface is Some && m.peers[k].surface->Some_0.name == Some(label),
        ) {
            Some(k) => surface_ip(m.peers[k]),
            None => None,
        }
    }
}

/// The peer whose surface is at `ip`.
pub open spec fn owner_of(m: ManagerView, ip: IpView) -> Option<Seq<u8>> {
    first_key(known_keys(m), |k: Seq<u8>| surface_ip(m.peers[k]) == Some(ip))
}

/// What `list` shows of a peer. `live` holds the connections that are open.
pub open spec fn info_of(m: ManagerView, key: Seq<u8>, live: Seq<ConnId>) -> InfoView {
    let p = m.peers[key];
    InfoView {
        key: hex(key),
        name: p.label,
        version: p.version,
        online: p.conn is Some && live.contains(ConnId(p.conn->Some_0)),
        admission: m.session.peers[key].admission.name(),
        they_expose: p.exposed,
        ip: match surface_ip(p) {
            Some(ip) => Some(ip_text(ip)),
            None => None,
        },
        bound: bound_ports(p),
    }
}

/// What `list` shows of every peer, in the order of their keys.
pub open spec fn infos_of(m: ManagerView, live: Seq<ConnId>) -> Seq<InfoView> {
    known_keys(m).map_values(|k: Seq<u8>| info_of(m, k, live))
}

/// The view of an optional address.
pub open spec fn opt_ip(o: Option<IpAddr>) -> Option<IpView> {
    match o {
        Some(ip) => Some(ip@),
        None => None,
    }
}

/// Whether `live` holds `conn`.
fn is_live(live: &Vec<ConnId>, conn: ConnId) -> (r: bool)
    ensures
        r == live@.contains(conn),
{
    let mut i: usize = 0;
    while i < live.len()
        invariant
            i <= live@.len(),
            forall|j: int| 0 <= j < i ==> live@[j] != conn,
        decreases live@.len() - i,
    {
        if live[i].0 == conn.0 {
            assert(live@[i as int] == conn);
            return true;
        }
        i = i + 1;
    }
    false
}

impl PeerManager {
    /// Resolve a peer reference (a key, or the name we gave it) to a key.
    /// A key is tried first; a name match is the fallback.
    pub fn resolve_peer(&self, peer_ref: &str) -> (r: Option<EndpointId>)
        requires
            self.wf(),
        ensures
            opt_id(r) == resolved(self@, key_of_text(peer_ref@), peer_ref@),
            r is Some ==> self@.peers.contains_key(r->Some_0@),
    {
        match EndpointId::parse(peer_ref) {
            Ok(id) => self.resolve_among(Some(id), peer_ref),
            Err(InvalidKey) => self.resolve_among(None, peer_ref),
        }
    }

    /// `resolve_peer`, once it is known what key the reference reads as.
    pub fn resolve_among(&self, parsed: Option<EndpointId>, peer_ref: &str) -> (r: Option<EndpointId>)
        requires
            self.wf(),
        ensures
            opt_id(r) == resolved(self@, opt_id(parsed), peer_ref@),
            r is Some ==> self@.peers.contains_key(r->Some_0@),
    {
        if let Some(id) = parsed {
            if self.peers.contains(&id) {
                return Some(id);
            }
        }
        let keys = self.session.peer_keys();
        let ghost all = known_keys(self@);
        let ghost meets = |k: Seq<u8>| self@.peers[k].label == Some(peer_ref@);
        let mut i: usize = 0;
        assert(all.skip(0) =~= all);
        while i < keys.len()
            invariant
                i <= keys@.len(),
                self.wf(),
                all == id_views(keys@),
                all == known_keys(self@),
                !(parsed is Some && self@.peers.contains_key(parsed->Some_0@)),
                forall|k: Seq<u8>| #[trigger] all.contains(k) <==> self@.peers.contains_key(k),
                meets == (|k: Seq<u8>| self@.peers[k].label == Some(peer_ref@)),
                first_key(all, meets) == first_key(all.skip(i as int), meets),
            decreases keys@.len() - i,
        {
            let ghost rest = all.skip(i as int);
            assert(rest[0] == keys@[i as int]@);
            assert(rest.drop_first() =~= all.skip(i + 1));
            assert(all.contains(all[i as int]));
            if let Some(p) = self.peers.get(&keys[i]) {
                if p.is_called(peer_ref) {
                    return Some(keys[i]);
                }
            }
            i = i + 1;
        }
        assert(all.skip(keys@.len() as int) =~= Seq::<Seq<u8>>::empty());
        None
    }

    /// The network to allocate surface addresses from: that of the TUN device
    /// when there is one, else the loopback range.
    pub fn surface_base(&self) -> (r: [u8; 3])
        ensures
            r@ == base_of(self@),
    {
        if self.stack.is_some() {
            TUN_BASE
        } else {
            LOOPBACK_BASE
        }
    }

    /// A snapshot of the addresses currently in use by surfaces.
    pub fn projected_ips(&self) -> (r: Vec<IpAddr>)
        requires
            self.wf(),
        ensures
            ip_views(r@) == projected(self@),
    {
        let keys = self.session.peer_keys();
        let ghost all = known_keys(self@);
        let mut r: Vec<IpAddr> = Vec::new();
        let mut i: usize = 0;
        assert(ip_views(r@) =~= ips_of(self@, all.take(0)));
        while i < keys.len()
            invariant
                i <= keys@.len(),
                self.wf(),
                all == id_views(keys@),
                forall|k: Seq<u8>| #[trigger] all.contains(k) <==> self@.peers.contains_key(k),
                ip_views(r@) == ips_of(self@, all.take(i as int)),
            decreases keys@.len() - i,
        {
            let ghost before = ip_views(r@);
            proof {
                assert(all.take(i + 1).drop_last() =~= all.take(i as int));
                assert(all.take(i + 1).last() == keys@[i as int]@);
                assert(all.contains(all[i as int]));
            }
            if let Some(p) = self.peers.get(&keys[i]) {
                if let Some(ip) = p.ip() {
                    r.push(ip);
                    assert(ip_views(r@) =~= before.push(ip@));
                }
            }
            i = i + 1;
        }
        assert(all.take(keys@.len() as int) =~= all);
        r
    }

    /// Resolve a surface name to its address, for the owned resolver. Matches
    /// the name a surface was projected under. Our own name resolves to where
    /// our services are.
    pub fn resolve_name(&self, label: &str) -> (r: Option<IpAddr>)
        requires
            self.wf(),
        ensures
            opt_ip(r) == named_ip(self@, label@),
    {
        if opt_is(&self.self_name, label) {
            return Some(self.host);
        }
        let keys = self.session.peer_keys();
        let ghost all = known_keys(self@);
        let ghost meets = |k: Seq<u8>| self@.peers[k].surface is Some && self@.peers[k].surface->Some_0.name == Some(label@);
        let mut i: usize = 0;
        assert(all.skip(0) =~= all);
        while i < keys.len()
            invariant
                i <= keys@.len(),
                self.wf(),
                self@.self_name != Some(label@),
                all == id_views(keys@),
                all == known_keys(self@),
                forall|k: Seq<u8>| #[trigger] all.contains(k) <==> self@.peers.contains_key(k),
                meets == (|k: Seq<u8>|
                    self@.peers[k].surface is Some && self@.peers[k].surface->Some_0.name == Some(label@)),
                first_key(all, meets) == first_key(all.skip(i as int), meets),
            decreases keys@.len() - i,
        {
            let ghost rest = all.skip(i as int);
            assert(rest[0] == keys@[i as int]@);
            assert(rest.drop_first() =~= all.skip(i + 1));
            assert(all.contains(all[i as int]));
            if let Some(p) = self.peers.get(&keys[i]) {
                if p.surface_is_called(label) {
                    return p.ip();
                }
            }
            i = i + 1;
        }
        assert(all.skip(keys@.len() as int) =~= Seq::<Seq<u8>>::empty());
        None
    }

    /// The peer whose surface is bound at `ip` (for routing accepted TUN
    /// connections back to the owning peer).
    pub fn peer_for_ip(&self, ip: &IpAddr) -> (r: Option<EndpointId>)
        requires
            self.wf(),
        ensures
            opt_id(r) == owner_of(self@, ip@),
    {
        let keys = self.session.peer_keys();
        let ghost all = known_keys(self@);
        let ghost meets = |k: Seq<u8>| surface_ip(self@.peers[k]) == Some(ip@);
        let mut i: usize = 0;
        assert(all.skip(0) =~= all);
        while i < keys.len()
            invariant
                i <= keys@.len(),
                self.wf(),
                all == id_views(keys@),
                all == known_keys(self@),
                forall|k: Seq<u8>| #[trigger] all.contains(k) <==> self@.peers.contains_key(k),
                meets == (|k: Seq<u8>| surface_ip(self@.peers[k]) == Some(ip@)),
                first_key(all, meets) == first_key(all.skip(i as int), meets),
            decreases keys@.len() - i,
        {
            let ghost rest = all.skip(i as int);
            assert(rest[0] == keys@[i as int]@);
            assert(rest.drop_first() =~= all.skip(i + 1));
            assert(all.contains(all[i as int]));
            if let Some(p) = self.peers.get(&keys[i]) {
                if let Some(at) = p.ip() {
                    if at.same(ip) {
                        return Some(keys[i]);
                    }
                }
            }
            i = i + 1;
        }
        assert(all.skip(keys@.len() as int) =~= Seq::<Seq<u8>>::empty());
        None
    }

    /// The ports a peer announced last.
    pub(super) fn announced_by(&self, id: &EndpointId) -> (r: Vec<u16>)
        requires
            self.wf(),
        ensures
            r@ == if self@.peers.contains_key(id@) {
                announced_ports(self@.peers[id@])
            } else {
                seq![]
            },
    {
        match self.peers.get(id) {
            Some(p) => p.announced(),
            None => Vec::new(),
        }
    }

    /// Whether we dial the peer, and whether it has a connection. None once it
    /// is gone.
    pub fn link_state(&self, id: &EndpointId) -> (r: Option<(bool, Option<ConnId>)>)
        requires
            self.wf(),
        ensures
            match r {
                Some((dial, conn)) => {
                    &&& self@.peers.contains_key(id@)
                    &&& dial == self@.peers[id@].dial
                    &&& crate::table::opt_conn(conn) == self@.peers[id@].conn
                },
                None => !self@.peers.contains_key(id@),
            },
    {
        match self.peers.get(id) {
            Some(p) => Some((p.dial(), p.conn())),
            None => None,
        }
    }

    /// The reply of the resolver in the stack to one query packet: None if
    /// there is no stack, or the query is malformed.
    pub fn stack_answer(&self, query: &[u8]) -> (r: Option<Vec<u8>>)
        requires
            self.wf(),
        ensures
            match (self@.stack, question_of(query@)) {
                (Some(s), Some(q)) => {
                    &&& r is Some
                    &&& r->Some_0@ == reply_bytes(
                        query@,
                        q.qend,
                        match asked_label(q) {
                            Some(label) => lookup_in(s.names, label),
                            None => None,
                        },
                    )
                },
                _ => r is None,
            },
    {
        match &self.stack {
            Some(stack) => stack.answer(query),
            None => None,
        }
    }

    /// What `list` shows of one peer.
    fn info(&self, id: &EndpointId, live: &Vec<ConnId>) -> (r: Option<PeerInfo>)
        requires
            self.wf(),
        ensures
            match r {
                Some(i) => self@.peers.contains_key(id@) && i@ == info_of(self@, id@, live@),
                None => !self@.peers.contains_key(id@),
            },
    {
        let p = match self.peers.get(id) {
            Some(p) => p,
            None => {
                return None;
            },
        };
        let online = match p.conn() {
            Some(c) => is_live(live, c),
            None => false,
        };
        let admission = match self.session.admission_of(id) {
            Some(a) => a.as_str(),
            None => "unknown",
        };
        let ip = match p.ip() {
            Some(ip) => Some(ip.to_string()),
            None => None,
        };
        proof {
            assert(self@.session.peers.dom().contains(id@));
        }
        Some(
            PeerInfo {
                key: id.to_string(),
                name: p.label(),
                version: p.version(),
                online,
                admission: admission.to_owned(),
                they_expose: p.exposed(),
                ip,
                bound: p.bound(),
            },
        )
    }

    /// List all peers, in the order of their keys. `live` holds the connections
    /// that are open.
    pub fn list(&self, live: &Vec<ConnId>) -> (r: Vec<PeerInfo>)
        requires
            self.wf(),
        ensures
            info_views(r@) == infos_of(self@, live@),
    {
        let keys = self.session.peer_keys();
        let ghost all = known_keys(self@);
        let mut r: Vec<PeerInfo> = Vec::new();
        let mut i: usize = 0;
        assert(info_views(r@) =~= infos_of(self@, live@).take(0));
        while i < keys.len()
            invariant
                i <= keys@.len(),
                self.wf(),
                all == id_views(keys@),
                all == known_keys(self@),
                forall|k: Seq<u8>| #[trigger] all.contains(k) <==> self@.peers.contains_key(k),
                info_views(r@) == infos_of(self@, live@).take(i as int),
            decreases keys@.len() - i,
        {
            let ghost before = info_views(r@);
            assert(all[i as int] == keys@[i as int]@);
            assert(all.contains(all[i as int]));
            if let Some(info) = self.info(&keys[i], live) {
                r.push(info);
                assert(info_views(r@) =~= before.push(info@));
                assert(info_views(r@) =~= infos_of(self@, live@).take(i + 1));
            }
            i = i + 1;
        }
        assert(infos_of(self@, live@).take(keys@.len() as int) =~= infos_of(self@, live@));
        r
    }
}

}
