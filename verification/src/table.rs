//! The peers a daemon knows, found by key.

use crate::addr::{IpAddr, IpView};
use crate::index::{
    get_place, has_task, insert_place, insert_task, new_places, new_tasks, places_in, remove_place, remove_task, task_ports,
    tasks_in,
};
use crate::key::EndpointId;
use crate::order::{ascending, lemma_listing, lemma_port_order, listing, lists, port_order};
use crate::session::ConnId;
use crate::surface::{Surface, SurfaceView};
use crate::text::{copy_opt, opt_is, opt_text};
use dashmap::DashMap;
use vstd::prelude::*;

verus! {

/// What is known of a peer.
#[derive(Debug)]
pub struct Peer {
    id: EndpointId,
    /// What we call this peer (None until something names it)
    label: Option<String>,
    /// Whether we dial this peer to reconnect. True for peers we accepted;
    /// peers that accepted our invitation dial us, so we just wait.
    dial: bool,
    /// An invitation's one-time code, presented on connect by the accepter
    token: Option<String>,
    /// The connection the peer was last reached on
    conn: Option<ConnId>,
    /// Ports this peer exposes
    exposed: Vec<u16>,
    /// Ports it announced since, while its bindings are being brought in line
    /// with them
    incoming: Option<Vec<u16>>,
    /// Crate version the peer last announced. None until it sends one.
    version: Option<String>,
    /// Where this peer's ports are bound locally. None until projected: an
    /// unprojected peer's ports are known but have no listener.
    surface: Option<Surface>,
    /// Active bindings (local port -> task)
    bindings: DashMap<u16, u64>,
}

/// A peer as plain values.
#[verifier::ext_equal]
pub struct PeerView {
    pub label: Option<Seq<char>>,
    pub dial: bool,
    pub token: Option<Seq<char>>,
    pub conn: Option<u64>,
    pub exposed: Seq<u16>,
    pub incoming: Option<Seq<u16>>,
    pub version: Option<Seq<char>>,
    pub surface: Option<SurfaceView>,
    pub bound: Map<u16, u64>,
}

/// The view of an optional surface.
pub open spec fn opt_surface(o: Option<Surface>) -> Option<SurfaceView> {
    match o {
        Some(s) => Some(s@),
        None => None,
    }
}

/// The number of an optional connection.
pub open spec fn opt_conn(o: Option<ConnId>) -> Option<u64> {
    match o {
        Some(c) => Some(c.0),
        None => None,
    }
}

/// A peer that was just recorded: nothing is known of it beyond how it came.
pub open spec fn new_peer(label: Option<Seq<char>>, dial: bool, token: Option<Seq<char>>, conn: Option<u64>) -> PeerView {
    PeerView {
        label,
        dial,
        token,
        conn,
        exposed: seq![],
        incoming: None,
        version: None,
        surface: None,
        bound: Map::empty(),
    }
}

/// The view of an optional list of ports.
pub open spec fn opt_ports(o: Option<Vec<u16>>) -> Option<Seq<u16>> {
    match o {
        Some(ports) => Some(ports@),
        None => None,
    }
}

/// The ports a peer announced last.
pub open spec fn announced_ports(p: PeerView) -> Seq<u16> {
    match p.incoming {
        Some(ports) => ports,
        None => p.exposed,
    }
}

/// The ports that may be bound for a peer: those it exposes, and those of an
/// announcement that is not worked off.
pub open spec fn held_ports(p: PeerView) -> Seq<u16> {
    match p.incoming {
        Some(ports) => p.exposed + ports,
        None => p.exposed,
    }
}

/// A peer whose bindings are in line with what it announced last.
pub open spec fn noted(p: PeerView) -> PeerView {
    PeerView { exposed: announced_ports(p), incoming: None, ..p }
}

/// The bound ports, ascending.
pub open spec fn bound_ports(p: PeerView) -> Seq<u16> {
    listing(p.bound.dom(), port_order())
}

/// The address of a peer's surface, if it is projected.
pub open spec fn surface_ip(p: PeerView) -> Option<IpView> {
    match p.surface {
        Some(s) => Some(s.ip),
        None => None,
    }
}

impl View for Peer {
    type V = PeerView;

    closed spec fn view(&self) -> PeerView {
        PeerView {
            label: opt_text(self.label),
            dial: self.dial,
            token: opt_text(self.token),
            conn: opt_conn(self.conn),
            exposed: self.exposed@,
            incoming: opt_ports(self.incoming),
            version: opt_text(self.version),
            surface: opt_surface(self.surface),
            bound: tasks_in(self.bindings),
        }
    }
}

impl Peer {
    /// The bytes of the peer's key.
    pub closed spec fn key(&self) -> Seq<u8> {
        self.id@
    }

    /// A peer that was just recorded.
    pub fn new(
        id: EndpointId,
        label: Option<String>,
        dial: bool,
        token: Option<String>,
        conn: Option<ConnId>,
    ) -> (r: Peer)
        ensures
            r.key() == id@,
            r@ == new_peer(opt_text(label), dial, opt_text(token), opt_conn(conn)),
    {
        let r = Peer {
            id,
            label,
            dial,
            token,
            conn,
            exposed: Vec::new(),
            incoming: None,
            version: None,
            surface: None,
            bindings: new_tasks(),
        };
        assert(r@ =~= new_peer(opt_text(label), dial, opt_text(token), opt_conn(conn)));
        r
    }

    /// The peer's key.
    pub fn id(&self) -> (r: EndpointId)
        ensures
            r@ == self.key(),
    {
        self.id
    }

    /// What we call the peer.
    pub fn label(&self) -> (r: Option<String>)
        ensures
            opt_text(r) == self@.label,
    {
        copy_opt(&self.label)
    }

    /// Whether we call the peer `name`.
    pub fn is_called(&self, name: &str) -> (r: bool)
        ensures
            r == (self@.label == Some(name@)),
    {
        opt_is(&self.label, name)
    }

    /// Whether we dial the peer.
    pub fn dial(&self) -> (r: bool)
        ensures
            r == self@.dial,
    {
        self.dial
    }

    /// The code to present to the peer.
    pub fn token(&self) -> (r: Option<String>)
        ensures
            opt_text(r) == self@.token,
    {
        copy_opt(&self.token)
    }

    /// The connection the peer was last reached on.
    pub fn conn(&self) -> (r: Option<ConnId>)
        ensures
            opt_conn(r) == self@.conn,
    {
        self.conn
    }

    /// The ports the peer exposes.
    pub fn exposed(&self) -> (r: Vec<u16>)
        ensures
            r@ == self@.exposed,
    {
        copy_ports(&self.exposed)
    }

    /// The ports the peer announced last.
    pub fn announced(&self) -> (r: Vec<u16>)
        ensures
            r@ == announced_ports(self@),
    {
        match &self.incoming {
            Some(ports) => copy_ports(ports),
            None => copy_ports(&self.exposed),
        }
    }

    /// The ports that may be bound for the peer.
    pub fn held(&self) -> (r: Vec<u16>)
        ensures
            r@ == held_ports(self@),
    {
        let mut r = copy_ports(&self.exposed);
        if let Some(ports) = &self.incoming {
            let mut more = copy_ports(ports);
            r.append(&mut more);
        }
        r
    }

    /// The version the peer announced.
    pub fn version(&self) -> (r: Option<String>)
        ensures
            opt_text(r) == self@.version,
    {
        copy_opt(&self.version)
    }

    /// The address of the peer's surface, if it is projected.
    pub fn ip(&self) -> (r: Option<IpAddr>)
        ensures
            match r {
                Some(ip) => surface_ip(self@) == Some(ip@),
                None => surface_ip(self@) is None,
            },
            r is Some <==> self@.surface is Some,
    {
        match &self.surface {
            Some(s) => Some(s.ip),
            None => None,
        }
    }

    /// Whether the peer's surface is called `name`.
    pub fn surface_is_called(&self, name: &str) -> (r: bool)
        ensures
            r == (self@.surface is Some && self@.surface->Some_0.name == Some(name@)),
    {
        match &self.surface {
            Some(s) => opt_is(&s.name, name),
            None => false,
        }
    }

    /// Whether a port is bound.
    pub fn is_bound(&self, port: u16) -> (r: bool)
        ensures
            r == self@.bound.contains_key(port),
    {
        has_task(&self.bindings, port)
    }

    /// The bound ports, ascending.
    pub fn bound(&self) -> (r: Vec<u16>)
        ensures
            r@ == bound_ports(self@),
            lists(r@, self@.bound.dom(), port_order()),
    {
        let ports = task_ports(&self.bindings);
        let sorted = sort_ports(&ports);
        proof {
            lemma_port_order();
            assert forall|p: u16| #[trigger] sorted@.contains(p) <==> self@.bound.dom().contains(p) by {}
            lemma_listing(sorted@, self@.bound.dom(), port_order());
        }
        sorted
    }
}

/// A copy of some ports.
fn copy_ports(ports: &Vec<u16>) -> (r: Vec<u16>)
    ensures
        r@ == ports@,
{
    let mut r: Vec<u16> = Vec::new();
    let mut i: usize = 0;
    while i < ports.len()
        invariant
            i <= ports@.len(),
            r@ == ports@.take(i as int),
        decreases ports@.len() - i,
    {
        r.push(ports[i]);
        assert(r@ =~= ports@.take(i + 1));
        i = i + 1;
    }
    assert(r@ =~= ports@);
    r
}

/// Puts ports in ascending order, each once.
fn sort_ports(ports: &Vec<u16>) -> (r: Vec<u16>)
    ensures
        ascending(r@, port_order()),
        forall|p: u16| #[trigger] r@.contains(p) <==> ports@.contains(p),
{
    let mut r: Vec<u16> = Vec::new();
    let mut i: usize = 0;
    while i < ports.len()
        invariant
            i <= ports@.len(),
            ascending(r@, port_order()),
            forall|p: u16| #[trigger] r@.contains(p) <==> ports@.take(i as int).contains(p),
        decreases ports@.len() - i,
    {
        let ghost before = r@;
        let p = ports[i];
        insert_port(&mut r, p);
        proof {
            let (a, b) = (ports@.take(i as int), ports@.take(i + 1));
            assert forall|q: u16| #[trigger] b.contains(q) <==> a.contains(q) || q == p by {
                if a.contains(q) {
                    let x = choose|x: int| 0 <= x < a.len() && a[x] == q;
                    assert(b[x] == q);
                }
                assert(b[i as int] == p);
                if b.contains(q) {
                    let x = choose|x: int| 0 <= x < b.len() && b[x] == q;
                    if x < i {
                        assert(a[x] == q);
                    }
                }
            }
        }
        i = i + 1;
    }
    assert(ports@.take(ports@.len() as int) =~= ports@);
    r
}

/// Puts a port in its place among ascending ones, unless it is there.
fn insert_port(r: &mut Vec<u16>, p: u16)
    requires
        ascending(old(r)@, port_order()),
    ensures
        ascending(final(r)@, port_order()),
        forall|q: u16| #[trigger] final(r)@.contains(q) <==> old(r)@.contains(q) || q == p,
{
    let ghost before = r@;
    let n = r.len();
    let mut i: usize = 0;
    while i < n && r[i] < p
        invariant
            i <= n == r@.len(),
            r@ == before,
            forall|j: int| 0 <= j < i ==> #[trigger] r@[j] < p,
        decreases n - i,
    {
        i = i + 1;
    }
    if i < n && r[i] == p {
        assert(before[i as int] == p);
        return;
    }
    r.insert(i, p);
    proof {
        let after = r@;
        assert(after =~= before.insert(i as int, p));
        assert forall|a: int, b: int| #![trigger after[a], after[b]] 0 <= a < b < after.len() implies port_order()(
            after[a],
            after[b],
        ) by {
            if a == i {
                if b > i + 1 {
                    assert(port_order()(before[i as int], before[b - 1]));
                }
            } else if b != i {
                let x = if a < i { a } else { a - 1 };
                let y = if b < i { b } else { b - 1 };
                assert(port_order()(before[x], before[y]));
            }
        }
        assert forall|q: u16| #[trigger] after.contains(q) <==> before.contains(q) || q == p by {
            if before.contains(q) {
                let x = choose|x: int| 0 <= x < before.len() && before[x] == q;
                let y = if x < i { x } else { x + 1 };
                assert(after[y] == q);
            }
            assert(after[i as int] == p);
            if after.contains(q) {
                let y = choose|y: int| 0 <= y < after.len() && after[y] == q;
                if y != i {
                    let x = if y < i { y } else { y - 1 };
                    assert(before[x] == q);
                }
            }
        }
    }
}

// -------------------------------------------------------------------- table

/// The peers, found by key.
#[derive(Debug)]
pub struct PeerTable {
    /// Where in `peers` the peer with a key stands
    places: DashMap<[u8; 32], u64>,
    peers: Vec<Peer>,
}

/// Every peer stands where its key leads, and every key leads to its peer.
spec fn placed(places: Map<Seq<u8>, u64>, peers: Seq<Peer>) -> bool {
    &&& forall|i: int|
        0 <= i < peers.len() ==> places.contains_key((#[trigger] peers[i]).key()) && places[peers[i].key()] == i
    &&& forall|k: Seq<u8>| #[trigger] places.contains_key(k) ==> places[k] < peers.len() && peers[places[k] as int].key() == k
}

/// The peers by key.
spec fn table_of(places: Map<Seq<u8>, u64>, peers: Seq<Peer>) -> Map<Seq<u8>, PeerView> {
    Map::new(|k: Seq<u8>| places.contains_key(k), |k: Seq<u8>| peers[places[k] as int]@)
}

/// Putting a peer in the place of one with its key.
proof fn lemma_set(places: Map<Seq<u8>, u64>, peers: Seq<Peer>, i: int, p: Peer)
    requires
        placed(places, peers),
        0 <= i < peers.len(),
        p.key() == peers[i].key(),
    ensures
        placed(places, peers.update(i, p)),
        table_of(places, peers.update(i, p)) == table_of(places, peers).insert(p.key(), p@),
{
    let now = peers.update(i, p);
    assert forall|j: int| 0 <= j < now.len() implies places.contains_key((#[trigger] now[j]).key()) && places[now[j].key()]
        == j by {
        assert(now[j].key() == peers[j].key());
    }
    assert forall|k: Seq<u8>| #[trigger] places.contains_key(k) implies places[k] < now.len() && now[places[k] as int].key()
        == k by {}
    assert forall|k: Seq<u8>| #[trigger] places.contains_key(k) && k != p.key() implies now[places[k] as int]
        == peers[places[k] as int] by {
        if places[k] == i {
            assert(peers[i].key() == k);
        }
    }
    assert(table_of(places, now) =~= table_of(places, peers).insert(p.key(), p@));
}

impl View for PeerTable {
    type V = Map<Seq<u8>, PeerView>;

    closed spec fn view(&self) -> Map<Seq<u8>, PeerView> {
        table_of(places_in(self.places), self.peers@)
    }
}

impl PeerTable {
    /// Every peer stands where its key leads, and every key leads to its peer.
    pub closed spec fn wf(&self) -> bool {
        placed(places_in(self.places), self.peers@)
    }

    /// No peers.
    pub fn new() -> (r: PeerTable)
        ensures
            r.wf(),
            r@ == Map::<Seq<u8>, PeerView>::empty(),
    {
        let r = PeerTable { places: new_places(), peers: Vec::new() };
        assert(r@ =~= Map::<Seq<u8>, PeerView>::empty());
        r
    }

    /// Where the peer with `id` stands.
    fn find(&self, id: &EndpointId) -> (r: Option<usize>)
        requires
            self.wf(),
        ensures
            match r {
                Some(i) => i < self.peers@.len() && self.peers@[i as int].key() == id@ && self@.contains_key(id@)
                    && self@[id@] == self.peers@[i as int]@,
                None => !self@.contains_key(id@),
            },
    {
        let n = self.peers.len();
        match get_place(&self.places, id.as_bytes()) {
            Some(place) => {
                assert(place < n);
                Some(place as usize)
            },
            None => None,
        }
    }

    /// Whether there is a peer with `id`.
    pub fn contains(&self, id: &EndpointId) -> (r: bool)
        requires
            self.wf(),
        ensures
            r == self@.contains_key(id@),
    {
        self.find(id).is_some()
    }

    /// The peer with `id`.
    pub fn get(&self, id: &EndpointId) -> (r: Option<&Peer>)
        requires
            self.wf(),
        ensures
            match r {
                Some(p) => self@.contains_key(id@) && p@ == self@[id@] && p.key() == id@,
                None => !self@.contains_key(id@),
            },
    {
        match self.find(id) {
            Some(i) => Some(&self.peers[i]),
            None => None,
        }
    }

    /// Records a peer, in place of any other with its key.
    pub fn insert(&mut self, peer: Peer)
        requires
            old(self).wf(),
        ensures
            final(self).wf(),
            final(self)@ == old(self)@.insert(peer.key(), peer@),
    {
        let ghost places = places_in(self.places);
        let ghost peers = self.peers@;
        match self.find(&peer.id) {
            Some(i) => {
                proof {
                    lemma_set(places, peers, i as int, peer);
                }
                self.peers.set(i, peer);
            },
            None => {
                let ghost p = peer;
                let n = self.peers.len();
                insert_place(&mut self.places, *peer.id.as_bytes(), n as u64);
                self.peers.push(peer);
                proof {
                    let now = places_in(self.places);
                    let rows = self.peers@;
                    assert forall|i: int| 0 <= i < rows.len() implies now.contains_key((#[trigger] rows[i]).key())
                        && now[rows[i].key()] == i by {
                        if i < n {
                            assert(rows[i] == peers[i]);
                            assert(places.contains_key(peers[i].key()));
                        }
                    }
                    assert(self@ =~= old(self)@.insert(p.key(), p@));
                }
            },
        }
    }

    /// Takes the peer with `id` out.
    pub fn remove(&mut self, id: &EndpointId) -> (r: Option<Peer>)
        requires
            old(self).wf(),
        ensures
            final(self).wf(),
            final(self)@ == old(self)@.remove(id@),
            match r {
                Some(p) => old(self)@.contains_key(id@) && p@ == old(self)@[id@] && p.key() == id@,
                None => !old(self)@.contains_key(id@),
            },
    {
        let ghost places = places_in(self.places);
        let ghost peers = self.peers@;
        match self.find(id) {
            Some(i) => {
                let last = self.peers.len() - 1;
                let moved = self.peers[last].id;
                let p = self.peers.swap_remove(i);
                if i < last {
                    insert_place(&mut self.places, *moved.as_bytes(), i as u64);
                }
                remove_place(&mut self.places, id.as_bytes());
                proof {
                    let now = places_in(self.places);
                    let rows = self.peers@;
                    assert(moved@ == peers[last as int].key());
                    assert(places.contains_key(peers[last as int].key()) && places[moved@] == last);
                    assert forall|j: int| 0 <= j < rows.len() implies now.contains_key((#[trigger] rows[j]).key())
                        && now[rows[j].key()] == j by {
                        if j == i {
                            assert(rows[j] == peers[last as int]);
                        } else {
                            assert(rows[j] == peers[j]);
                            assert(places.contains_key(peers[j].key()) && places[peers[j].key()] == j);
                        }
                        assert(rows[j].key() != id@);
                    }
                    assert forall|k: Seq<u8>| #[trigger] now.contains_key(k) implies now[k] < rows.len()
                        && rows[now[k] as int].key() == k && places.contains_key(k) && rows[now[k] as int]
                        == peers[places[k] as int] by {
                        if i < last && k == moved@ {
                            assert(rows[i as int] == peers[last as int]);
                        } else {
                            assert(places.contains_key(k));
                            assert(places[k] != i);
                            assert(places[k] != last);
                        }
                    }
                    assert(self@ =~= old(self)@.remove(id@));
                }
                Some(p)
            },
            None => {
                assert(self@ =~= old(self)@.remove(id@));
                None
            },
        }
    }

    /// Notes the connection a peer is reached on.
    pub fn set_conn(&mut self, id: &EndpointId, conn: Option<ConnId>)
        requires
            old(self).wf(),
        ensures
            final(self).wf(),
            final(self)@ == changed(old(self)@, id@, |p: PeerView| PeerView { conn: opt_conn(conn), ..p }),
    {
        if let Some(i) = self.find(id) {
            self.peers[i].conn = conn;
            proof {
                lemma_set(places_in(self.places), old(self).peers@, i as int, self.peers@[i as int]);
                assert(self.peers@ =~= old(self).peers@.update(i as int, self.peers@[i as int]));
            }
        }
    }

    /// Notes the version a peer announced.
    pub fn set_version(&mut self, id: &EndpointId, version: Option<String>)
        requires
            old(self).wf(),
        ensures
            final(self).wf(),
            final(self)@ == changed(old(self)@, id@, |p: PeerView| PeerView { version: opt_text(version), ..p }),
    {
        if let Some(i) = self.find(id) {
            self.peers[i].version = version;
            proof {
                lemma_set(places_in(self.places), old(self).peers@, i as int, self.peers@[i as int]);
                assert(self.peers@ =~= old(self).peers@.update(i as int, self.peers@[i as int]));
            }
        }
    }

    /// Keeps the ports a peer announced until its bindings are in line with
    /// them.
    pub fn set_incoming(&mut self, id: &EndpointId, ports: Vec<u16>)
        requires
            old(self).wf(),
        ensures
            final(self).wf(),
            final(self)@ == changed(old(self)@, id@, |p: PeerView| PeerView { incoming: Some(ports@), ..p }),
    {
        if let Some(i) = self.find(id) {
            self.peers[i].incoming = Some(ports);
            proof {
                lemma_set(places_in(self.places), old(self).peers@, i as int, self.peers@[i as int]);
                assert(self.peers@ =~= old(self).peers@.update(i as int, self.peers@[i as int]));
            }
        }
    }

    /// Notes the ports a peer announced: its bindings are in line with them.
    pub fn note_incoming(&mut self, id: &EndpointId)
        requires
            old(self).wf(),
        ensures
            final(self).wf(),
            final(self)@ == changed(old(self)@, id@, |p: PeerView| noted(p)),
    {
        if let Some(i) = self.find(id) {
            let ports = self.peers[i].announced();
            self.peers[i].exposed = ports;
            self.peers[i].incoming = None;
            proof {
                lemma_set(places_in(self.places), old(self).peers@, i as int, self.peers@[i as int]);
                assert(self.peers@ =~= old(self).peers@.update(i as int, self.peers@[i as int]));
            }
        }
    }

    /// Notes where a peer is projected.
    pub fn set_surface(&mut self, id: &EndpointId, surface: Option<Surface>)
        requires
            old(self).wf(),
        ensures
            final(self).wf(),
            final(self)@ == changed(old(self)@, id@, |p: PeerView| PeerView { surface: opt_surface(surface), ..p }),
    {
        if let Some(i) = self.find(id) {
            self.peers[i].surface = surface;
            proof {
                lemma_set(places_in(self.places), old(self).peers@, i as int, self.peers@[i as int]);
                assert(self.peers@ =~= old(self).peers@.update(i as int, self.peers@[i as int]));
            }
        }
    }

    /// Notes the task that serves a port of a peer.
    pub fn bind(&mut self, id: &EndpointId, port: u16, task: u64)
        requires
            old(self).wf(),
        ensures
            final(self).wf(),
            final(self)@ == changed(old(self)@, id@, |p: PeerView| PeerView { bound: p.bound.insert(port, task), ..p }),
    {
        if let Some(i) = self.find(id) {
            insert_task(&mut self.peers[i].bindings, port, task);
            proof {
                lemma_set(places_in(self.places), old(self).peers@, i as int, self.peers@[i as int]);
                assert(self.peers@ =~= old(self).peers@.update(i as int, self.peers@[i as int]));
            }
        }
    }

    /// Forgets the task that serves a port of a peer, and hands it back.
    pub fn unbind(&mut self, id: &EndpointId, port: u16) -> (r: Option<u64>)
        requires
            old(self).wf(),
        ensures
            final(self).wf(),
            final(self)@ == changed(old(self)@, id@, |p: PeerView| PeerView { bound: p.bound.remove(port), ..p }),
            r == if old(self)@.contains_key(id@) && old(self)@[id@].bound.contains_key(port) {
                Some(old(self)@[id@].bound[port])
            } else {
                None
            },
    {
        if let Some(i) = self.find(id) {
            let r = remove_task(&mut self.peers[i].bindings, port);
            proof {
                lemma_set(places_in(self.places), old(self).peers@, i as int, self.peers@[i as int]);
                assert(self.peers@ =~= old(self).peers@.update(i as int, self.peers@[i as int]));
            }
            r
        } else {
            None
        }
    }
}

/// The table with the peer under `key`, if there is one, changed by `f`.
pub open spec fn changed(
    m: Map<Seq<u8>, PeerView>,
    key: Seq<u8>,
    f: spec_fn(PeerView) -> PeerView,
) -> Map<Seq<u8>, PeerView> {
    if m.contains_key(key) {
        m.insert(key, f(m[key]))
    } else {
        m
    }
}

}
