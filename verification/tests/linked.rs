//! Two daemons over a link that never leaves memory: what one of them sends is
//! handed to the other, and ports are bound as if every address were free.

use pai_sho::addr::{IpAddr, Ipv4Addr};
use pai_sho::daemon::{Daemon, Step};
use pai_sho::effect::Effect;
use pai_sho::enroll::{Pin, Pins};
use pai_sho::key::EndpointId;
use pai_sho::peer::links::{Enrollment, Inbound, TunnelStep};
use pai_sho::peer::projection::Restore;
use pai_sho::peer::update::{UpdateEvent, UpdateStep};
use pai_sho::peer::PeerManager;
use pai_sho::protocol::{PeerInfo, Request, Response};
use pai_sho::resolver::SUFFIX;
use pai_sho::session::ConnId;
use pai_sho::startup::identity_of;
use pai_sho::surface::{Platform, SurfaceRecord, SurfaceStore};
use pai_sho::tunnel::open_header;

const PORT: u16 = 8080;

fn local(host: u8) -> IpAddr {
    IpAddr::V4(Ipv4Addr::new(127, 0, 0, host))
}

struct Node {
    daemon: Daemon,
    /// Effects that are still to be carried out
    todo: Vec<Effect>,
    /// The connection that waits for a code
    waiting: Option<Enrollment>,
    closed: Vec<String>,
    next_task: u64,
}

impl Node {
    fn new(n: u8, host: IpAddr) -> Node {
        let id = identity_of([n; 32], false).id;
        let peers = PeerManager::new(host, false, None, Platform::Linux);
        Node { daemon: Daemon::new(id, peers), todo: vec![], waiting: None, closed: vec![], next_task: 1 }
    }

    fn id(&self) -> EndpointId {
        self.daemon.me
    }

    fn request(&mut self, request: Request) -> Response {
        match self.daemon.handle_request(request, None, &vec![]) {
            Step::Reply { effects, response } => {
                self.todo.extend(effects);
                response
            }
            other => panic!("{:?}", other),
        }
    }

    fn list(&self) -> Vec<PeerInfo> {
        self.daemon.list(&vec![]).peers
    }

    fn update(&mut self, peer: &EndpointId, ports: Vec<u16>, mut failures: u32) {
        let (mut update, mut step) = self.daemon.peers.begin_update(*peer, ports);
        loop {
            let event = match step {
                UpdateStep::Perform(fx) => {
                    self.todo.extend(fx);
                    UpdateEvent::Performed
                }
                UpdateStep::Bind { .. } if failures > 0 => {
                    failures -= 1;
                    UpdateEvent::BindFailed
                }
                UpdateStep::Bind { .. } => UpdateEvent::Bound,
                UpdateStep::Wait { .. } => UpdateEvent::Waited,
                UpdateStep::Done => return,
                other => panic!("{:?}", other),
            };
            self.next_task += 1;
            step = self.daemon.peers.on_update(&mut update, event, self.next_task);
        }
    }
}

/// Carries out what both sides have to do until neither has anything left.
fn settle(a: &mut Node, b: &mut Node, failures: u32) {
    while !a.todo.is_empty() || !b.todo.is_empty() {
        step(a, b, failures);
        step(b, a, failures);
    }
}

fn step(from: &mut Node, to: &mut Node, failures: u32) {
    for effect in from.todo.drain(..).collect::<Vec<Effect>>() {
        match effect {
            Effect::Send { msg, .. } => match to.waiting.take() {
                Some(mut waiting) => match to.daemon.peers.on_enroll_message(&mut waiting, msg) {
                    Some(fx) => to.todo.extend(fx),
                    None => to.waiting = Some(waiting),
                },
                None => {
                    let fx = to.daemon.peers.on_control(&from.id(), msg);
                    to.todo.extend(fx);
                }
            },
            Effect::UpdatePorts { peer, ports } => from.update(&peer, ports, failures),
            Effect::Close { reason, .. } => from.closed.push(reason),
            _ => {}
        }
    }
}

/// `b` dials `a`, and both serve the connection.
fn dial(b: &mut Node, a: &mut Node) {
    match a.daemon.peers.handle_connection(b.id()) {
        Inbound::Pending(conn) => a.waiting = Some(Enrollment::new(conn, b.id())),
        Inbound::Installed { effects, .. } => a.todo.extend(effects),
    }
    let (_, fx) = b.daemon.peers.on_dialed(&a.id());
    b.todo.extend(fx);
    let fx = b.daemon.peers.on_serving(&a.id());
    b.todo.extend(fx);
    settle(a, b, 0);
}

fn pair(host: IpAddr) -> (Node, Node) {
    (Node::new(1, host), Node::new(2, host))
}

fn invite(a: &mut Node, name: &str, expose: Vec<u16>) -> String {
    match a.request(Request::Invite { key: None, name: Some(name.into()), expose }) {
        Response::Invite(i) => i,
        other => panic!("expected an invitation, got {:?}", other),
    }
}

/// Link `b` to `a`: `a` extends an invitation and `b` takes it up.
fn enroll(a: &mut Node, b: &mut Node) {
    let handle = invite(a, "b", vec![]);
    assert_eq!(b.request(Request::Accept { handle, name: Some("a".into()) }), Response::Done);
    dial(b, a);
}

fn expose(a: &mut Node, b: &mut Node) {
    let to = vec![b.id().to_string()];
    assert_eq!(a.request(Request::Expose { port: PORT, to, all: false }), Response::Done);
}

fn bound_on(n: &Node) -> Vec<u16> {
    n.list().iter().flat_map(|p| p.bound.clone()).collect()
}

#[test]
fn a_granted_port_is_served_and_bound() {
    let (mut a, mut b) = pair(local(1));
    enroll(&mut a, &mut b);
    expose(&mut a, &mut b);
    settle(&mut a, &mut b, 0);

    let seen = b.list();
    assert_eq!(seen[0].ip, Some("127.0.1.2".to_string()));
    assert_eq!(seen[0].bound, vec![PORT]);
    assert_eq!(
        a.daemon.peers.on_tunnel(&b.id(), open_header(PORT)),
        TunnelStep::Serve { host: local(1), port: PORT }
    );
}

#[test]
fn an_ungranted_port_is_never_announced() {
    let (mut a, mut b) = pair(local(1));
    enroll(&mut a, &mut b);
    expose(&mut a, &mut b);
    settle(&mut a, &mut b, 0);
    assert_eq!(bound_on(&b), vec![PORT]);

    assert_eq!(a.request(Request::Unexpose { port: PORT, to: None }), Response::Done);
    settle(&mut a, &mut b, 0);
    assert!(b.list().iter().all(|p| !p.bound.contains(&PORT)));
}

#[test]
fn a_peer_with_no_grant_is_told_nothing() {
    let (mut a, mut b) = pair(local(1));
    enroll(&mut a, &mut b);
    let peers = b.list();
    let a_seen = peers.iter().find(|p| p.key == a.id().to_string()).unwrap();
    assert!(a_seen.they_expose.is_empty());
}

#[test]
fn an_unenrolled_peer_is_refused() {
    let (mut a, mut b) = pair(local(1));
    let handle = a.id().to_string();
    assert_eq!(b.request(Request::Accept { handle, name: None }), Response::Done);
    dial(&mut b, &mut a);
    assert!(a.list().is_empty());
    assert_eq!(a.closed, vec!["not authorized".to_string()]);
}

#[test]
fn forwarding_honours_the_host_address() {
    let (mut a, mut b) = pair(local(2));
    enroll(&mut a, &mut b);
    expose(&mut a, &mut b);
    settle(&mut a, &mut b, 0);
    assert_eq!(bound_on(&b), vec![PORT]);
    assert_eq!(
        a.daemon.peers.on_tunnel(&b.id(), open_header(PORT)),
        TunnelStep::Serve { host: local(2), port: PORT }
    );
}

#[test]
fn a_peer_added_before_its_daemon_is_up_is_still_recorded() {
    let mut b = Node::new(2, local(1));
    let absent = iroh::SecretKey::from_bytes(&[7u8; 32]).public().to_string();
    b.request(Request::Accept { handle: absent.clone(), name: None });

    let peers = b.list();
    assert_eq!(peers.len(), 1);
    assert_eq!(peers[0].key, absent);
    assert!(!peers[0].online);
}

#[test]
fn a_port_blocked_at_first_still_binds() {
    let (mut a, mut b) = pair(local(1));
    enroll(&mut a, &mut b);
    expose(&mut a, &mut b);
    settle(&mut a, &mut b, 2);
    assert_eq!(bound_on(&b), vec![PORT]);
}

#[test]
fn a_port_that_stays_blocked_is_given_up() {
    let (mut a, mut b) = pair(local(1));
    enroll(&mut a, &mut b);
    expose(&mut a, &mut b);
    settle(&mut a, &mut b, 5);
    assert!(bound_on(&b).is_empty());
    assert_eq!(b.list()[0].they_expose, vec![PORT]);
}

#[test]
fn an_invitation_can_bring_its_own_grant() {
    let (mut a, mut b) = pair(local(1));
    let handle = invite(&mut a, "b", vec![PORT]);
    assert_eq!(b.request(Request::Accept { handle, name: Some("a".into()) }), Response::Done);
    dial(&mut b, &mut a);
    assert_eq!(bound_on(&b), vec![PORT]);
}

#[test]
fn online_is_what_the_shell_says_is_live() {
    let (mut a, mut b) = pair(local(1));
    enroll(&mut a, &mut b);
    assert!(!b.daemon.list(&vec![]).peers[0].online);
    assert!(b.daemon.list(&vec![ConnId(1)]).peers[0].online);
}

#[test]
fn an_enrolled_peer_is_remembered_after_a_restart() {
    let (mut a, mut b) = pair(local(1));
    let pins = Pins::new("key.peers.json".into());
    let surfaces = SurfaceStore::new("key.surfaces.json".into());
    let saved = |key: &EndpointId| (pins.add(vec![], &key.to_string(), Some("b".into()), true), key.to_string());
    enroll(&mut a, &mut b);
    let (mut pinned, text) = saved(&b.id());
    pinned.push(Pin { key: "junk".into(), label: None, by_code: false });
    let records: Vec<SurfaceRecord> =
        surfaces.add(vec![], &text, IpAddr::V4(Ipv4Addr::new(127, 0, 1, 9)), Some("b".into()));

    let mut a = Node::new(1, local(1));
    let loaded = a.daemon.load(pinned, records);
    assert_eq!(loaded.effects, vec![Effect::Spawn { peer: b.id() }]);
    assert_eq!(loaded.failures, vec!["junk".to_string()]);
    assert_eq!(loaded.surfaces, vec![Restore::Done]);
    assert_eq!(a.list()[0].ip, Some("127.0.1.9".to_string()));
    assert_eq!(a.list()[0].admission, "code");
    assert_eq!(a.list()[0].name, Some("b".to_string()));
    assert!(matches!(a.daemon.peers.handle_connection(b.id()), Inbound::Installed { .. }));
}

#[test]
fn the_stack_is_asked_by_name() {
    let mut m = PeerManager::new(local(1), true, Some("me".into()), Platform::Linux);
    let mut query: Vec<u8> = vec![0x12, 0x34, 0x01, 0, 0, 1, 0, 0, 0, 0, 0, 0];
    for label in format!("me.{}", SUFFIX).split('.') {
        query.push(label.len() as u8);
        query.extend_from_slice(label.as_bytes());
    }
    query.extend_from_slice(&[0, 0, 1, 0, 1]);
    let reply = m.stack_answer(&query).unwrap();
    assert_eq!(&reply[reply.len() - 4..], &[127, 0, 0, 1]);
    assert_eq!(m.stack_answer(&[]), None);

    m = PeerManager::new(local(1), false, Some("me".into()), Platform::Linux);
    assert_eq!(m.stack_answer(&query), None);
}

/// The text of a key in base32, which reads as the same key.
fn base32(bytes: &[u8]) -> String {
    let digits = b"abcdefghijklmnopqrstuvwxyz234567";
    let mut out = String::new();
    let (mut held, mut bits) = (0u32, 0u32);
    for b in bytes {
        held = (held << 8) | *b as u32;
        bits += 8;
        while bits >= 5 {
            bits -= 5;
            out.push(digits[((held >> bits) & 31) as usize] as char);
        }
    }
    if bits > 0 {
        out.push(digits[((held << (5 - bits)) & 31) as usize] as char);
    }
    out
}

#[test]
fn a_forgotten_peer_stays_forgotten() {
    let (mut a, b) = pair(local(1));
    let pins = Pins::new("key.peers.json".into());
    let hex = b.id().to_string();
    let other = base32(b.id().as_bytes());
    assert_ne!(hex, other);

    // However the key was written, its pin is written in one way.
    let invite = Request::Invite { key: Some(other.clone()), name: Some("b".into()), expose: vec![] };
    assert_eq!(a.request(invite), Response::Done);
    let saved = Effect::SavePin { key: hex.clone(), label: Some("b".into()), by_code: false };
    assert_eq!(a.todo, vec![Effect::Spawn { peer: b.id() }, saved]);
    let on_disk = pins.add(vec![], &hex, Some("b".into()), false);
    a.todo.clear();

    assert_eq!(a.request(Request::Forget { peer: "b".into() }), Response::Done);
    assert!(a.todo.contains(&Effect::DropPin { key: hex.clone() }));
    let left = pins.remove(on_disk, &hex);
    let mut again = Node::new(1, local(1));
    again.daemon.load(left, vec![]);
    assert!(again.list().is_empty());

    // A pin that was written otherwise goes, too.
    let old = vec![Pin { key: other, label: None, by_code: false }];
    assert!(pins.remove(old, &hex).is_empty());
}

#[test]
fn how_a_peer_got_in_is_written_down() {
    let (mut a, mut b) = pair(local(1));
    let handle = invite(&mut a, "b", vec![]);
    b.request(Request::Accept { handle, name: None });
    let conn = match a.daemon.peers.handle_connection(b.id()) {
        Inbound::Pending(conn) => conn,
        other => panic!("{:?}", other),
    };
    let mut waiting = Enrollment::new(conn, b.id());
    let (_, fx) = b.daemon.peers.on_dialed(&a.id());
    let msg = match fx.into_iter().next() {
        Some(Effect::Send { msg, .. }) => msg,
        other => panic!("{:?}", other),
    };
    let fx = a.daemon.peers.on_enroll_message(&mut waiting, msg).unwrap();
    let hex = b.id().to_string();
    let pin = Effect::SavePin { key: hex.clone(), label: Some("b".into()), by_code: true };
    assert!(fx.contains(&pin));

    // Inviting its key later does not change how it got in.
    a.request(Request::Invite { key: Some(hex), name: Some("b".into()), expose: vec![] });
    assert_eq!(a.todo.pop(), Some(pin));
    assert_eq!(a.list()[0].admission, "code");
}
