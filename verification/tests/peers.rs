use pai_sho::addr::{IpAddr, Ipv4Addr};
use pai_sho::effect::Effect;
use pai_sho::key::{default_name, EndpointId};
use pai_sho::peer::links::{Enrollment, Inbound, TunnelStep};
use pai_sho::peer::projection::{ProjectNext, Restore};
use pai_sho::peer::reach::{BindStep, Place};
use pai_sho::peer::update::{Update, UpdateEvent, UpdateStep};
use pai_sho::peer::{PeerError, PeerManager};
use pai_sho::protocol::{PeerMessage, VERSION};
use pai_sho::resolver::handle_query;
use pai_sho::session::{ConnId, Refusal};
use pai_sho::surface::{Platform, SurfaceRecord};
use pai_sho::tunnel::{copy_step, open_header, requested_port, CopyStep};

fn key(n: u8) -> EndpointId {
    let mut bytes = [0u8; 32];
    bytes[0] = n;
    let public = iroh::SecretKey::from_bytes(&bytes).public();
    EndpointId::from_bytes(public.as_bytes()).unwrap()
}

fn v4(a: u8, b: u8, c: u8, d: u8) -> IpAddr {
    IpAddr::V4(Ipv4Addr::new(a, b, c, d))
}

fn manager(tun: bool, platform: Platform) -> PeerManager {
    PeerManager::new(v4(127, 0, 0, 1), tun, Some("me".into()), platform)
}

fn loopback() -> PeerManager {
    manager(false, Platform::Linux)
}

/// Brings the bindings of a peer in line with `ports`, every listener bound.
fn announce(m: &mut PeerManager, id: &EndpointId, ports: Vec<u16>) -> Vec<Effect> {
    let start = m.begin_update(*id, ports);
    run(m, start, 0).0
}

/// Runs an update to its end. The first `failures` attempts to bind fail.
fn run(m: &mut PeerManager, start: (Update, UpdateStep), mut failures: u32) -> (Vec<Effect>, Update) {
    let (mut update, mut step) = start;
    let mut fx = vec![];
    let mut task = 100;
    loop {
        let event = match step {
            UpdateStep::Perform(mut more) => {
                fx.append(&mut more);
                UpdateEvent::Performed
            }
            UpdateStep::Run { .. } => UpdateEvent::Ran,
            UpdateStep::Bind { .. } if failures > 0 => {
                failures -= 1;
                UpdateEvent::BindFailed
            }
            UpdateStep::Bind { .. } => UpdateEvent::Bound,
            UpdateStep::Wait { delay } => {
                assert_eq!(delay, 200);
                UpdateEvent::Waited
            }
            UpdateStep::Failed(_) | UpdateStep::Done => return (fx, update),
        };
        step = m.on_update(&mut update, event, task);
        if event == UpdateEvent::Bound {
            task += 1;
        }
    }
}

#[test]
fn a_peer_is_added_once() {
    let mut m = loopback();
    assert_eq!(
        m.add_peer(key(1), Some("a".into()), Some("code".into())),
        Ok(vec![Effect::Spawn { peer: key(1) }])
    );
    let again = m.add_peer(key(1), None, None);
    assert_eq!(again, Err(PeerError::AlreadyExists));
    assert_eq!(again.unwrap_err().to_string(), "peer already exists");
    assert_eq!(m.link_state(&key(1)), Some((true, None)));
    assert_eq!(m.link_state(&key(2)), None);
}

#[test]
fn a_peer_whose_daemon_is_not_up_is_still_recorded() {
    let mut m = loopback();
    let absent = key(7);
    m.add_peer(absent, None, None).unwrap();
    let peers = m.list(&vec![]);
    assert_eq!(peers.len(), 1);
    assert_eq!(peers[0].key, absent.to_string());
    assert!(!peers[0].online);
    assert_eq!(peers[0].admission, "added");
}

#[test]
fn pinning_is_idempotent_and_persisted() {
    let mut m = loopback();
    let text = key(1).to_string();
    assert_eq!(
        m.pin_peer(&text, Some("vm".into())).unwrap(),
        vec![
            Effect::Spawn { peer: key(1) },
            Effect::SavePin { key: text.clone(), label: Some("vm".into()), by_code: false }
        ]
    );
    assert_eq!(
        m.pin_peer(&text, None).unwrap(),
        vec![Effect::SavePin { key: text.clone(), label: None, by_code: false }]
    );
    assert_eq!(m.list(&vec![])[0].name, Some("vm".into()));
    assert_eq!(m.list(&vec![])[0].admission, "key");
    let bad = m.pin_peer("nope", None).unwrap_err();
    assert_eq!(bad, PeerError::InvalidKey);
    assert_eq!(bad.to_string(), "invalid key");
    assert_eq!(m.add_pinned(&text, None), Ok(vec![]));
}

#[test]
fn an_unknown_connection_waits_for_a_code() {
    let mut m = loopback();
    let conn = match m.handle_connection(key(1)) {
        Inbound::Pending(conn) => conn,
        other => panic!("{:?}", other),
    };
    assert_eq!(conn, ConnId(1));
    let mut e = Enrollment::new(conn, key(1));
    assert_eq!(m.on_enroll_message(&mut e, PeerMessage::ExposedPorts(vec![3001])), None);
    let refused = m.on_enroll_message(&mut e, PeerMessage::enroll("nope"));
    assert_eq!(
        refused,
        Some(vec![Effect::Close { conn, reason: "not authorized".into() }])
    );
    assert!(m.list(&vec![]).is_empty());
}

#[test]
fn silence_is_refused_with_a_timeout() {
    let mut m = loopback();
    let conn = match m.handle_connection(key(1)) {
        Inbound::Pending(conn) => conn,
        other => panic!("{:?}", other),
    };
    let fx = m.on_enroll_timeout(Enrollment::new(conn, key(1)));
    assert_eq!(fx, vec![Effect::Close { conn, reason: "enroll timeout".into() }]);
    let fx = m.on_enroll_timeout(Enrollment::new(conn, key(1)));
    assert_eq!(fx, vec![Effect::Close { conn, reason: "not authorized".into() }]);
}

#[test]
fn a_code_admits_and_applies_early_ports() {
    let mut m = loopback();
    let code = m.mint(Some("vm".into()), vec![8080]);
    let conn = match m.handle_connection(key(1)) {
        Inbound::Pending(conn) => conn,
        other => panic!("{:?}", other),
    };
    let mut e = Enrollment::new(conn, key(1));
    m.on_enroll_message(&mut e, PeerMessage::ExposedPorts(vec![3001]));
    let fx = m.on_enroll_message(&mut e, PeerMessage::enroll(&code)).unwrap();
    assert_eq!(
        fx,
        vec![
            Effect::Spawn { peer: key(1) },
            Effect::SavePin { key: key(1).to_string(), label: Some("vm".into()), by_code: true },
            Effect::UpdatePorts { peer: key(1), ports: vec![3001] },
            Effect::Send { conn, msg: PeerMessage::ExposedPorts(vec![8080]) },
        ]
    );
    let info = m.list(&vec![conn]).remove(0);
    assert_eq!(info.admission, "code");
    assert_eq!(info.name, Some("vm".into()));
    assert_eq!(info.version, Some(VERSION.into()));
    assert!(info.online);
    assert!(!m.list(&vec![])[0].online);
    assert_eq!(m.link_state(&key(1)), Some((false, Some(conn))));
}

#[test]
fn a_code_that_is_too_old_does_not_admit() {
    let mut m = loopback();
    m.mint_at("c0de".into(), 0, None, vec![]);
    let mut e = Enrollment::new(ConnId(1), key(1));
    let fx = m.on_enroll_message_at(&mut e, 300_000, PeerMessage::enroll("c0de"));
    assert_eq!(
        fx,
        Some(vec![Effect::Close { conn: ConnId(1), reason: "not authorized".into() }])
    );
}

#[test]
fn a_known_peer_replaces_its_connection() {
    let mut m = loopback();
    m.add_pinned(&key(1).to_string(), None).unwrap();
    let first = match m.handle_connection(key(1)) {
        Inbound::Installed { conn, effects } => {
            assert_eq!(
                effects,
                vec![
                    Effect::Wake { peer: key(1) },
                    Effect::Send { conn, msg: PeerMessage::ExposedPorts(vec![]) },
                ]
            );
            conn
        }
        other => panic!("{:?}", other),
    };
    match m.handle_connection(key(1)) {
        Inbound::Installed { conn, effects } => {
            assert_eq!(conn, ConnId(2));
            assert_eq!(effects[0], Effect::Close { conn: first, reason: "replaced".into() });
            assert_eq!(effects.len(), 3);
        }
        other => panic!("{:?}", other),
    }
}

#[test]
fn the_dialer_presents_its_code() {
    let mut m = loopback();
    m.add_peer(key(1), None, Some("c0de".into())).unwrap();
    m.expose(4000, &[key(1)]);
    let (conn, fx) = m.on_dialed(&key(1));
    assert_eq!(
        fx,
        vec![
            Effect::Send {
                conn,
                msg: PeerMessage::Enroll { token: "c0de".into(), version: Some(VERSION.into()) }
            },
            Effect::Send { conn, msg: PeerMessage::ExposedPorts(vec![4000]) },
        ]
    );
    // With a code of its own it does not announce its version again.
    assert_eq!(m.on_serving(&key(1)), vec![]);
    let mut other = loopback();
    other.add_peer(key(1), None, None).unwrap();
    let (conn, fx) = other.on_dialed(&key(1));
    assert_eq!(fx, vec![Effect::Send { conn, msg: PeerMessage::ExposedPorts(vec![]) }]);
    assert_eq!(
        other.on_serving(&key(1)),
        vec![Effect::Send { conn, msg: PeerMessage::enroll("") }]
    );
    assert_eq!(other.on_dialed(&key(9)).1, vec![]);
    assert_eq!(other.on_serving(&key(9)), vec![]);
}

#[test]
fn control_messages_of_a_known_peer() {
    let mut m = loopback();
    m.add_peer(key(1), None, None).unwrap();
    assert_eq!(
        m.on_control(&key(1), PeerMessage::ExposedPorts(vec![1, 2])),
        vec![Effect::UpdatePorts { peer: key(1), ports: vec![1, 2] }]
    );
    assert_eq!(m.on_control(&key(2), PeerMessage::ExposedPorts(vec![1])), vec![]);
    assert_eq!(m.on_control(&key(1), PeerMessage::Connect { port: 1 }), vec![]);
    assert_eq!(m.on_control(&key(1), PeerMessage::Error("e".into())), vec![]);
    m.on_control(&key(1), PeerMessage::Enroll { token: "".into(), version: Some("0.5.1".into()) });
    assert_eq!(m.list(&vec![])[0].version, Some("0.5.1".into()));
    m.on_control(&key(1), PeerMessage::Enroll { token: "".into(), version: None });
    assert_eq!(m.list(&vec![])[0].version, Some("0.5.1".into()));
}

#[test]
fn tunnels_are_served_to_grantees_alone() {
    let mut m = loopback();
    m.add_peer(key(1), None, None).unwrap();
    m.expose(0x0fa0, &[key(1)]);
    assert_eq!(
        m.on_tunnel(&key(1), [0x0f, 0xa0]),
        TunnelStep::Serve { host: v4(127, 0, 0, 1), port: 4000 }
    );
    assert_eq!(
        m.on_tunnel(&key(2), [0x0f, 0xa0]),
        TunnelStep::Refuse { port: 4000, reason: Refusal::NotGranted }
    );
    assert_eq!(
        m.on_tunnel(&key(1), [0xa0, 0x0f]),
        TunnelStep::Refuse { port: 0xa00f, reason: Refusal::NotGranted }
    );
}

#[test]
fn a_tunnel_header_round_trips() {
    assert_eq!(open_header(4000), [0x0f, 0xa0]);
    for port in [0u16, 1, 255, 256, 4000, 65535] {
        assert_eq!(requested_port(open_header(port)), port);
    }
}

#[test]
fn a_copy_ends_with_an_empty_read() {
    assert_eq!(copy_step(5, 11), (CopyStep::Write, 16));
    assert_eq!(copy_step(16, 0), (CopyStep::Finish { total: 16 }, 16));
}

#[test]
fn the_first_port_projects_the_peer() {
    let mut m = loopback();
    m.add_peer(key(1), Some("box".into()), None).unwrap();
    let fx = announce(&mut m, &key(1), vec![8080, 22]);
    assert_eq!(
        fx,
        vec![Effect::SaveSurface {
            key: key(1).to_string(),
            ip: v4(127, 0, 1, 2),
            name: Some("box".into())
        }]
    );
    let info = m.list(&vec![]).remove(0);
    assert_eq!(info.ip, Some("127.0.1.2".into()));
    assert_eq!(info.bound, vec![22, 8080]);
    assert_eq!(info.they_expose, vec![8080, 22]);
    assert_eq!(m.resolve_name("box"), Some(v4(127, 0, 1, 2)));
    assert_eq!(m.peer_for_ip(&v4(127, 0, 1, 2)), Some(key(1)));
    assert_eq!(m.peer_for_ip(&v4(127, 0, 1, 3)), None);
}

#[test]
fn an_unnamed_peer_answers_by_a_short_key() {
    let mut m = loopback();
    m.add_peer(key(1), None, None).unwrap();
    announce(&mut m, &key(1), vec![1]);
    assert_eq!(m.resolve_name(&default_name(&key(1))), Some(v4(127, 0, 1, 2)));
}

#[test]
fn two_peers_get_an_address_each() {
    let mut m = loopback();
    for n in [1, 2] {
        m.add_peer(key(n), None, None).unwrap();
        announce(&mut m, &key(n), vec![8080]);
    }
    let mut ips = m.projected_ips();
    ips.sort_by_key(|ip| ip.to_string());
    assert_eq!(ips, vec![v4(127, 0, 1, 2), v4(127, 0, 1, 3)]);
}

#[test]
fn a_revocation_tears_the_binding_down() {
    let mut m = loopback();
    m.add_peer(key(1), None, None).unwrap();
    announce(&mut m, &key(1), vec![80, 81]);
    let fx = announce(&mut m, &key(1), vec![81, 82]);
    assert_eq!(fx, vec![Effect::Stop { task: 100 }]);
    assert_eq!(m.list(&vec![])[0].bound, vec![81, 82]);
    let fx = announce(&mut m, &key(1), vec![]);
    assert_eq!(fx.len(), 2);
    let info = m.list(&vec![]).remove(0);
    assert!(info.bound.is_empty());
    // The surface stays put.
    assert_eq!(info.ip, Some("127.0.1.2".into()));
}

#[test]
fn a_peer_without_ports_is_not_projected() {
    let mut m = loopback();
    m.add_peer(key(1), None, None).unwrap();
    assert_eq!(m.place(&key(1), &vec![]), Place::Nothing);
    assert_eq!(m.place(&key(2), &vec![80]), Place::Nothing);
    assert_eq!(m.bind_one(&key(1), 80, 1), BindStep::Skip);
    assert_eq!(m.on_bound(&key(1), 80, 1), vec![Effect::Stop { task: 1 }]);
    assert_eq!(m.list(&vec![])[0].ip, None);
}

#[test]
fn on_macos_an_address_needs_a_command() {
    let mut m = manager(false, Platform::MacOs);
    m.add_peer(key(1), Some("box".into()), None).unwrap();
    match m.place(&key(1), &vec![80]) {
        Place::Run { ip, name, args } => {
            assert_eq!(args, vec!["lo0", "alias", "127.0.1.2", "up"]);
            assert_eq!(m.list(&vec![])[0].ip, None);
            assert_eq!(m.settle(&key(1), ip, name).len(), 1);
        }
        other => panic!("{:?}", other),
    }
    assert_eq!(m.list(&vec![])[0].ip, Some("127.0.1.2".into()));
    let fx = m.unproject("box").unwrap();
    assert_eq!(
        fx,
        vec![
            Effect::Require { args: vec!["lo0".into(), "-alias".into(), "127.0.1.2".into()] },
            Effect::DropSurface { key: key(1).to_string() },
        ]
    );
    let mut other = manager(false, Platform::Other);
    other.add_peer(key(1), None, None).unwrap();
    match other.place(&key(1), &vec![80]) {
        Place::Failed(e) => assert!(e.contains("unsupported on this OS")),
        other => panic!("{:?}", other),
    }
}

#[test]
fn on_a_tun_device_the_stack_listens() {
    let mut m = manager(true, Platform::Other);
    m.add_peer(key(1), Some("box".into()), None).unwrap();
    let at = Ipv4Addr::new(10, 99, 1, 2);
    let fx = announce(&mut m, &key(1), vec![80]);
    assert_eq!(
        fx,
        vec![
            Effect::SaveSurface { key: key(1).to_string(), ip: IpAddr::V4(at), name: Some("box".into()) },
            Effect::Listen { ip: at, port: 80 },
        ]
    );
    let fx = announce(&mut m, &key(1), vec![]);
    assert_eq!(fx, vec![Effect::Stop { task: 100 }, Effect::Unlisten { ip: at, port: 80 }]);
}

#[test]
fn projecting_moves_the_surface() {
    let mut m = loopback();
    m.add_peer(key(1), Some("box".into()), None).unwrap();
    announce(&mut m, &key(1), vec![80]);
    let p = m.project("box", Some(v4(127, 0, 1, 9)), Some("broker".into()));
    assert_eq!(
        p.effects,
        vec![
            Effect::Stop { task: 100 },
            Effect::SaveSurface {
                key: key(1).to_string(),
                ip: v4(127, 0, 1, 9),
                name: Some("broker".into())
            },
        ]
    );
    assert_eq!(p.next, ProjectNext::Ready(key(1)));
    assert_eq!(m.bind_one(&key(1), 80, 5), BindStep::Bind { ip: v4(127, 0, 1, 9), port: 80 });
    assert_eq!(m.resolve_name("broker"), Some(v4(127, 0, 1, 9)));
    assert_eq!(m.resolve_name("box"), None);

    // Without a name or an address the peer's own name and a free one do.
    let p = m.project(&key(1).to_string(), None, None);
    assert_eq!(p.next, ProjectNext::Ready(key(1)));
    assert_eq!(m.resolve_name("box"), Some(v4(127, 0, 1, 2)));
}

#[test]
fn projecting_an_unnamed_peer_keeps_its_short_name() {
    let mut m = loopback();
    m.add_peer(key(1), None, None).unwrap();
    announce(&mut m, &key(1), vec![80]);
    let short = default_name(&key(1));
    let p = m.project(&key(1).to_string(), Some(v4(127, 0, 1, 9)), None);
    assert_eq!(p.next, ProjectNext::Ready(key(1)));
    assert_eq!(
        p.effects[1],
        Effect::SaveSurface {
            key: key(1).to_string(),
            ip: v4(127, 0, 1, 9),
            name: Some(short.clone())
        }
    );
    assert_eq!(m.resolve_name(&short), Some(v4(127, 0, 1, 9)));
    let mut mac = manager(false, Platform::MacOs);
    mac.add_peer(key(1), None, None).unwrap();
    match mac.project(&key(1).to_string(), None, None).next {
        ProjectNext::Run { name, .. } => assert_eq!(name, Some(short)),
        next => panic!("{:?}", next),
    }
}

#[test]
fn what_was_announced_is_bound_again_after_projecting() {
    let mut m = loopback();
    m.add_peer(key(1), Some("box".into()), None).unwrap();
    announce(&mut m, &key(1), vec![80, 81]);
    m.project("box", Some(v4(127, 0, 1, 9)), None);
    assert!(m.list(&vec![])[0].bound.is_empty());
    let start = m.begin_rebind(key(1));
    let (fx, update) = run(&mut m, start, 0);
    assert!(fx.is_empty());
    assert!(update.dark().is_empty());
    assert_eq!(m.list(&vec![])[0].bound, vec![80, 81]);
}

#[test]
fn a_port_is_tried_a_few_times() {
    let mut m = loopback();
    m.add_peer(key(1), None, None).unwrap();
    let start = m.begin_update(key(1), vec![80, 81]);
    let (_, update) = run(&mut m, start, 4);
    assert!(update.dark().is_empty());
    assert_eq!(m.list(&vec![])[0].bound, vec![80, 81]);

    let mut m = loopback();
    m.add_peer(key(1), None, None).unwrap();
    let start = m.begin_update(key(1), vec![80, 81]);
    let (_, update) = run(&mut m, start, 5);
    assert_eq!(update.dark(), &vec![80]);
    assert_eq!(m.list(&vec![])[0].bound, vec![81]);
    assert_eq!(m.list(&vec![])[0].they_expose, vec![80, 81]);
}

#[test]
fn an_update_takes_its_steps_in_order() {
    let mut m = manager(false, Platform::MacOs);
    m.add_peer(key(1), Some("box".into()), None).unwrap();
    let (mut u, step) = m.begin_update(key(1), vec![80]);
    assert_eq!(step, UpdateStep::Perform(vec![]));
    let step = m.on_update(&mut u, UpdateEvent::Performed, 1);
    let args: Vec<String> = vec!["lo0".into(), "alias".into(), "127.0.1.2".into(), "up".into()];
    assert_eq!(step, UpdateStep::Run { args });
    let step = m.on_update(&mut u, UpdateEvent::Ran, 1);
    assert_eq!(
        step,
        UpdateStep::Perform(vec![Effect::SaveSurface {
            key: key(1).to_string(),
            ip: v4(127, 0, 1, 2),
            name: Some("box".into())
        }])
    );
    let step = m.on_update(&mut u, UpdateEvent::Performed, 1);
    assert_eq!(step, UpdateStep::Bind { ip: v4(127, 0, 1, 2), port: 80 });
    let step = m.on_update(&mut u, UpdateEvent::Bound, 7);
    assert_eq!(step, UpdateStep::Perform(vec![]));
    // What is listed of its ports changes when the update is over.
    assert!(m.list(&vec![])[0].they_expose.is_empty());
    assert_eq!(m.on_update(&mut u, UpdateEvent::Performed, 1), UpdateStep::Done);
    assert_eq!(m.list(&vec![])[0].they_expose, vec![80]);
    assert_eq!(m.on_update(&mut u, UpdateEvent::Performed, 1), UpdateStep::Done);
    assert_eq!(m.list(&vec![])[0].bound, vec![80]);

    // A command that fails ends the update; the ports are noted.
    let mut m = manager(false, Platform::MacOs);
    m.add_peer(key(1), None, None).unwrap();
    let (mut u, _) = m.begin_update(key(1), vec![80]);
    m.on_update(&mut u, UpdateEvent::Performed, 1);
    assert_eq!(m.on_update(&mut u, UpdateEvent::RunFailed, 1), UpdateStep::Done);
    assert_eq!(m.list(&vec![])[0].they_expose, vec![80]);
    assert_eq!(m.list(&vec![])[0].ip, None);

    let mut m = manager(false, Platform::Other);
    m.add_peer(key(1), None, None).unwrap();
    let (mut u, _) = m.begin_update(key(1), vec![80]);
    match m.on_update(&mut u, UpdateEvent::Performed, 1) {
        UpdateStep::Failed(e) => assert!(e.contains("unsupported on this OS")),
        other => panic!("{:?}", other),
    }
    assert_eq!(m.list(&vec![])[0].they_expose, vec![80]);

    // A listener that comes too late is stopped again.
    let mut m = loopback();
    m.add_peer(key(1), Some("box".into()), None).unwrap();
    let (mut u, _) = m.begin_update(key(1), vec![80]);
    m.on_update(&mut u, UpdateEvent::Performed, 1);
    m.on_update(&mut u, UpdateEvent::Performed, 1);
    m.remove_peer("box").unwrap();
    assert_eq!(
        m.on_update(&mut u, UpdateEvent::Bound, 9),
        UpdateStep::Perform(vec![Effect::Stop { task: 9 }])
    );
}

#[test]
fn a_new_announcement_takes_over_from_an_unfinished_one() {
    let mut m = loopback();
    m.add_peer(key(1), Some("box".into()), None).unwrap();
    announce(&mut m, &key(1), vec![80]);
    let (mut u, _) = m.begin_update(key(1), vec![80, 81]);
    m.on_update(&mut u, UpdateEvent::Performed, 1);
    m.on_update(&mut u, UpdateEvent::Performed, 1);
    m.on_update(&mut u, UpdateEvent::Performed, 1);
    m.on_update(&mut u, UpdateEvent::Bound, 7);
    let info = m.list(&vec![]).remove(0);
    assert_eq!((info.they_expose, info.bound), (vec![80], vec![80, 81]));
    let fx = announce(&mut m, &key(1), vec![80]);
    assert_eq!(fx, vec![Effect::Stop { task: 7 }]);
    let info = m.list(&vec![]).remove(0);
    assert_eq!((info.they_expose, info.bound), (vec![80], vec![80]));
}

#[test]
fn projecting_can_be_turned_down() {
    let mut m = loopback();
    let p = m.project("nobody", None, None);
    assert_eq!(p.next, ProjectNext::Refused("no such peer: nobody".into()));
    assert!(p.effects.is_empty());
    m.add_peer(key(1), Some("box".into()), None).unwrap();
    assert_eq!(m.unproject("nobody"), Err(PeerError::NoSuchPeer("nobody".into())));
    let e = m.unproject("box").unwrap_err();
    assert_eq!(e.to_string(), "peer box is not projected");
    let mut other = manager(false, Platform::Other);
    other.add_peer(key(1), Some("box".into()), None).unwrap();
    match other.project("box", Some(v4(127, 0, 1, 9)), None).next {
        ProjectNext::Refused(e) => assert!(e.starts_with("projecting 127.0.1.9 needs")),
        next => panic!("{:?}", next),
    }
    // The stock address needs nothing anywhere.
    assert_eq!(
        other.project("box", Some(v4(127, 0, 0, 1)), None).next,
        ProjectNext::Ready(key(1))
    );
    let mut mac = manager(false, Platform::MacOs);
    mac.add_peer(key(1), Some("box".into()), None).unwrap();
    match mac.project("box", Some(v4(127, 0, 1, 9)), None).next {
        ProjectNext::Run { id, ip, name, args } => {
            assert_eq!((id, ip, name), (key(1), v4(127, 0, 1, 9), Some("box".into())));
            assert_eq!(args[1], "alias");
        }
        next => panic!("{:?}", next),
    }
}

#[test]
fn unprojecting_keeps_the_peer() {
    let mut m = loopback();
    m.add_peer(key(1), Some("box".into()), None).unwrap();
    announce(&mut m, &key(1), vec![80, 81]);
    let fx = m.unproject("box").unwrap();
    assert_eq!(
        fx,
        vec![
            Effect::Stop { task: 100 },
            Effect::Stop { task: 101 },
            Effect::DropSurface { key: key(1).to_string() },
        ]
    );
    let info = m.list(&vec![]).remove(0);
    assert_eq!(info.ip, None);
    assert_eq!(info.they_expose, vec![80, 81]);
    assert!(info.bound.is_empty());
}

#[test]
fn forgetting_takes_everything_down() {
    let mut m = loopback();
    m.add_peer(key(1), Some("box".into()), None).unwrap();
    m.add_peer(key(2), None, None).unwrap();
    m.expose(4000, &[key(1), key(2)]);
    let (conn, _) = m.on_dialed(&key(1));
    announce(&mut m, &key(1), vec![80]);
    let fx = m.remove_peer("box").unwrap();
    assert_eq!(
        fx,
        vec![
            Effect::Wake { peer: key(1) },
            Effect::Close { conn, reason: "removed".into() },
            Effect::Stop { task: 100 },
            Effect::DropPin { key: key(1).to_string() },
            Effect::DropSurface { key: key(1).to_string() },
        ]
    );
    assert_eq!(m.link_state(&key(1)), None);
    assert_eq!(m.peer_keys(), vec![key(2)]);
    assert_eq!(m.all_grants(), vec![(4000, key(2))]);
    assert_eq!(m.resolve_name("box"), None);
    assert!(matches!(m.handle_connection(key(1)), Inbound::Pending(_)));
    assert_eq!(m.remove_peer("box"), Err(PeerError::NoSuchPeer("box".into())));
    assert_eq!(
        m.evict(&key(1), "removed"),
        vec![Effect::DropSurface { key: key(1).to_string() }]
    );
}

#[test]
fn a_reference_is_a_key_first_and_then_a_name() {
    let mut m = loopback();
    m.add_peer(key(1), Some(key(2).to_string()), None).unwrap();
    assert_eq!(m.resolve_peer(&key(2).to_string()), Some(key(1)));
    m.add_peer(key(2), None, None).unwrap();
    assert_eq!(m.resolve_peer(&key(2).to_string()), Some(key(2)));
    assert_eq!(m.resolve_peer("nobody"), None);
    assert_eq!(m.resolve_among(None, &key(2).to_string()), Some(key(1)));
    assert_eq!(m.resolve_among(Some(key(3)), "nobody"), None);
}

#[test]
fn grants_are_told_to_the_connected() {
    let mut m = loopback();
    m.add_peer(key(1), None, None).unwrap();
    m.add_peer(key(2), None, None).unwrap();
    assert_eq!(m.expose(80, &[key(1)]), vec![]);
    let (conn, _) = m.on_dialed(&key(1));
    assert_eq!(
        m.broadcast_grants(),
        vec![Effect::Send { conn, msg: PeerMessage::ExposedPorts(vec![80]) }]
    );
    assert_eq!(m.announce_to(&key(2)), vec![]);
    assert_eq!(
        m.unexpose(80, None),
        vec![Effect::Send { conn, msg: PeerMessage::ExposedPorts(vec![]) }]
    );
    assert!(m.granted_ports().is_empty());
    m.grant(&vec![1, 2], key(2));
    assert_eq!(m.all_grants(), vec![(1, key(2)), (2, key(2))]);
}

#[test]
fn our_own_name_is_where_our_services_are() {
    let m = loopback();
    assert_eq!(m.resolve_name("me"), Some(v4(127, 0, 0, 1)));
    assert_eq!(m.resolve_name("you"), None);
}

#[test]
fn surfaces_come_back_after_a_restart() {
    let mut m = loopback();
    m.add_pinned(&key(1).to_string(), Some("box".into())).unwrap();
    let record = |key: String| SurfaceRecord { key, ip: v4(127, 0, 1, 7), name: Some("box".into()) };
    assert_eq!(m.restore_surface(record(key(1).to_string())), Restore::Done);
    assert_eq!(m.restore_surface(record(key(2).to_string())), Restore::Skip);
    assert_eq!(m.restore_surface(record("junk".into())), Restore::Skip);
    assert_eq!(m.resolve_name("box"), Some(v4(127, 0, 1, 7)));
    assert_eq!(m.place(&key(1), &vec![80]), Place::Ready(vec![]));

    let mut mac = manager(false, Platform::MacOs);
    mac.add_pinned(&key(1).to_string(), None).unwrap();
    match mac.restore_surface(record(key(1).to_string())) {
        Restore::Run { id, ip, name, .. } => mac.restored(&id, ip, name),
        other => panic!("{:?}", other),
    }
    assert_eq!(mac.resolve_name("box"), Some(v4(127, 0, 1, 7)));
    let mut other = manager(false, Platform::Other);
    other.add_pinned(&key(1).to_string(), None).unwrap();
    assert!(matches!(
        other.restore_surface(record(key(1).to_string())),
        Restore::Failed(_)
    ));
}

#[test]
fn the_network_runs_out_of_addresses() {
    let mut m = loopback();
    for n in 0..=252u8 {
        m.add_peer(key(n), None, None).unwrap();
        assert!(matches!(m.place(&key(n), &vec![1]), Place::Ready(_)));
    }
    m.add_peer(key(253), None, None).unwrap();
    assert_eq!(
        m.place(&key(253), &vec![1]),
        Place::Failed("no free address in 127.0.1.0/24; unproject a surface first".into())
    );
    // Taking one out keeps the others where they are.
    m.evict(&key(100), "removed");
    assert!(matches!(m.place(&key(253), &vec![1]), Place::Ready(_)));
    assert_eq!(m.projected_ips().len(), 253);
    assert_eq!(m.list(&vec![]).len(), 253);
}

#[test]
fn the_resolver_answers_from_surfaces() {
    let mut m = loopback();
    m.add_peer(key(1), Some("box".into()), None).unwrap();
    announce(&mut m, &key(1), vec![80]);
    let mut q = vec![0x12, 0x34, 0x01, 0x00, 0x00, 0x01, 0, 0, 0, 0, 0, 0];
    for label in ["box", "ps", "internal"] {
        q.push(label.len() as u8);
        q.extend_from_slice(label.as_bytes());
    }
    q.push(0);
    q.extend_from_slice(&[0, 1, 0, 1]);
    let reply = handle_query(&q, &m).unwrap();
    assert_eq!(&reply[reply.len() - 4..], &[127, 0, 1, 2]);
    m.unproject("box").unwrap();
    assert_eq!(handle_query(&q, &m).unwrap()[7], 0);
    assert!(handle_query(&q[..3], &m).is_none());
}

/// What the stack answers for a name: the address, if it knows it.
fn stack_lookup(m: &PeerManager, name: &str) -> Option<Vec<u8>> {
    let mut q = vec![0x12, 0x34, 0x01, 0x00, 0x00, 0x01, 0, 0, 0, 0, 0, 0];
    for label in [name, "ps", "internal"] {
        q.push(label.len() as u8);
        q.extend_from_slice(label.as_bytes());
    }
    q.push(0);
    q.extend_from_slice(&[0, 1, 0, 1]);
    let reply = m.stack_answer(&q).unwrap();
    if reply[7] == 0 {
        None
    } else {
        Some(reply[reply.len() - 4..].to_vec())
    }
}

#[test]
fn the_stack_keeps_step_with_the_surfaces() {
    let mut m = manager(true, Platform::Linux);
    m.add_peer(key(1), Some("box".into()), None).unwrap();
    m.add_peer(key(2), Some("den".into()), None).unwrap();
    announce(&mut m, &key(1), vec![80, 81]);
    announce(&mut m, &key(2), vec![80]);
    let (first, second) = (Ipv4Addr::new(10, 99, 1, 2), Ipv4Addr::new(10, 99, 1, 3));
    assert_eq!(stack_lookup(&m, "me"), Some(vec![127, 0, 0, 1]));
    assert_eq!(stack_lookup(&m, "box"), Some(vec![10, 99, 1, 2]));
    assert_eq!(stack_lookup(&m, "den"), Some(vec![10, 99, 1, 3]));
    assert_eq!(stack_lookup(&m, "nobody"), None);

    // What is no longer announced is no longer listened for.
    let fx = announce(&mut m, &key(1), vec![81]);
    assert!(fx.contains(&Effect::Unlisten { ip: first, port: 80 }));

    // A surface moves with its name and its ports.
    let moved = Ipv4Addr::new(10, 99, 1, 9);
    let p = m.project("box", Some(IpAddr::V4(moved)), Some("broker".into()));
    assert!(p.effects.contains(&Effect::Unlisten { ip: first, port: 81 }));
    let start = m.begin_rebind(key(1));
    let (fx, _) = run(&mut m, start, 0);
    assert_eq!(fx, vec![Effect::Listen { ip: moved, port: 81 }]);
    assert_eq!(stack_lookup(&m, "box"), None);
    assert_eq!(stack_lookup(&m, "broker"), Some(vec![10, 99, 1, 9]));

    let fx = m.unproject("box").unwrap();
    assert!(fx.contains(&Effect::Unlisten { ip: moved, port: 81 }));
    assert_eq!(stack_lookup(&m, "broker"), None);
    let fx = m.remove_peer("den").unwrap();
    assert!(fx.contains(&Effect::Unlisten { ip: second, port: 80 }));
    assert_eq!(stack_lookup(&m, "den"), None);
    assert_eq!(stack_lookup(&m, "me"), Some(vec![127, 0, 0, 1]));
}
