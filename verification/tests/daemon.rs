use pai_sho::addr::{IpAddr, Ipv4Addr};
use pai_sho::client::{request_for, show, Command, Output};
use pai_sho::daemon::{Daemon, Step};
use pai_sho::effect::Effect;
use pai_sho::invite::Handle;
use pai_sho::key::EndpointId;
use pai_sho::link::{bind_retry, Link, LinkEvent, LinkStep, BACKOFF_INITIAL, BACKOFF_MAX};
use pai_sho::peer::links::{Enrollment, Inbound, TunnelStep};
use pai_sho::peer::PeerManager;
use pai_sho::protocol::{GrantInfo, PeerMessage, Request, Response, VERSION};
use pai_sho::startup::{default_key_path, identity_of, load_or_create_key, pins_path, surfaces_path, BadKeyFile};
use pai_sho::surface::Platform;

fn key(n: u8) -> EndpointId {
    let mut bytes = [0u8; 32];
    bytes[0] = n;
    let public = iroh::SecretKey::from_bytes(&bytes).public();
    EndpointId::from_bytes(public.as_bytes()).unwrap()
}

fn daemon(n: u8) -> Daemon {
    let host = IpAddr::V4(Ipv4Addr::new(127, 0, 0, 1));
    Daemon::new(key(n), PeerManager::new(host, false, None, Platform::Linux))
}

fn ask(d: &mut Daemon, request: Request) -> Step {
    d.handle_request(request, None, &vec![])
}

fn response(step: Step) -> Response {
    match step {
        Step::Reply { response, .. } => response,
        other => panic!("{:?}", other),
    }
}

fn error(text: &str) -> Response {
    Response::Error(text.into())
}

#[test]
fn two_daemons_link_by_invitation() {
    let (mut a, mut b) = (daemon(1), daemon(2));
    let invite = match response(ask(
        &mut a,
        Request::Invite { key: None, name: Some("b".into()), expose: vec![8080] },
    )) {
        Response::Invite(i) => i,
        other => panic!("{:?}", other),
    };
    assert!(invite.starts_with(&format!("{}.", key(1).to_string())));

    let step = ask(&mut b, Request::Accept { handle: invite, name: Some("a".into()) });
    assert_eq!(
        step,
        Step::Reply { effects: vec![Effect::Spawn { peer: key(1) }], response: Response::Done }
    );

    // b dials, and what it says first admits it.
    let (_, fx) = b.peers.on_dialed(&key(1));
    let conn = match a.peers.handle_connection(key(2)) {
        Inbound::Pending(conn) => conn,
        other => panic!("{:?}", other),
    };
    let mut e = Enrollment::new(conn, key(2));
    let mut told = vec![];
    for effect in fx {
        if let Effect::Send { msg, .. } = effect {
            if let Some(mut more) = a.peers.on_enroll_message(&mut e, msg) {
                told.append(&mut more);
                break;
            }
        }
    }
    assert!(told.contains(&Effect::Send { conn, msg: PeerMessage::ExposedPorts(vec![8080]) }));
    assert_eq!(
        a.peers.on_tunnel(&key(2), [0x1f, 0x90]),
        TunnelStep::Serve { host: IpAddr::V4(Ipv4Addr::new(127, 0, 0, 1)), port: 8080 }
    );
    assert!(matches!(a.peers.on_tunnel(&key(3), [0x1f, 0x90]), TunnelStep::Refuse { .. }));
}

#[test]
fn reaching_by_key_alone_does_not_link() {
    let (mut a, mut b) = (daemon(1), daemon(2));
    ask(&mut b, Request::Accept { handle: key(1).to_string(), name: None });
    let (_, fx) = b.peers.on_dialed(&key(1));
    let conn = match a.peers.handle_connection(key(2)) {
        Inbound::Pending(conn) => conn,
        other => panic!("{:?}", other),
    };
    let mut e = Enrollment::new(conn, key(2));
    for effect in fx.into_iter().chain(b.peers.on_serving(&key(1))) {
        if let Effect::Send { msg, .. } = effect {
            if let Some(fx) = a.peers.on_enroll_message(&mut e, msg) {
                assert_eq!(fx, vec![Effect::Close { conn, reason: "not authorized".into() }]);
            }
        }
    }
    assert!(a.peers.list(&vec![]).is_empty());
}

#[test]
fn inviting_a_key_pins_it_and_grants() {
    let mut d = daemon(1);
    let text = key(2).to_string();
    let step = ask(
        &mut d,
        Request::Invite { key: Some(text.clone()), name: Some("vm".into()), expose: vec![3001, 7331] },
    );
    assert_eq!(
        step,
        Step::Reply {
            effects: vec![
                Effect::Spawn { peer: key(2) },
                Effect::SavePin { key: text, label: Some("vm".into()), by_code: false },
            ],
            response: Response::Done,
        }
    );
    assert_eq!(d.peers.all_grants(), vec![(3001, key(2)), (7331, key(2))]);
    assert!(matches!(d.peers.handle_connection(key(2)), Inbound::Installed { .. }));
    assert_eq!(
        response(ask(&mut d, Request::Invite { key: Some("x".into()), name: None, expose: vec![] })),
        error("invalid key")
    );
}

#[test]
fn accepting_can_fail() {
    let mut d = daemon(1);
    let accept = |handle: String| Request::Accept { handle, name: None };
    assert_eq!(
        response(ask(&mut d, accept(format!("{}.", key(2).to_string())))),
        error("invitation has no code")
    );
    assert_eq!(response(ask(&mut d, accept("x.y".into()))), error("invitation has an invalid key"));
    assert_eq!(response(ask(&mut d, accept("x".into()))), error("invalid key"));
    assert_eq!(response(ask(&mut d, accept(key(2).to_string()))), Response::Done);
    assert_eq!(response(ask(&mut d, accept(key(2).to_string()))), error("peer already exists"));
}

#[test]
fn a_grant_names_its_grantees() {
    let mut d = daemon(1);
    let expose = |to: Vec<String>, all: bool| Request::Expose { port: 80, to, all };
    let nobody = error("no peers to grant to; use --to <key>");
    assert_eq!(response(ask(&mut d, expose(vec![], true))), nobody);
    assert_eq!(response(ask(&mut d, expose(vec![], false))), nobody);
    assert_eq!(
        response(ask(&mut d, expose(vec![key(2).to_string(), "x".into()], false))),
        error("invalid peer key")
    );
    assert!(d.peers.all_grants().is_empty());
    assert_eq!(
        response(ask(&mut d, expose(vec![key(2).to_string(), key(3).to_string()], false))),
        Response::Done
    );
    assert_eq!(d.peers.all_grants().len(), 2);
    ask(&mut d, Request::Accept { handle: key(4).to_string(), name: None });
    assert_eq!(response(ask(&mut d, expose(vec![], true))), Response::Done);
    assert_eq!(d.peers.all_grants().len(), 3);
    assert_eq!(
        response(ask(&mut d, Request::Unexpose { port: 80, to: Some("x".into()) })),
        error("invalid peer key")
    );
    assert_eq!(
        response(ask(&mut d, Request::Unexpose { port: 80, to: Some(key(2).to_string()) })),
        Response::Done
    );
    assert_eq!(d.peers.all_grants().len(), 2);
    assert_eq!(response(ask(&mut d, Request::Unexpose { port: 80, to: None })), Response::Done);
    assert!(d.peers.all_grants().is_empty());
}

#[test]
fn list_and_key() {
    let mut d = daemon(1);
    ask(&mut d, Request::Accept { handle: key(2).to_string(), name: Some("b".into()) });
    ask(&mut d, Request::Expose { port: 80, to: vec![key(2).to_string()], all: false });
    assert_eq!(response(ask(&mut d, Request::Key)), Response::Key(key(1).to_string()));
    match response(ask(&mut d, Request::List)) {
        Response::List(info) => {
            assert_eq!(info.me, key(1).to_string());
            assert_eq!(info.cli, "");
            assert_eq!(info.daemon, VERSION);
            assert_eq!(info.i_expose, vec![80]);
            assert_eq!(info.grants, vec![GrantInfo { port: 80, to: key(2).to_string() }]);
            assert_eq!(info.peers.len(), 1);
            assert_eq!(info.peers[0].name, Some("b".into()));
        }
        other => panic!("{:?}", other),
    }
}

#[test]
fn projecting_and_forgetting_by_request() {
    let mut d = daemon(1);
    ask(&mut d, Request::Accept { handle: key(2).to_string(), name: Some("b".into()) });
    let project = |ip: Option<&str>| Request::Project {
        peer: "b".into(),
        ip: ip.map(|s| s.to_string()),
        name: None,
    };
    assert_eq!(response(ask(&mut d, project(Some("nonsense")))), error("invalid --ip address"));
    let ip = IpAddr::V4(Ipv4Addr::new(127, 0, 1, 44));
    match d.handle_request(project(Some("127.0.1.44")), Some(ip), &vec![]) {
        Step::Bind { effects, id } => {
            assert_eq!(id, key(2));
            assert_eq!(
                effects,
                vec![Effect::SaveSurface { key: key(2).to_string(), ip, name: Some("b".into()) }]
            );
        }
        other => panic!("{:?}", other),
    }
    assert_eq!(response(ask(&mut d, Request::Unproject { peer: "b".into() })), Response::Done);
    assert_eq!(
        response(ask(&mut d, Request::Unproject { peer: "b".into() })),
        error("peer b is not projected")
    );
    assert_eq!(response(ask(&mut d, Request::Forget { peer: "b".into() })), Response::Done);
    assert_eq!(
        response(ask(&mut d, Request::Forget { peer: "b".into() })),
        error("no such peer: b")
    );
    assert_eq!(response(ask(&mut d, project(None))), error("no such peer: b"));
}

#[test]
fn startup_grants_to_the_accepted_alone() {
    let mut d = daemon(1);
    let accept = vec![format!("{}.c0de", key(2).to_string()), "junk".into(), key(3).to_string(), key(3).to_string()];
    let (fx, failures) = d.start(&accept, &vec![3001]);
    assert_eq!(fx, vec![Effect::Spawn { peer: key(2) }, Effect::Spawn { peer: key(3) }]);
    assert_eq!(failures, vec!["invalid key", "peer already exists"]);
    let mut grants = d.peers.all_grants();
    grants.sort();
    let mut expected = vec![(3001, key(2)), (3001, key(3))];
    expected.sort();
    assert_eq!(grants, expected);
    assert_eq!(d.start(&vec![], &vec![1]), (vec![], vec![]));
}

#[test]
fn key_persists_across_loads() {
    let first = load_or_create_key(None).unwrap();
    assert!(first.is_new);
    let second = load_or_create_key(Some(first.secret.to_vec())).unwrap();
    assert_eq!(first.secret, second.secret);
    assert_eq!(first.id, second.id);
    assert!(!second.is_new);
    assert_ne!(load_or_create_key(None).unwrap().secret, first.secret);
}

#[test]
fn rejects_malformed_key_file() {
    let r = load_or_create_key(Some(b"too short".to_vec()));
    assert_eq!(r, Err(BadKeyFile));
    assert_eq!(BadKeyFile.describe("/k"), "key file /k is not 32 bytes");
}

#[test]
fn an_identity_is_what_iroh_derives() {
    let secret = [5u8; 32];
    let id = identity_of(secret, false).id;
    assert_eq!(id.as_bytes(), iroh::SecretKey::from_bytes(&secret).public().as_bytes());
    assert_ne!(id.as_bytes(), &secret);
}

#[test]
fn the_key_lives_in_the_state_directory() {
    let path = |state: Option<&str>, home: Option<&str>| {
        let bytes = default_key_path(state.map(|s| s.as_bytes().to_vec()), home.map(|s| s.as_bytes().to_vec()));
        String::from_utf8(bytes).unwrap()
    };
    assert_eq!(path(Some("/s"), Some("/h")), "/s/pai-sho/key");
    assert_eq!(path(Some("/s/"), None), "/s/pai-sho/key");
    assert_eq!(path(Some(""), None), "pai-sho/key");
    assert_eq!(path(None, Some("/h")), "/h/.local/state/pai-sho/key");
    assert_eq!(path(None, None), "./pai-sho/key");
    assert_eq!(pins_path("/k"), "/k.peers.json");
    assert_eq!(surfaces_path("/k"), "/k.surfaces.json");
}

#[test]
fn dialing_backs_off() {
    let (mut link, step) = Link::start(true, false);
    // A peer that was never dialed is dialed at once.
    assert_eq!(step, LinkStep::Retry { delay: 0 });
    let mut delays = vec![];
    for _ in 0..8 {
        assert_eq!(link.on_event(LinkEvent::Elapsed, false, false), LinkStep::Dial);
        match link.on_event(LinkEvent::DialFailed, false, false) {
            LinkStep::Retry { delay } => delays.push(delay),
            other => panic!("{:?}", other),
        }
    }
    assert_eq!(delays, vec![1_000, 2_000, 4_000, 8_000, 16_000, 32_000, 60_000, 60_000]);
    assert_eq!(link.on_event(LinkEvent::Dialed, false, true), LinkStep::Serve);
    assert_eq!(link.backoff, BACKOFF_INITIAL);
    assert_eq!(
        link.on_event(LinkEvent::Ended, false, true),
        LinkStep::Retry { delay: BACKOFF_INITIAL }
    );
    assert_eq!(link.on_event(LinkEvent::Woken, false, true), LinkStep::Serve);
    assert!(link.backoff <= BACKOFF_MAX);
}

#[test]
fn a_peer_that_phones_home_is_awaited() {
    let (mut link, step) = Link::start(false, true);
    assert_eq!(step, LinkStep::Serve);
    assert_eq!(link.on_event(LinkEvent::Ended, false, true), LinkStep::Await);
    assert_eq!(link.on_event(LinkEvent::Woken, false, true), LinkStep::Serve);
    assert_eq!(link.on_event(LinkEvent::Ended, true, true), LinkStep::Exit);
    assert_eq!(link.on_event(LinkEvent::Woken, true, true), LinkStep::Exit);
    let (mut dialed, _) = Link::start(true, false);
    assert_eq!(dialed.on_event(LinkEvent::Elapsed, true, false), LinkStep::Exit);
}

#[test]
fn a_bind_is_tried_a_few_times() {
    assert_eq!(bind_retry(1), Some(200));
    assert_eq!(bind_retry(4), Some(200));
    assert_eq!(bind_retry(5), None);
}

#[test]
fn commands_ask_what_they_say() {
    let ip = IpAddr::V4(Ipv4Addr::new(127, 0, 1, 2));
    assert_eq!(
        request_for(Command::Project { peer: "p".into(), ip: Some(ip), name: None }),
        Request::Project { peer: "p".into(), ip: Some("127.0.1.2".into()), name: None }
    );
    assert_eq!(
        request_for(Command::Expose { port: 5555, to: vec!["a".into()], all: false }),
        Request::Expose { port: 5555, to: vec!["a".into()], all: false }
    );
    assert_eq!(request_for(Command::List), Request::List);
    assert_eq!(request_for(Command::Key), Request::Key);
    assert_eq!(
        request_for(Command::Unexpose { port: 1, to: None }),
        Request::Unexpose { port: 1, to: None }
    );
    assert_eq!(
        request_for(Command::Invite { key: None, name: None, expose: vec![1] }),
        Request::Invite { key: None, name: None, expose: vec![1] }
    );
}

#[test]
fn answers_are_shown() {
    assert_eq!(show(Response::Done), Output::Line("OK".into()));
    assert_eq!(show(Response::Key("k".into())), Output::Line("k".into()));
    assert_eq!(show(Response::Invite("i".into())), Output::Line("i".into()));
    assert_eq!(show(Response::Error("e".into())), Output::Fail("Error: e".into()));
    let mut d = daemon(1);
    match show(response(ask(&mut d, Request::List))) {
        Output::List(info) => assert_eq!(info.cli, VERSION),
        other => panic!("{:?}", other),
    }
}

#[test]
fn a_handle_can_be_taken_up_directly() {
    let mut d = daemon(1);
    let step = d.accept(Handle::Key(key(2)), None);
    assert_eq!(response(step), Response::Done);
    assert_eq!(response(d.unexpose(1, None)), Response::Done);
    assert_eq!(response(d.expose(1, &vec![])), error("no peers to grant to; use --to <key>"));
}
