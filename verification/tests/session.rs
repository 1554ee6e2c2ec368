use pai_sho::enroll::{Pin, Pins};
use pai_sho::key::{default_name, EndpointId};
use pai_sho::protocol::PeerMessage;
use pai_sho::roster::Admission;
use pai_sho::session::{Action, ConnId, Refusal, Session};

fn key(n: u8) -> EndpointId {
    let mut bytes = [0u8; 32];
    bytes[0] = n;
    let public = iroh::SecretKey::from_bytes(&bytes).public();
    EndpointId::from_bytes(public.as_bytes()).unwrap()
}

fn session_with(peer: EndpointId) -> Session {
    let mut s = Session::new();
    s.admit_known(peer, Some("peer".into()), Admission::Added);
    s
}

// -- authorization -----------------------------------------------------

#[test]
fn tunnel_needs_a_grant() {
    let a = key(1);
    let s = session_with(a);
    assert_eq!(
        s.on_tunnel(&a, 4000),
        Action::RejectTunnel {
            reason: Refusal::NotGranted
        }
    );
}

#[test]
fn tunnel_is_served_once_granted() {
    let a = key(1);
    let mut s = session_with(a);
    s.expose(4000, &[a]);
    assert_eq!(s.on_tunnel(&a, 4000), Action::ServeTunnel { port: 4000 });
}

#[test]
fn a_grant_to_one_peer_is_not_usable_by_another() {
    let (a, b) = (key(1), key(2));
    let mut s = session_with(a);
    s.admit_known(b, None, Admission::Added);
    s.expose(4000, &[a]);
    assert_eq!(
        s.on_tunnel(&b, 4000),
        Action::RejectTunnel {
            reason: Refusal::NotGranted
        }
    );
}

#[test]
fn a_grant_covers_only_the_port_named() {
    let a = key(1);
    let mut s = session_with(a);
    s.expose(4000, &[a]);
    assert_eq!(
        s.on_tunnel(&a, 4001),
        Action::RejectTunnel {
            reason: Refusal::NotGranted
        }
    );
}

// -- announcement ------------------------------------------------------

#[test]
fn a_peer_is_told_only_its_own_grants() {
    let (a, b) = (key(1), key(2));
    let mut s = session_with(a);
    s.admit_known(b, None, Admission::Added);
    s.expose(4000, &[a]);
    s.expose(4001, &[b]);
    assert_eq!(
        s.announce(a),
        Action::Announce {
            peer: a,
            ports: vec![4000]
        }
    );
}

#[test]
fn revocation_announces_an_empty_list() {
    let a = key(1);
    let mut s = session_with(a);
    s.expose(4000, &[a]);
    assert_eq!(
        s.unexpose(4000, None),
        vec![Action::Announce {
            peer: a,
            ports: vec![]
        }]
    );
}

#[test]
fn revoking_one_grantee_leaves_the_other() {
    let (a, b) = (key(1), key(2));
    let mut s = session_with(a);
    s.admit_known(b, None, Admission::Added);
    s.expose(4000, &[a, b]);
    s.unexpose(4000, Some(a));
    assert_eq!(
        s.on_tunnel(&a, 4000),
        Action::RejectTunnel {
            reason: Refusal::NotGranted
        }
    );
    assert_eq!(s.on_tunnel(&b, 4000), Action::ServeTunnel { port: 4000 });
}

// -- admission ---------------------------------------------------------

#[test]
fn an_unknown_peer_is_not_admitted_on_arrival() {
    let mut s = Session::new();
    assert_eq!(s.on_inbound(ConnId(1), key(9)), vec![]);
}

#[test]
fn an_unknown_peer_with_no_claim_is_refused_on_timeout() {
    let mut s = Session::new();
    let conn = ConnId(1);
    s.on_inbound(conn, key(9));
    assert_eq!(
        s.on_enroll_timeout(conn),
        vec![Action::Refuse {
            conn,
            reason: Refusal::EnrollTimeout
        }]
    );
    assert!(s.admission_of(&key(9)).is_none());
}

#[test]
fn a_bad_code_is_refused() {
    let mut s = Session::new();
    let (conn, k) = (ConnId(1), key(9));
    s.on_inbound(conn, k);
    let actions = s.on_unadmitted(
        conn,
        k,
        PeerMessage::Enroll {
            token: "nope".into(),
            version: None,
        },
    );
    assert_eq!(
        actions,
        vec![Action::Refuse {
            conn,
            reason: Refusal::NotAuthorized
        }]
    );
    assert!(s.admission_of(&k).is_none());
}

#[test]
fn a_valid_code_admits_and_pins() {
    let mut s = Session::new();
    let (conn, k) = (ConnId(1), key(9));
    let token = s.mint_token(Some("rustdev".into()), vec![]);
    s.on_inbound(conn, k);

    let actions = s.on_unadmitted(conn, k, PeerMessage::Enroll { token, version: None });
    assert_eq!(
        actions,
        vec![
            Action::Admit {
                conn,
                peer: k,
                replacing: false
            },
            Action::PersistPin {
                key: k,
                label: Some("rustdev".into())
            },
            Action::Announce {
                peer: k,
                ports: vec![]
            },
        ]
    );
    assert_eq!(s.admission_of(&k), Some(Admission::Code));
    assert_eq!(s.label_of(&k), Some("rustdev".into()));
}

#[test]
fn a_code_is_single_use() {
    let mut s = Session::new();
    let token = s.mint_token(Some("rustdev".into()), vec![]);
    let first = key(1);
    s.on_inbound(ConnId(1), first);
    s.on_unadmitted(
        ConnId(1),
        first,
        PeerMessage::Enroll {
            token: token.clone(),
            version: None,
        },
    );

    let second = key(2);
    s.on_inbound(ConnId(2), second);
    let actions = s.on_unadmitted(ConnId(2), second, PeerMessage::Enroll { token, version: None });
    assert_eq!(
        actions,
        vec![Action::Refuse {
            conn: ConnId(2),
            reason: Refusal::NotAuthorized
        }]
    );
    assert!(s.admission_of(&second).is_none());
}

#[test]
fn an_unadmitted_peer_announcing_ports_is_not_admitted_by_it() {
    let mut s = Session::new();
    let (conn, k) = (ConnId(1), key(9));
    s.on_inbound(conn, k);
    assert_eq!(
        s.on_unadmitted(conn, k, PeerMessage::ExposedPorts(vec![4000])),
        vec![]
    );
    assert!(s.admission_of(&k).is_none());
}

#[test]
fn ports_announced_before_the_claim_are_applied_after_it() {
    let mut s = Session::new();
    let (conn, k) = (ConnId(1), key(9));
    let token = s.mint_token(Some("rustdev".into()), vec![]);
    s.on_inbound(conn, k);
    s.on_unadmitted(conn, k, PeerMessage::ExposedPorts(vec![4000, 4001]));

    let actions = s.on_unadmitted(conn, k, PeerMessage::Enroll { token, version: None });
    assert!(actions.contains(&Action::ApplyPorts {
        peer: k,
        ports: vec![4000, 4001]
    }));
}

#[test]
fn a_known_peer_is_admitted_with_no_claim() {
    let a = key(1);
    let mut s = session_with(a);
    let conn = ConnId(1);
    assert_eq!(
        s.on_inbound(conn, a),
        vec![
            Action::Admit {
                conn,
                peer: a,
                replacing: true
            },
            Action::Announce {
                peer: a,
                ports: vec![]
            },
        ]
    );
}

#[test]
fn admitting_a_known_peer_twice_changes_nothing() {
    let a = key(1);
    let mut s = session_with(a);
    assert!(!s.admit_known(a, Some("other".into()), Admission::Key));
    assert_eq!(s.label_of(&a), Some("peer".into()));
    assert_eq!(s.admission_of(&a), Some(Admission::Added));
}

#[test]
fn admission_records_how_the_peer_arrived() {
    let mut s = Session::new();
    s.admit_known(key(1), None, Admission::Key);
    assert_eq!(s.admission_of(&key(1)), Some(Admission::Key));
}

// -- eviction ----------------------------------------------------------

#[test]
fn eviction_revokes_every_grant_naming_the_peer() {
    let (a, b) = (key(1), key(2));
    let mut s = session_with(a);
    s.admit_known(b, None, Admission::Added);
    s.expose(4000, &[a, b]);
    s.expose(4001, &[a]);

    s.evict(&a);

    assert!(s.admission_of(&a).is_none());
    assert_eq!(
        s.on_tunnel(&a, 4000),
        Action::RejectTunnel {
            reason: Refusal::NotGranted
        }
    );
    assert_eq!(s.granted_ports(), vec![4000]);
}

#[test]
fn evicting_an_unknown_peer_does_nothing() {
    let mut s = Session::new();
    assert_eq!(s.evict(&key(1)), vec![]);
}

#[test]
fn an_evicted_peer_is_no_longer_admitted_on_arrival() {
    let a = key(1);
    let mut s = session_with(a);
    s.evict(&a);
    assert_eq!(s.on_inbound(ConnId(1), a), vec![]);
}

#[test]
fn an_invitation_can_carry_a_grant() {
    let mut s = Session::new();
    let (conn, k) = (ConnId(1), key(9));
    let token = s.mint_token(None, vec![8080]);
    s.on_inbound(conn, k);

    let actions = s.on_unadmitted(conn, k, PeerMessage::Enroll { token, version: None });
    assert!(actions.contains(&Action::Announce {
        peer: k,
        ports: vec![8080]
    }));
    assert_eq!(s.on_tunnel(&k, 8080), Action::ServeTunnel { port: 8080 });
}

#[test]
fn a_carried_grant_names_only_the_claimer() {
    let (a, b) = (key(1), key(2));
    let mut s = session_with(a);
    let token = s.mint_token(None, vec![8080]);
    s.on_inbound(ConnId(1), b);
    s.on_unadmitted(ConnId(1), b, PeerMessage::Enroll { token, version: None });

    assert_eq!(s.on_tunnel(&b, 8080), Action::ServeTunnel { port: 8080 });
    assert_eq!(
        s.on_tunnel(&a, 8080),
        Action::RejectTunnel {
            reason: Refusal::NotGranted
        }
    );
}

#[test]
fn an_unnamed_peer_falls_back_to_a_short_key() {
    let k = key(1);
    let name = default_name(&k);
    assert_eq!(name.len(), pai_sho::key::SHORT_KEY);
    assert!(k.to_string().starts_with(&name));
}

#[test]
fn short_names_differ_between_peers() {
    assert_ne!(default_name(&key(1)), default_name(&key(2)));
}

// -- more of the same ------------------------------------------------------

#[test]
fn refusals_and_admissions_have_names() {
    assert_eq!(Refusal::NotAuthorized.as_str(), "not authorized");
    assert_eq!(Refusal::EnrollTimeout.as_str(), "enroll timeout");
    assert_eq!(Refusal::NotGranted.as_str(), "not granted");
    assert_eq!(Admission::Added.as_str(), "added");
    assert_eq!(Admission::Code.as_str(), "code");
    assert_eq!(Admission::Key.as_str(), "key");
}

#[test]
fn a_code_expires() {
    let mut s = Session::new();
    s.mint_token_at("c0de".into(), 1_000, None, vec![]);
    let late = s.on_unadmitted_at(
        301_000,
        ConnId(1),
        key(1),
        PeerMessage::Enroll { token: "c0de".into(), version: None },
    );
    assert_eq!(
        late,
        vec![Action::Refuse { conn: ConnId(1), reason: Refusal::NotAuthorized }]
    );

    s.mint_token_at("c0de".into(), 1_000, None, vec![]);
    let in_time = s.on_unadmitted_at(
        300_999,
        ConnId(2),
        key(2),
        PeerMessage::Enroll { token: "c0de".into(), version: None },
    );
    assert_eq!(in_time.len(), 3);
    assert_eq!(s.admission_of(&key(2)), Some(Admission::Code));
}

#[test]
fn codes_are_random_hex() {
    let mut s = Session::new();
    let a = s.mint_token(None, vec![]);
    let b = s.mint_token(None, vec![]);
    assert_ne!(a, b);
    assert_eq!(a.len(), 32);
    assert!(a.chars().all(|c| c.is_ascii_hexdigit() && !c.is_ascii_uppercase()));
}

#[test]
fn the_clock_runs_forward() {
    let s = Session::new();
    let first = s.now();
    let second = s.now();
    assert!(first <= second);
    assert!(second < 60_000);
}

#[test]
fn grants_are_listed_by_port_and_key() {
    let (a, b) = (key(1), key(2));
    let (lo, hi) = if a.before(&b) { (a, b) } else { (b, a) };
    let mut s = Session::new();
    s.expose(4001, &[hi, lo]);
    s.expose(4000, &[hi]);
    s.expose(4000, &[hi]);
    assert_eq!(s.all_grants(), vec![(4000, hi), (4001, lo), (4001, hi)]);
    assert_eq!(s.granted_ports(), vec![4000, 4001]);
}

#[test]
fn announcements_go_out_in_the_order_of_keys() {
    let mut keys = vec![key(1), key(2), key(3)];
    let mut s = Session::new();
    for k in &keys {
        s.admit_known(*k, None, Admission::Added);
    }
    keys.sort();
    assert_eq!(s.peer_keys(), keys);
    let told = s.expose(80, &[keys[1]]);
    assert_eq!(
        told,
        vec![
            Action::Announce { peer: keys[0], ports: vec![] },
            Action::Announce { peer: keys[1], ports: vec![80] },
            Action::Announce { peer: keys[2], ports: vec![] },
        ]
    );
}

#[test]
fn exposing_to_all_is_a_snapshot() {
    let (a, b) = (key(1), key(2));
    let mut s = session_with(a);
    let known = s.peer_keys();
    s.expose(4000, &known);
    s.admit_known(b, None, Admission::Added);
    assert_eq!(s.on_tunnel(&a, 4000), Action::ServeTunnel { port: 4000 });
    assert_eq!(s.on_tunnel(&b, 4000), Action::RejectTunnel { reason: Refusal::NotGranted });
}

#[test]
fn an_invitation_without_ports_is_not_access() {
    let mut s = Session::new();
    let token = s.mint_token(None, vec![]);
    s.on_inbound(ConnId(1), key(1));
    s.on_unadmitted(ConnId(1), key(1), PeerMessage::Enroll { token, version: None });
    assert_eq!(s.on_tunnel(&key(1), 80), Action::RejectTunnel { reason: Refusal::NotGranted });
    assert!(s.all_grants().is_empty());
}

#[test]
fn a_timeout_is_reported_once() {
    let mut s = Session::new();
    s.on_inbound(ConnId(7), key(1));
    assert_eq!(s.on_enroll_timeout(ConnId(7)).len(), 1);
    assert_eq!(s.on_enroll_timeout(ConnId(7)), vec![]);
}

#[test]
fn early_ports_of_an_unknown_connection_are_dropped() {
    let mut s = Session::new();
    let token = s.mint_token(None, vec![]);
    s.on_unadmitted(ConnId(1), key(1), PeerMessage::ExposedPorts(vec![1]));
    let actions = s.on_unadmitted(ConnId(1), key(1), PeerMessage::Enroll { token, version: None });
    assert_eq!(
        actions,
        vec![
            Action::Admit { conn: ConnId(1), peer: key(1), replacing: false },
            Action::PersistPin { key: key(1), label: None },
            Action::Announce { peer: key(1), ports: vec![] },
        ]
    );
}

#[test]
fn other_messages_do_not_admit() {
    let mut s = Session::default();
    s.on_inbound(ConnId(1), key(1));
    assert_eq!(s.on_unadmitted(ConnId(1), key(1), PeerMessage::Connect { port: 80 }), vec![]);
    assert_eq!(s.on_unadmitted(ConnId(1), key(1), PeerMessage::Error("x".into())), vec![]);
    assert!(s.admission_of(&key(1)).is_none());
}

#[test]
fn pins_are_kept_one_for_each_key() {
    let pins = Pins::new("k.peers.json".into());
    let one = pins.add(vec![], "a", Some("x".into()), true);
    let two = pins.add(one, "b", None, false);
    let three = pins.add(two, "a", None, true);
    assert_eq!(
        three,
        vec![
            Pin { key: "b".into(), label: None, by_code: false },
            Pin { key: "a".into(), label: None, by_code: true }
        ]
    );
    assert_eq!(pins.remove(three, "b"), vec![Pin { key: "a".into(), label: None, by_code: true }]);
    assert_eq!(pins.path, "k.peers.json");
}

#[test]
fn minting_leaves_the_clock_alone() {
    let mut s = Session::new();
    while s.now() < 5 {}
    let code = s.mint_token(None, vec![]);
    assert_eq!(code.len(), 32);
    assert!(s.now() >= 5);
}
