use pai_sho::addr::Ipv4Addr;
use pai_sho::netstack::{tun_request, NetStack};
use pai_sho::resolver::{asks_for, build_reply, host_label, parse_question, reply, Question, SUFFIX, TYPE_A};

// A minimal A-record query for a given name, id 0x1234, RD set.
fn query_for(name: &str) -> Vec<u8> {
    let mut q = vec![0x12, 0x34, 0x01, 0x00, 0x00, 0x01, 0, 0, 0, 0, 0, 0];
    for label in name.split('.') {
        q.push(label.len() as u8);
        q.extend_from_slice(label.as_bytes());
    }
    q.push(0);
    q.extend_from_slice(&TYPE_A.to_be_bytes());
    q.extend_from_slice(&[0x00, 0x01]);
    q
}

#[test]
fn parses_a_query() {
    let q = parse_question(&query_for("vibenv-ndyg.ps.internal")).unwrap();
    assert_eq!(q.name, "vibenv-ndyg.ps.internal");
    assert_eq!(q.qtype, TYPE_A);
}

#[test]
fn host_label_strips_suffix() {
    assert_eq!(host_label("vibenv-ndyg.ps.internal").as_deref(), Some("vibenv-ndyg"));
    assert_eq!(host_label("broker.ps.internal").as_deref(), Some("broker"));
    assert_eq!(host_label("a.b.ps.internal").as_deref(), None); // only single-label names
    assert_eq!(host_label("nope.com").as_deref(), None);
    assert_eq!(host_label("ps.internal").as_deref(), None);
}

#[test]
fn reply_carries_the_answer() {
    let query = query_for("broker.ps.internal");
    let q = parse_question(&query).unwrap();
    let reply = build_reply(&query, q.qend, Some(Ipv4Addr::new(127, 0, 1, 5)));
    // header: QR set, ANCOUNT 1
    assert_eq!(reply[2] & 0x80, 0x80);
    assert_eq!(u16::from_be_bytes([reply[6], reply[7]]), 1);
    // last four bytes are the A record address
    let n = reply.len();
    assert_eq!(&reply[n - 4..], &[127, 0, 1, 5]);
}

#[test]
fn empty_answer_has_no_records() {
    let query = query_for("gone.ps.internal");
    let q = parse_question(&query).unwrap();
    let reply = build_reply(&query, q.qend, None);
    assert_eq!(u16::from_be_bytes([reply[6], reply[7]]), 0); // ANCOUNT 0
}

#[test]
fn a_whole_reply() {
    let query = query_for("b.ps.internal");
    let q = parse_question(&query).unwrap();
    assert_eq!(q.qend, query.len());
    let mut expected = vec![0x12, 0x34, 0x85, 0x00, 0x00, 0x01, 0x00, 0x01, 0, 0, 0, 0];
    expected.extend_from_slice(&query[12..]);
    expected.extend_from_slice(&[0xC0, 0x0C, 0, 1, 0, 1, 0, 0, 0, 30, 0, 4, 10, 99, 1, 2]);
    assert_eq!(build_reply(&query, q.qend, Some(Ipv4Addr::new(10, 99, 1, 2))), expected);
}

#[test]
fn names_are_read_in_lower_case() {
    let q = parse_question(&query_for("BroKer.PS.internal")).unwrap();
    assert_eq!(q.name, "broker.ps.internal");
    assert_eq!(asks_for(&q).as_deref(), Some("broker"));
}

#[test]
fn bytes_that_are_no_text_are_replaced() {
    let mut query = query_for("xx.ps.internal");
    query[13] = 0xff;
    let q = parse_question(&query).unwrap();
    assert_eq!(q.name, "\u{fffd}x.ps.internal");
}

#[test]
fn malformed_queries_are_not_answered() {
    let good = query_for("b.ps.internal");
    assert_eq!(parse_question(&[]), None);
    assert_eq!(parse_question(&good[..11]), None);
    // no name, or one that is cut off
    assert_eq!(parse_question(&good[..12]), None);
    assert_eq!(parse_question(&good[..good.len() - 5]), None);
    // type and class are cut off
    assert_eq!(parse_question(&good[..good.len() - 1]), None);
    // two questions
    let mut two = good.clone();
    two[5] = 2;
    assert_eq!(parse_question(&two), None);
    // a compression pointer in the question
    let mut pointer = good.clone();
    pointer[12] = 0xC0;
    assert_eq!(parse_question(&pointer), None);
    let mut long = good;
    long[12] = 0x40;
    assert_eq!(parse_question(&long), None);
}

#[test]
fn the_root_name_is_empty() {
    let mut q = vec![0, 1, 0, 0, 0, 1, 0, 0, 0, 0, 0, 0, 0];
    q.extend_from_slice(&[0, 1, 0, 1]);
    let parsed = parse_question(&q).unwrap();
    assert_eq!(parsed, Question { name: String::new(), qtype: 1, qend: 17 });
}

#[test]
fn only_a_queries_ask_for_an_address() {
    let mut query = query_for("b.ps.internal");
    let at = query.len() - 3;
    query[at] = 28;
    let q = parse_question(&query).unwrap();
    assert_eq!(q.qtype, 28);
    assert_eq!(asks_for(&q), None);
    let answered = reply(&query, |_: &str| Some(Ipv4Addr::new(1, 2, 3, 4))).unwrap();
    assert_eq!(answered[7], 0);
}

#[test]
fn reply_resolves_through_its_argument() {
    let query = query_for("b.ps.internal");
    let resolve = |label: &str| {
        if label == "b" {
            Some(Ipv4Addr::new(127, 0, 1, 9))
        } else {
            None
        }
    };
    let answered = reply(&query, resolve).unwrap();
    assert_eq!(&answered[answered.len() - 4..], &[127, 0, 1, 9]);
    let other = reply(&query_for("c.ps.internal"), resolve).unwrap();
    assert_eq!(other[7], 0);
    assert!(reply(&[1, 2, 3], resolve).is_none());
}

#[test]
fn a_reply_asks_what_was_asked() {
    let query = query_for("broker.ps.internal");
    let q = parse_question(&query).unwrap();
    let answered = build_reply(&query, q.qend, Some(Ipv4Addr::new(1, 1, 1, 1)));
    assert_eq!(parse_question(&answered), Some(q));
}

#[test]
fn the_suffix_is_reserved() {
    assert_eq!(SUFFIX, "ps.internal");
    assert_eq!(host_label(".ps.internal"), None);
    assert_eq!(host_label("xps.internal"), None);
}

#[test]
fn the_stack_answers_for_its_surfaces() {
    let mut stack = NetStack::new();
    let (a, b) = (Ipv4Addr::new(10, 99, 1, 2), Ipv4Addr::new(10, 99, 1, 3));
    stack.add_surface(a, Some("broker".into()));
    stack.add_surface(b, None);
    assert!(stack.lookup("broker").unwrap().same(&a));
    let answered = stack.answer(&query_for("broker.ps.internal")).unwrap();
    assert_eq!(&answered[answered.len() - 4..], &[10, 99, 1, 2]);

    // The latest surface of a name is the one it stands for.
    stack.add_surface(b, Some("broker".into()));
    assert!(stack.lookup("broker").unwrap().same(&b));
    stack.remove_surface(a);
    assert!(stack.lookup("broker").is_some());
    stack.remove_surface(b);
    assert!(stack.lookup("broker").is_none());
    assert_eq!(stack.answer(&query_for("broker.ps.internal")).unwrap()[7], 0);
    assert!(stack.answer(&[]).is_none());
}

#[test]
fn listening_is_idempotent() {
    let mut stack = NetStack::new();
    let a = Ipv4Addr::new(10, 99, 1, 2);
    assert!(stack.listen(a, 80));
    assert!(!stack.listen(a, 80));
    assert!(stack.listen(a, 81));
    assert!(stack.unlisten(a, 80));
    assert!(!stack.unlisten(a, 80));
    assert!(stack.listen(a, 80));
}

#[test]
fn a_device_request_holds_the_name_and_the_flags() {
    let req = tun_request(b"ps0", [0x01, 0x10]).unwrap();
    assert_eq!(&req[..4], b"ps0\0");
    assert_eq!(&req[16..18], &[0x01, 0x10]);
    assert!(req[3..16].iter().all(|b| *b == 0));
    assert!(req[18..].iter().all(|b| *b == 0));
    assert!(tun_request(b"123456789012345", [0, 0]).is_ok());
    let e = tun_request(b"1234567890123456", [0, 0]).unwrap_err();
    assert_eq!(e.as_str(), "tun name too long");
}
