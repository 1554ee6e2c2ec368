use pai_sho::invite::{Handle, Invite, InviteError};
use pai_sho::key::EndpointId;

fn key(n: u8) -> EndpointId {
    let mut bytes = [0u8; 32];
    bytes[0] = n;
    let public = iroh::SecretKey::from_bytes(&bytes).public();
    EndpointId::from_bytes(public.as_bytes()).unwrap()
}

#[test]
fn an_invitation_round_trips() {
    let invite = Invite {
        key: key(1),
        code: "abc123".into(),
    };
    let parsed: Handle = invite.to_string().parse().unwrap();
    assert_eq!(parsed, Handle::Invite(invite));
}

#[test]
fn a_bare_key_parses_as_a_key() {
    let parsed: Handle = key(1).to_string().parse().unwrap();
    assert_eq!(parsed, Handle::Key(key(1)));
}

#[test]
fn an_invitation_and_a_key_agree_on_who_to_dial() {
    let k = key(1);
    let invite: Handle = Invite {
        key: k,
        code: "abc".into(),
    }
    .to_string()
    .parse()
    .unwrap();
    let bare: Handle = k.to_string().parse().unwrap();
    assert_eq!(invite.key(), bare.key());
    assert_eq!(invite.code(), Some("abc".to_string()));
    assert_eq!(bare.code(), None);
}

#[test]
fn junk_is_rejected() {
    assert!("not-a-key".parse::<Handle>().is_err());
    assert!("".parse::<Handle>().is_err());
}

#[test]
fn an_invitation_without_a_code_is_rejected() {
    assert!(format!("{}.", key(1).to_string()).parse::<Handle>().is_err());
}

#[test]
fn an_invitation_with_a_bad_key_is_rejected() {
    assert!("nonsense.abc123".parse::<Handle>().is_err());
}

#[test]
fn surrounding_whitespace_is_ignored() {
    let s = format!("  {}  ", key(1).to_string());
    assert_eq!(s.parse::<Handle>().unwrap(), Handle::Key(key(1)));
}

#[test]
fn each_error_says_what_is_wrong() {
    let k = key(1).to_string();
    assert_eq!(Handle::parse(&format!("{}.", k)), Err(InviteError::NoCode));
    assert_eq!(Handle::parse(".abc"), Err(InviteError::InvalidInvitationKey));
    assert_eq!(Handle::parse("."), Err(InviteError::NoCode));
    assert_eq!(Handle::parse("nonsense"), Err(InviteError::InvalidKey));
    assert_eq!(Handle::parse("   "), Err(InviteError::InvalidKey));
    assert_eq!(InviteError::NoCode.as_str(), "invitation has no code");
    assert_eq!(InviteError::InvalidInvitationKey.as_str(), "invitation has an invalid key");
    assert_eq!(InviteError::InvalidKey.as_str(), "invalid key");
}

#[test]
fn the_first_separator_ends_the_key() {
    let text = format!("{}.a.b", key(2).to_string());
    let parsed = Handle::parse(&text).unwrap();
    assert_eq!(parsed.key(), key(2));
    assert_eq!(parsed.code(), Some("a.b".to_string()));
}

#[test]
fn an_invitation_is_the_key_in_hex_and_the_code() {
    let invite = Invite { key: key(1), code: "7fd2".into() };
    let mut expected = String::new();
    for b in key(1).as_bytes() {
        expected.push_str(&format!("{:02x}", b));
    }
    expected.push_str(".7fd2");
    assert_eq!(invite.to_string(), expected);
    assert_eq!(invite.to_string().len(), 64 + 1 + 4);
}

#[test]
fn a_key_reads_as_iroh_prints_it() {
    let secret = iroh::SecretKey::from_bytes(&[9u8; 32]);
    let text = secret.public().to_string();
    let id = EndpointId::parse(&text).unwrap();
    assert_eq!(id.as_bytes(), secret.public().as_bytes());
    assert_eq!(id.to_string(), text);
}

#[test]
fn not_every_32_bytes_are_a_key() {
    let mut rejected = 0;
    for n in 0u8..64 {
        let bytes = [n; 32];
        let ours = EndpointId::from_bytes(&bytes).is_some();
        assert_eq!(ours, iroh::EndpointId::from_bytes(&bytes).is_ok());
        if !ours {
            rejected += 1;
        }
    }
    assert!(rejected > 0);
}

#[test]
fn keys_sort_by_their_bytes() {
    let mut ids = vec![key(1), key(2), key(3), key(4)];
    ids.sort();
    for pair in ids.windows(2) {
        assert!(pair[0].before(&pair[1]));
        assert!(!pair[1].before(&pair[0]));
        assert!(pair[0].as_bytes() < pair[1].as_bytes());
    }
    assert!(key(1).same(&key(1)));
    assert!(!key(1).same(&key(2)));
    assert!(!key(1).before(&key(1)));
}

#[test]
fn the_parts_of_a_handle() {
    let split = pai_sho::invite::split_handle;
    assert_eq!(split(" k.c \n"), ("k".to_string(), Some("c".to_string())));
    assert_eq!(split("k"), ("k".to_string(), None));
    assert_eq!(split("k."), ("k".to_string(), Some(String::new())));
    assert_eq!(
        Handle::from_parts(Some(key(1)), Some("c".into())),
        Ok(Handle::Invite(Invite { key: key(1), code: "c".into() }))
    );
    assert_eq!(Handle::from_parts(None, Some("c".into())), Err(InviteError::InvalidInvitationKey));
    assert_eq!(Handle::from_parts(None, None), Err(InviteError::InvalidKey));
}
