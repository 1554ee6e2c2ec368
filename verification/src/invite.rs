//! Invitations: what one daemon hands another so it can say yes.
//!
//! An invitation is self-contained. It carries the issuer's key, so the
//! accepter knows which machine to dial, and a one-time code, which admits it.
//! Both halves always travel together, so they are one value.
//!
//! `accept` also takes a bare key, for the case where nothing secret can be
//! put in front of the accepter. `Handle` is whichever of the two arrived.

use crate::key::{is_key, key_of_text, opt_id, EndpointId, InvalidKey};
use crate::text::{
    hex, is_space, lemma_find_char, lemma_find_char_at, lemma_trim_pads, lemma_trimmed_is_same, opt_text,
    split_once, split_once_spec, trim, trimmed,
};
use vstd::prelude::*;

verus! {

/// Separates the issuer's key from the one-time code. A key and a code both
/// print as hexadecimal, so neither contains it.
pub const SEP: char = '.';

/// An invitation: who to dial, and the code that admits you.
#[derive(Clone, PartialEq, Eq, Debug)]
pub struct Invite {
    pub key: EndpointId,
    pub code: String,
}

/// What `accept` was given: an invitation, or a key on its own.
#[derive(Clone, PartialEq, Eq, Debug)]
pub enum Handle {
    Invite(Invite),
    Key(EndpointId),
}

/// Why a text is neither an invitation nor a key.
#[derive(Copy, Clone, PartialEq, Eq, Debug)]
pub enum InviteError {
    /// Nothing follows the separator
    NoCode,
    /// What stands before the separator is not a key
    InvalidInvitationKey,
    /// There is no separator, and the whole is not a key
    InvalidKey,
}

impl InviteError {
    /// The text of the error.
    pub open spec fn text(self) -> Seq<char> {
        match self {
            InviteError::NoCode => "invitation has no code"@,
            InviteError::InvalidInvitationKey => "invitation has an invalid key"@,
            InviteError::InvalidKey => "invalid key"@,
        }
    }

    /// What to tell the user.
    pub fn as_str(self) -> (s: &'static str)
        ensures
            s@ == self.text(),
    {
        match self {
            InviteError::NoCode => "invitation has no code",
            InviteError::InvalidInvitationKey => "invitation has an invalid key",
            InviteError::InvalidKey => "invalid key",
        }
    }
}

/// A handle as plain values.
pub enum HandleView {
    Invite { key: Seq<u8>, code: Seq<char> },
    Key(Seq<u8>),
}

impl View for Handle {
    type V = HandleView;

    open spec fn view(&self) -> HandleView {
        match *self {
            Handle::Invite(i) => HandleView::Invite { key: i.key@, code: i.code@ },
            Handle::Key(k) => HandleView::Key(k@),
        }
    }
}

/// The text of an invitation.
pub open spec fn invite_text(key: Seq<u8>, code: Seq<char>) -> Seq<char> {
    hex(key).push(SEP) + code
}

/// The key text and the code that a handle is written with: what stands before
/// and after the first separator, or the whole and no code.
pub open spec fn handle_parts(s: Seq<char>) -> (Seq<char>, Option<Seq<char>>) {
    match split_once_spec(trimmed(s), SEP) {
        Some((key, code)) => (key, Some(code)),
        None => (trimmed(s), None),
    }
}

/// The handle made of a key, if one was read, and a code, if one was given.
pub open spec fn handle_from(key: Option<Seq<u8>>, code: Option<Seq<char>>) -> Result<HandleView, InviteError> {
    match code {
        Some(c) => if c.len() == 0 {
            Err(InviteError::NoCode)
        } else {
            match key {
                Some(k) => Ok(HandleView::Invite { key: k, code: c }),
                None => Err(InviteError::InvalidInvitationKey),
            }
        },
        None => match key {
            Some(k) => Ok(HandleView::Key(k)),
            None => Err(InviteError::InvalidKey),
        },
    }
}

/// What a text says.
pub open spec fn handle_of(s: Seq<char>) -> Result<HandleView, InviteError> {
    let (key, code) = handle_parts(s);
    handle_from(key_of_text(key), code)
}

/// The outcome of reading a handle, as plain values.
pub open spec fn handle_result(r: Result<Handle, InviteError>) -> Result<HandleView, InviteError> {
    match r {
        Ok(h) => Ok(h@),
        Err(e) => Err(e),
    }
}

impl Invite {
    /// The invitation as one value to hand over.
    pub fn to_string(&self) -> (s: String)
        ensures
            s@ == invite_text(self.key@, self.code@),
    {
        let mut s = self.key.to_string();
        s.push(SEP);
        s.append(self.code.as_str());
        s
    }
}

/// Splits a text into the part that names a key and the code, if there is one.
pub fn split_handle(s: &str) -> (r: (String, Option<String>))
    ensures
        handle_parts(s@) == (r.0@, opt_text(r.1)),
{
    let t = trim(s);
    match split_once(t.as_str(), SEP) {
        Some((key, code)) => (key, Some(code)),
        None => (t, None),
    }
}

impl Handle {
    /// The key to dial, either way.
    pub fn key(&self) -> (k: EndpointId)
        ensures
            k@ == match self@ {
                HandleView::Invite { key, .. } => key,
                HandleView::Key(key) => key,
            },
    {
        match self {
            Handle::Invite(i) => i.key,
            Handle::Key(k) => *k,
        }
    }

    /// The code to present, if there is one.
    pub fn code(&self) -> (c: Option<String>)
        ensures
            opt_text(c) == match self@ {
                HandleView::Invite { code, .. } => Some(code),
                HandleView::Key(_) => None,
            },
    {
        match self {
            Handle::Invite(i) => Some(i.code.clone()),
            Handle::Key(_) => None,
        }
    }

    /// Puts a handle together from the key that was read, if one was, and the
    /// code that was given, if one was.
    pub fn from_parts(key: Option<EndpointId>, code: Option<String>) -> (r: Result<Handle, InviteError>)
        ensures
            handle_result(r) == handle_from(opt_id(key), opt_text(code)),
    {
        match code {
            Some(code) => {
                if crate::text::is_empty(code.as_str()) {
                    return Err(InviteError::NoCode);
                }
                match key {
                    Some(key) => Ok(Handle::Invite(Invite { key, code })),
                    None => Err(InviteError::InvalidInvitationKey),
                }
            },
            None => match key {
                Some(key) => Ok(Handle::Key(key)),
                None => Err(InviteError::InvalidKey),
            },
        }
    }

    /// Reads an invitation or a key. Surrounding whitespace is ignored. What an
    /// invitation or a key prints as reads back as itself.
    pub fn parse(s: &str) -> (r: Result<Handle, InviteError>)
        ensures
            handle_result(r) == handle_of(s@),
            forall|key: Seq<u8>, code: Seq<char>|
                key.len() == 32 && is_key(key) && code.len() > 0 && !is_space(code.last()) && trimmed(s@)
                    == #[trigger] invite_text(key, code) ==> handle_result(r) == Ok::<HandleView, InviteError>(
                    HandleView::Invite { key, code },
                ),
            forall|key: Seq<u8>|
                key.len() == 32 && is_key(key) && trimmed(s@) == #[trigger] hex(key) ==> handle_result(r) == Ok::<
                    HandleView,
                    InviteError,
                >(HandleView::Key(key)),
    {
        let (key, code) = split_handle(s);
        let ghost parts = handle_parts(s@);
        proof {
            assert forall|key: Seq<u8>, code: Seq<char>|
                key.len() == 32 && is_key(key) && code.len() > 0 && !is_space(code.last()) && trimmed(s@)
                    == #[trigger] invite_text(key, code) implies parts.0 == hex(key) && parts.1 == Some(code) by {
                lemma_invite_splits(key, code);
            }
            assert forall|key: Seq<u8>|
                key.len() == 32 && is_key(key) && trimmed(s@) == #[trigger] hex(key) implies parts.0 == hex(key) && parts.1
                is None by {
                lemma_hex_has_no_sep(key);
                lemma_find_char(hex(key), SEP);
            }
        }
        match EndpointId::parse(key.as_str()) {
            Ok(k) => Handle::from_parts(Some(k), code),
            Err(InvalidKey) => Handle::from_parts(None, code),
        }
    }
}

impl std::str::FromStr for Handle {
    type Err = InviteError;

    /// `Handle::parse`, for `str::parse`.
    fn from_str(s: &str) -> (r: Result<Self, InviteError>)
        ensures
            handle_result(r) == handle_of(s@),
            forall|key: Seq<u8>, code: Seq<char>|
                key.len() == 32 && is_key(key) && code.len() > 0 && !is_space(code.last()) && trimmed(s@)
                    == #[trigger] invite_text(key, code) ==> handle_result(r) == Ok::<HandleView, InviteError>(
                    HandleView::Invite { key, code },
                ),
            forall|key: Seq<u8>|
                key.len() == 32 && is_key(key) && trimmed(s@) == #[trigger] hex(key) ==> handle_result(r) == Ok::<
                    HandleView,
                    InviteError,
                >(HandleView::Key(key)),
    {
        Handle::parse(s)
    }
}

/// The text of a key holds no separator.
proof fn lemma_hex_has_no_sep(key: Seq<u8>)
    ensures
        forall|i: int| 0 <= i < hex(key).len() ==> hex(key)[i] != SEP,
{
    assert forall|i: int| 0 <= i < hex(key).len() implies hex(key)[i] != SEP by {
        crate::key::law_key_text_is_hex(key, i);
    }
}

/// An invitation splits at the separator into its key and its code.
proof fn lemma_invite_splits(key: Seq<u8>, code: Seq<char>)
    ensures
        split_once_spec(invite_text(key, code), SEP) == Some((hex(key), code)),
{
    let t = invite_text(key, code);
    let k = hex(key).len() as int;
    lemma_hex_has_no_sep(key);
    assert(t[k] == SEP);
    assert forall|i: int| 0 <= i < k implies t[i] != SEP by {
        assert(t[i] == hex(key)[i]);
    }
    lemma_find_char_at(t, SEP, k);
    assert(t.take(k) =~= hex(key));
    assert(t.skip(k + 1) =~= code);
}

/// Whitespace around a handle is ignored.
pub proof fn law_surrounding_whitespace_is_ignored(before: Seq<char>, s: Seq<char>, after: Seq<char>)
    requires
        forall|i: int| 0 <= i < before.len() ==> is_space(#[trigger] before[i]),
        forall|i: int| 0 <= i < after.len() ==> is_space(#[trigger] after[i]),
    ensures
        handle_of(before + s + after) == handle_of(s),
{
    lemma_trim_pads(before, s, after);
}

/// The text of an invitation holds no whitespace of its own at either end, so
/// it is what trimming leaves of it, provided its code ends in none.
pub proof fn law_invitation_is_trimmed(key: Seq<u8>, code: Seq<char>)
    requires
        key.len() > 0,
        code.len() > 0,
        !is_space(code.last()),
    ensures
        trimmed(invite_text(key, code)) == invite_text(key, code),
        handle_parts(invite_text(key, code)) == (hex(key), Some(code)),
{
    let t = invite_text(key, code);
    crate::key::law_key_text_is_hex(key, 0);
    assert(t[0] == hex(key)[0]);
    assert(t.last() == code.last());
    lemma_trimmed_is_same(t);
    lemma_invite_splits(key, code);
}

/// An invitation and the bare key it carries agree on who to dial.
pub proof fn law_invitation_and_key_agree(key: Seq<u8>, code: Seq<char>)
    requires
        key.len() > 0,
        code.len() > 0,
        !is_space(code.last()),
    ensures
        handle_of(invite_text(key, code)) == handle_from(key_of_text(hex(key)), Some(code)),
        handle_of(hex(key)) == handle_from(key_of_text(hex(key)), None),
{
    law_invitation_is_trimmed(key, code);
    let h = hex(key);
    lemma_hex_has_no_sep(key);
    crate::key::law_key_text_is_hex(key, 0);
    crate::key::law_key_text_is_hex(key, h.len() - 1);
    lemma_trimmed_is_same(h);
    lemma_find_char(h, SEP);
}

/// What a text says, by its parts: a key, a separator and a code are an
/// invitation, a key alone is a key, and anything else is neither, for the
/// reason that is given.
pub proof fn law_handle_is_its_parts(key: Seq<char>, code: Seq<char>)
    requires
        !key.contains('.'),
    ensures
        trimmed(key + seq!['.'] + code) == key + seq!['.'] + code ==> handle_of(key + seq!['.'] + code) == if code.len() == 0 {
            Err::<HandleView, InviteError>(InviteError::NoCode)
        } else if key_of_text(key) is Some {
            Ok(HandleView::Invite { key: key_of_text(key)->Some_0, code })
        } else {
            Err(InviteError::InvalidInvitationKey)
        },
        trimmed(key) == key ==> handle_of(key) == if key_of_text(key) is Some {
            Ok::<HandleView, InviteError>(HandleView::Key(key_of_text(key)->Some_0))
        } else {
            Err(InviteError::InvalidKey)
        },
{
    let t = key + seq!['.'] + code;
    let n = key.len() as int;
    assert(t[n] == '.');
    assert forall|i: int| 0 <= i < n implies t[i] != '.' && key[i] != '.' by {
        assert(t[i] == key[i]);
        assert(key.contains(key[i]));
    }
    lemma_find_char_at(t, '.', n);
    assert(t.take(n) =~= key);
    assert(t.skip(n + 1) =~= code);
    lemma_find_char_at(key, '.', n);
}

}
