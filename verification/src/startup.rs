//! How a daemon comes up: its key, its files, and the invitations it takes up.

use crate::daemon::{accept_outcome, Daemon};
use crate::effect::{effect_views, group_effects, Effect, EffectView};
use crate::enroll::{pin_of_other, pin_views, Pin, PinView};
use crate::invite::{handle_of, Handle, HandleView};
use crate::key::{key_of_text, EndpointId};
use crate::peer::access::after_grants;
use crate::peer::laws::lemma_restores;
use crate::peer::projection::{after_restores, evict_effects, restore_views, restores_of, Restore};
use crate::peer::{
    after_record, broadcast_effects, consistent, known_by_code, peer_error_text, pin_admission, pinned_effects, ManagerView, PeerErrorView,
};
use crate::roster::Admission;
use crate::session::{announcement, inbound_actions, ActionView};
use crate::surface::{record_views, RecordView, SurfaceRecord};
use crate::text::{hex, texts};
use vstd::prelude::*;

verus! {

// ----------------------------------------------------------------- key file

/// How many bytes a key file holds.
pub const KEY_LEN: usize = 32;

/// Generates the bytes of a secret key with `iroh::SecretKey::generate`. They
/// depend on chance, so nothing is said of them.
#[verifier::external_body]
fn generate_secret() -> (r: [u8; 32]) {
    iroh::SecretKey::generate().to_bytes()
}

/// The bytes of the public key that `iroh::SecretKey::public` derives from a
/// secret key.
pub uninterp spec fn public_of(secret: Seq<u8>) -> Seq<u8>;

/// Derives the public key of a secret key with `iroh::SecretKey::public`. Any 32
/// bytes are a secret key; what is derived depends on them alone and is a key.
#[verifier::external_body]
fn derive_public(secret: &[u8; 32]) -> (r: [u8; 32])
    ensures
        r@ == public_of(secret@),
        crate::key::is_key(r@),
{
    *iroh::SecretKey::from_bytes(secret).public().as_bytes()
}

/// The identity of a daemon.
#[derive(Debug, PartialEq, Eq)]
pub struct Identity {
    /// The bytes of its secret key, as they stand in the key file
    pub secret: [u8; 32],
    /// The key it is known by
    pub id: EndpointId,
    /// Whether the key file has yet to be written
    pub is_new: bool,
}

/// A key file that does not hold a key.
#[derive(Copy, Clone, PartialEq, Eq, Debug)]
pub struct BadKeyFile;

/// The text of the error when the file at `path` does not hold a key.
pub open spec fn bad_key_file_text(path: Seq<char>) -> Seq<char> {
    "key file "@ + path + " is not 32 bytes"@
}

impl BadKeyFile {
    /// What to tell the user about the file at `path`.
    pub fn describe(&self, path: &str) -> (s: String)
        ensures
            s@ == bad_key_file_text(path@),
    {
        let mut s = "key file ".to_owned();
        s.append(path);
        s.append(" is not 32 bytes");
        s
    }
}

/// The bytes of a key file as a key, if there are as many as a key has.
pub fn secret_in(file: &Vec<u8>) -> (r: Result<[u8; 32], BadKeyFile>)
    ensures
        match r {
            Ok(secret) => file@.len() == KEY_LEN && secret@ == file@,
            Err(_) => file@.len() != KEY_LEN,
        },
{
    if file.len() != KEY_LEN {
        return Err(BadKeyFile);
    }
    let mut secret: [u8; 32] = [0; 32];
    let mut i: usize = 0;
    while i < KEY_LEN
        invariant
            i <= KEY_LEN,
            file@.len() == KEY_LEN,
            forall|j: int| 0 <= j < i ==> secret@[j] == file@[j],
        decreases KEY_LEN - i,
    {
        secret[i] = file[i];
        i = i + 1;
    }
    assert(secret@ =~= file@);
    Ok(secret)
}

/// The identity with a given secret key.
pub fn identity_of(secret: [u8; 32], is_new: bool) -> (r: Identity)
    ensures
        r.secret == secret,
        r.id@ == public_of(secret@),
        r.is_new == is_new,
{
    let public = derive_public(&secret);
    Identity { secret, id: EndpointId::from_key_bytes(public), is_new }
}

/// The identity in a key file, or a new one when there is no file yet. A file
/// that is there stands for the same identity every time.
pub fn load_or_create_key(file: Option<Vec<u8>>) -> (r: Result<Identity, BadKeyFile>)
    ensures
        match r {
            Ok(identity) => {
                &&& identity.id@ == public_of(identity.secret@)
                &&& identity.is_new == (file is None)
                &&& file is Some ==> file->Some_0@ == identity.secret@
            },
            Err(_) => file is Some && file->Some_0@.len() != KEY_LEN,
        },
        file is None ==> r is Ok,
        file is Some && file->Some_0@.len() == KEY_LEN ==> r is Ok,
{
    match file {
        Some(bytes) => match secret_in(&bytes) {
            Ok(secret) => Ok(identity_of(secret, false)),
            Err(e) => Err(e),
        },
        None => Ok(identity_of(generate_secret(), true)),
    }
}

// -------------------------------------------------------------------- paths

/// A path with one relative component more, both as bytes: a separator stands
/// between them unless the path is empty or ends in one.
pub open spec fn joined(base: Seq<u8>, part: Seq<u8>) -> Seq<u8> {
    if base.len() == 0 || base.last() == 0x2f {
        base + part
    } else {
        base.push(0x2f) + part
    }
}

/// `.local`
pub open spec fn local_part() -> Seq<u8> {
    seq![0x2eu8, 0x6c, 0x6f, 0x63, 0x61, 0x6c]
}

/// `state`
pub open spec fn state_part() -> Seq<u8> {
    seq![0x73u8, 0x74, 0x61, 0x74, 0x65]
}

/// `pai-sho`
pub open spec fn own_part() -> Seq<u8> {
    seq![0x70u8, 0x61, 0x69, 0x2d, 0x73, 0x68, 0x6f]
}

/// `key`
pub open spec fn key_part() -> Seq<u8> {
    seq![0x6bu8, 0x65, 0x79]
}

/// The default key location: `pai-sho/key` under the state directory, which is
/// the one the environment names, or that of the home directory, or the current
/// one.
pub open spec fn key_path_of(state: Option<Seq<u8>>, home: Option<Seq<u8>>) -> Seq<u8> {
    let base = match state {
        Some(s) => s,
        None => match home {
            Some(h) => joined(joined(h, local_part()), state_part()),
            None => seq![0x2eu8],
        },
    };
    joined(joined(base, own_part()), key_part())
}

/// The bytes of an optional path.
pub open spec fn opt_bytes(o: Option<Vec<u8>>) -> Option<Seq<u8>> {
    match o {
        Some(v) => Some(v@),
        None => None,
    }
}

/// Appends one relative component to a path.
fn push_part(path: &mut Vec<u8>, part: &[u8])
    ensures
        final(path)@ == joined(old(path)@, part@),
{
    let ghost base = path@;
    if path.len() > 0 && path[path.len() - 1] != 0x2f {
        path.push(0x2f);
    }
    let ghost head = path@;
    let mut i: usize = 0;
    while i < part.len()
        invariant
            i <= part@.len(),
            path@ == head + part@.take(i as int),
        decreases part@.len() - i,
    {
        path.push(part[i]);
        assert(path@ =~= head + part@.take(i + 1));
        i = i + 1;
    }
    assert(part@.take(part@.len() as int) =~= part@);
}

/// The default key location. `state` is the value of `XDG_STATE_HOME` and
/// `home` that of `HOME`, where they are set.
pub fn default_key_path(state: Option<Vec<u8>>, home: Option<Vec<u8>>) -> (r: Vec<u8>)
    ensures
        r@ == key_path_of(opt_bytes(state), opt_bytes(home)),
{
    let local: [u8; 6] = [0x2e, 0x6c, 0x6f, 0x63, 0x61, 0x6c];
    let state_dir: [u8; 5] = [0x73, 0x74, 0x61, 0x74, 0x65];
    let own: [u8; 7] = [0x70, 0x61, 0x69, 0x2d, 0x73, 0x68, 0x6f];
    let key: [u8; 3] = [0x6b, 0x65, 0x79];
    proof {
        assert(local@ =~= local_part());
        assert(state_dir@ =~= state_part());
        assert(own@ =~= own_part());
        assert(key@ =~= key_part());
    }
    let mut path = match state {
        Some(s) => s,
        None => match home {
            Some(h) => {
                let mut p = h;
                push_part(&mut p, local.as_slice());
                push_part(&mut p, state_dir.as_slice());
                p
            },
            None => {
                let mut p: Vec<u8> = Vec::new();
                p.push(0x2e);
                assert(p@ =~= seq![0x2eu8]);
                p
            },
        },
    };
    push_part(&mut path, own.as_slice());
    push_part(&mut path, key.as_slice());
    path
}

/// Where pins are kept: next to the key.
pub fn pins_path(key_path: &str) -> (s: String)
    ensures
        s@ == key_path@ + ".peers.json"@,
{
    let mut s = key_path.to_owned();
    s.append(".peers.json");
    s
}

/// Where surfaces are kept: next to the key.
pub fn surfaces_path(key_path: &str) -> (s: String)
    ensures
        s@ == key_path@ + ".surfaces.json"@,
{
    let mut s = key_path.to_owned();
    s.append(".surfaces.json");
    s
}

// ------------------------------------------------------------------ restart

/// What a part of startup comes to.
#[verifier::ext_equal]
pub struct StartView {
    pub peers: ManagerView,
    pub effects: Seq<EffectView>,
    /// What was passed over, and is reported
    pub failures: Seq<Seq<char>>,
}

/// Registering one more pin. A pin whose key cannot be read is passed over.
pub open spec fn load_one(s: StartView, pin: PinView) -> StartView {
    match key_of_text(pin.key) {
        Some(k) => StartView {
            peers: after_record(s.peers, k, pin.label, false, None, pin_admission(pin.by_code)),
            effects: s.effects + pinned_effects(s.peers, k),
            ..s
        },
        None => StartView { failures: s.failures.push(pin.key), ..s },
    }
}

/// Registering some pins, one after the other.
pub open spec fn load_all(m: ManagerView, pins: Seq<PinView>) -> StartView
    decreases pins.len(),
{
    if pins.len() == 0 {
        StartView { peers: m, effects: seq![], failures: seq![] }
    } else {
        load_one(load_all(m, pins.drop_last()), pins.last())
    }
}

/// What a daemon found in its files.
#[derive(Debug)]
pub struct Loaded {
    pub effects: Vec<Effect>,
    /// The keys of the pins that could not be read
    pub failures: Vec<String>,
    /// What becomes of each persisted surface
    pub surfaces: Vec<Restore>,
}

impl Daemon {
    /// Registers the pinned peers, in their order. The keys that could not be
    /// read are handed back.
    fn load_pins(&mut self, pins: Vec<Pin>) -> (r: (Vec<Effect>, Vec<String>))
        requires
            old(self).wf(),
        ensures
            final(self).wf(),
            final(self).peers.clock() == old(self).peers.clock(),
            final(self).key() == old(self).key(),
            ({
                let s = load_all(old(self).peers@, pin_views(pins@));
                &&& final(self).peers@ == s.peers
                &&& effect_views(r.0@) == s.effects
                &&& texts(r.1@) == s.failures
            }),
    {
        broadcast use group_effects;

        let ghost m = old(self).peers@;
        let ghost all = pin_views(pins@);
        let mut fx: Vec<Effect> = Vec::new();
        let mut failures: Vec<String> = Vec::new();
        assert(texts(failures@) =~= Seq::<Seq<char>>::empty());
        for pin in it: pins
            invariant
                it.seq() == pins@,
                all == pin_views(pins@),
                self.wf(),
                self.peers.clock() == old(self).peers.clock(),
                self.key() == old(self).key(),
                ({
                    let s = load_all(m, all.take(it.index()));
                    &&& self.peers@ == s.peers
                    &&& effect_views(fx@) == s.effects
                    &&& texts(failures@) == s.failures
                }),
        {
            let ghost n = it.index();
            let ghost before = texts(failures@);
            proof {
                assert(all.take(n + 1).drop_last() =~= all.take(n));
                assert(all.take(n + 1).last() == pin@);
            }
            match self.peers.restore_pin(pin.key.as_str(), pin.label, pin.by_code) {
                Ok(mut more) => {
                    let ghost was = effect_views(fx@);
                    let ghost spawned = effect_views(more@);
                    fx.append(&mut more);
                    assert(effect_views(fx@) == was + spawned);
                },
                Err(_) => {
                    failures.push(pin.key);
                    assert(texts(failures@) =~= before.push(pin.key@));
                },
            }
        }
        assert(all.take(pins@.len() as int) =~= all);
        (fx, failures)
    }

    /// Takes up where an earlier run left off: registers the pinned peers, then
    /// puts the persisted surfaces up again.
    pub fn load(&mut self, pins: Vec<Pin>, records: Vec<SurfaceRecord>) -> (r: Loaded)
        requires
            old(self).wf(),
        ensures
            final(self).wf(),
            final(self).peers.clock() == old(self).peers.clock(),
            final(self).key() == old(self).key(),
            ({
                let s = load_all(old(self).peers@, pin_views(pins@));
                &&& final(self).peers@ == after_restores(s.peers, record_views(records@))
                &&& effect_views(r.effects@) == s.effects
                &&& texts(r.failures@) == s.failures
                &&& restore_views(r.surfaces@) == restores_of(s.peers, record_views(records@))
            }),
    {
        let (effects, failures) = self.load_pins(pins);
        let surfaces = self.peers.restore_surfaces(records);
        Loaded { effects, failures, surfaces }
    }
}

/// Whether one of the pins is of `key`.
pub open spec fn is_pinned(pins: Seq<PinView>, key: Seq<u8>) -> bool {
    exists|i: int| 0 <= i < pins.len() && key_of_text((#[trigger] pins[i]).key) == Some(key)
}

/// A pinned peer is remembered across restarts, and nobody else: after the pins
/// were registered a key is known if it was known before or is pinned. A peer
/// that is known by its pin is not dialed and has been granted nothing.
pub proof fn law_pinned_peer_is_remembered(m: ManagerView, pins: Seq<PinView>, key: Seq<u8>)
    ensures
        ({
            let r = load_all(m, pins).peers;
            &&& r.peers.contains_key(key) <==> m.peers.contains_key(key) || is_pinned(pins, key)
            &&& m.peers.contains_key(key) ==> r.peers[key] == m.peers[key]
            &&& !m.peers.contains_key(key) && is_pinned(pins, key) ==> !r.peers[key].dial && r.peers[key].token is None
            &&& r.session.grants == m.session.grants
            &&& r.session.codes == m.session.codes
        }),
    decreases pins.len(),
{
    if pins.len() > 0 {
        let init = pins.drop_last();
        let n = init.len() as int;
        law_pinned_peer_is_remembered(m, init, key);
        if is_pinned(init, key) {
            let i = choose|i: int| 0 <= i < init.len() && key_of_text((#[trigger] init[i]).key) == Some(key);
            assert(key_of_text(pins[i].key) == Some(key));
        }
        if is_pinned(pins, key) {
            let i = choose|i: int| 0 <= i < pins.len() && key_of_text((#[trigger] pins[i]).key) == Some(key);
            if i < n {
                assert(init[i] == pins[i]);
            }
        }
        assert(pins[n] == pins.last());
    }
}

/// Whether an earlier one of the pins is of `key`.
pub open spec fn pinned_before(pins: Seq<PinView>, i: int, key: Seq<u8>) -> bool {
    exists|j: int| 0 <= j < i && key_of_text((#[trigger] pins[j]).key) == Some(key)
}

/// Every pin is loaded, however many there are: its peer is known under the name
/// of the pin, and as the pin says it was admitted; a connection loop starts for
/// it, and it is not dialed. A pin whose key cannot be read is reported, and so
/// is nothing else.
pub proof fn law_every_pin_is_loaded(m: ManagerView, pins: Seq<PinView>, i: int)
    requires
        consistent(m),
        0 <= i < pins.len(),
    ensures
        ({
            let s = load_all(m, pins);
            match key_of_text(pins[i].key) {
                None => s.failures.contains(pins[i].key),
                Some(key) => {
                    &&& s.peers.peers.contains_key(key) && s.peers.session.peers.contains_key(key)
                    &&& !m.peers.contains_key(key) && !pinned_before(pins, i, key) ==> {
                        &&& s.peers.peers[key].label == pins[i].label
                        &&& !s.peers.peers[key].dial && s.peers.peers[key].conn is None
                        &&& s.peers.session.peers[key].label == pins[i].label
                        &&& s.peers.session.peers[key].admission == if pins[i].by_code {
                            Admission::Code
                        } else {
                            Admission::Key
                        }
                        &&& s.effects.contains(EffectView::Spawn { peer: key })
                    }
                },
            }
        }),
        forall|j: int|
            0 <= j < load_all(m, pins).failures.len() ==> exists|n: int|
                0 <= n < pins.len() && (#[trigger] pins[n]).key == #[trigger] load_all(m, pins).failures[j] && key_of_text(
                    pins[n].key,
                ) is None,
    decreases pins.len(),
{
    let init = pins.drop_last();
    let last = pins.last();
    let before = load_all(m, init);
    let s = load_all(m, pins);
    lemma_load_is_consistent(m, init);
    lemma_load_is_consistent(m, pins);
    lemma_failures(m, pins);
    assert(pins[pins.len() - 1] == last);
    if i < init.len() {
        assert(init[i] == pins[i]);
        law_every_pin_is_loaded(m, init, i);
        match key_of_text(pins[i].key) {
            None => {
                let j = choose|j: int| 0 <= j < before.failures.len() && before.failures[j] == pins[i].key;
                assert(s.failures[j] == pins[i].key);
            },
            Some(key) => {
                if !m.peers.contains_key(key) && !pinned_before(pins, i, key) {
                    assert(!pinned_before(init, i, key)) by {
                        if pinned_before(init, i, key) {
                            let j = choose|j: int| 0 <= j < i && key_of_text((#[trigger] init[j]).key) == Some(key);
                            assert(pins[j] == init[j]);
                        }
                    }
                    let j = choose|j: int| 0 <= j < before.effects.len() && before.effects[j] == (EffectView::Spawn { peer: key });
                    assert(s.effects[j] == (EffectView::Spawn { peer: key }));
                }
                assert(s.peers.peers.dom().contains(key));
            },
        }
    } else {
        match key_of_text(last.key) {
            None => {
                assert(s.failures[s.failures.len() - 1] == last.key);
            },
            Some(key) => {
                law_pinned_peer_is_remembered(m, init, key);
                assert(s.peers.peers.dom().contains(key));
                if !m.peers.contains_key(key) && !pinned_before(pins, i, key) {
                    assert(!is_pinned(init, key)) by {
                        if is_pinned(init, key) {
                            let j = choose|j: int| 0 <= j < init.len() && key_of_text((#[trigger] init[j]).key) == Some(key);
                            assert(pins[j] == init[j]);
                        }
                    }
                    assert(!before.peers.session.peers.dom().contains(key));
                    assert(s.effects[s.effects.len() - 1] == (EffectView::Spawn { peer: key }));
                }
            },
        }
    }
}

/// What is reported are pins that cannot be read.
proof fn lemma_failures(m: ManagerView, pins: Seq<PinView>)
    ensures
        forall|j: int|
            0 <= j < load_all(m, pins).failures.len() ==> exists|n: int|
                0 <= n < pins.len() && (#[trigger] pins[n]).key == #[trigger] load_all(m, pins).failures[j] && key_of_text(
                    pins[n].key,
                ) is None,
    decreases pins.len(),
{
    if pins.len() > 0 {
        let init = pins.drop_last();
        let (a, b) = (load_all(m, init).failures, load_all(m, pins).failures);
        lemma_failures(m, init);
        assert forall|j: int| 0 <= j < b.len() implies exists|n: int|
            0 <= n < pins.len() && (#[trigger] pins[n]).key == #[trigger] b[j] && key_of_text(pins[n].key) is None by {
            if j < a.len() {
                assert(b[j] == a[j]);
                let n = choose|n: int| 0 <= n < init.len() && (#[trigger] init[n]).key == a[j] && key_of_text(init[n].key) is None;
                assert(pins[n] == init[n]);
            } else {
                assert(pins[pins.len() - 1] == pins.last());
            }
        }
    }
}

/// The pins that are left when a key is dropped do not read as that key.
proof fn lemma_dropped(pins: Seq<PinView>, text: Seq<char>, key: Seq<u8>)
    requires
        key_of_text(text) == Some(key),
    ensures
        !is_pinned(pins.filter(pin_of_other(text)), key),
{
    broadcast use vstd::seq_lib::group_filter_ensures;

    let left = pins.filter(pin_of_other(text));
    assert forall|i: int| 0 <= i < left.len() implies key_of_text((#[trigger] left[i]).key) != Some(key) by {
        assert(pin_of_other(text)(left[i]));
    }
}

/// A peer whose pin was written is admitted without a claim when it dials in
/// after a restart. It is known under the name and by the route of the pin.
pub proof fn law_enrolled_peer_survives_a_restart(
    m: ManagerView,
    pins: Seq<PinView>,
    pin: PinView,
    key: Seq<u8>,
    conn: u64,
)
    requires
        consistent(m),
        key_of_text(pin.key) == Some(key),
    ensures
        ({
            let r = load_all(m, pins.filter(pin_of_other(pin.key)).push(pin)).peers;
            &&& r.peers.contains_key(key)
            &&& inbound_actions(r.session, conn, key) == seq![
                ActionView::Admit { conn, peer: key, replacing: true },
                announcement(r.session, key),
            ]
            &&& !m.peers.contains_key(key) ==> r.peers[key].label == pin.label && r.session.peers[key].admission == pin_admission(
                pin.by_code,
            )
        }),
{
    let others = pins.filter(pin_of_other(pin.key));
    let written = others.push(pin);
    assert(key_of_text(written[written.len() - 1].key) == Some(key));
    law_pinned_peer_is_remembered(m, written, key);
    lemma_load_is_consistent(m, written);
    lemma_dropped(pins, pin.key, key);
    law_pinned_peer_is_remembered(m, others, key);
    lemma_load_is_consistent(m, others);
    assert(written.drop_last() =~= others);
    let before = load_all(m, others).peers;
    if !m.peers.contains_key(key) {
        assert(!before.session.peers.dom().contains(key));
    }
}

/// How a peer got in survives a restart: a peer that presented a code is listed
/// so afterwards, and so is one whose key was vouched for. (A peer that we dial
/// is not kept by a pin.) The key has to read back from its text, as every key
/// does.
pub proof fn law_admission_survives_a_restart(
    m: ManagerView,
    key: Seq<u8>,
    label: Option<Seq<char>>,
    pins: Seq<PinView>,
    restarted: ManagerView,
)
    requires
        consistent(restarted),
        m.session.peers.contains_key(key),
        !(m.session.peers[key].admission is Added),
        !restarted.peers.contains_key(key),
        key_of_text(hex(key)) == Some(key),
    ensures
        ({
            let pin = PinView { key: hex(key), label, by_code: known_by_code(m, key) };
            let r = load_all(restarted, pins.filter(pin_of_other(pin.key)).push(pin)).peers;
            r.session.peers[key].admission == m.session.peers[key].admission
        }),
{
    let pin = PinView { key: hex(key), label, by_code: known_by_code(m, key) };
    law_enrolled_peer_survives_a_restart(restarted, pins, pin, key, 0);
}

/// A peer that was forgotten stays forgotten: what is left on disk, whatever it
/// was, does not bring it back. The key has to read back from its text, as
/// every key does.
pub proof fn law_forgotten_peer_stays_forgotten(
    m: ManagerView,
    key: Seq<u8>,
    reason: Seq<char>,
    pins: Seq<PinView>,
    records: Seq<RecordView>,
    restarted: ManagerView,
    conn: u64,
)
    requires
        m.peers.contains_key(key),
        consistent(restarted),
        !restarted.peers.contains_key(key),
        key_of_text(hex(key)) == Some(key),
    ensures
        evict_effects(m, key, reason).contains(EffectView::DropPin { key: hex(key) }),
        ({
            let r = after_restores(load_all(restarted, pins.filter(pin_of_other(hex(key)))).peers, records);
            &&& !r.peers.contains_key(key)
            &&& inbound_actions(r.session, conn, key) == Seq::<ActionView>::empty()
        }),
{
    let fx = evict_effects(m, key, reason);
    assert(fx[fx.len() - 2] == (EffectView::DropPin { key: hex(key) }));
    let left = pins.filter(pin_of_other(hex(key)));
    lemma_dropped(pins, hex(key), key);
    law_pinned_peer_is_remembered(restarted, left, key);
    lemma_load_is_consistent(restarted, left);
    let loaded = load_all(restarted, left).peers;
    lemma_restores(loaded, records);
    assert(!loaded.session.peers.dom().contains(key));
}

/// Registering pins keeps the table and the session in step.
proof fn lemma_load_is_consistent(m: ManagerView, pins: Seq<PinView>)
    requires
        consistent(m),
    ensures
        consistent(load_all(m, pins).peers),
    decreases pins.len(),
{
    if pins.len() > 0 {
        lemma_load_is_consistent(m, pins.drop_last());
        let s = load_all(m, pins.drop_last());
        let t = load_all(m, pins).peers;
        if key_of_text(pins.last().key) is Some {
            let k = key_of_text(pins.last().key)->Some_0;
            if !s.peers.peers.contains_key(k) {
                assert(t.peers.dom() =~= t.session.peers.dom());
            }
        }
    }
}

// -------------------------------------------------------------- invitations

/// Taking up one more. The ports are granted to the peer, and to no one else.
pub open spec fn start_one(s: StartView, text: Seq<char>, ports: Seq<u16>) -> StartView {
    match handle_of(text) {
        Ok(h) => {
            let key = handle_key(h);
            let (after, step) = accept_outcome(after_grants(s.peers, ports, key), h, None);
            StartView {
                peers: after,
                effects: if s.peers.peers.contains_key(key) {
                    s.effects
                } else {
                    s.effects.push(EffectView::Spawn { peer: key })
                },
                failures: if s.peers.peers.contains_key(key) {
                    s.failures.push(peer_error_text(PeerErrorView::AlreadyExists))
                } else {
                    s.failures
                },
            }
        },
        Err(e) => StartView { failures: s.failures.push(e.text()), ..s },
    }
}

/// Taking up some, one after the other.
pub open spec fn start_all(m: ManagerView, accept: Seq<Seq<char>>, ports: Seq<u16>) -> StartView
    decreases accept.len(),
{
    if accept.len() == 0 {
        StartView { peers: m, effects: seq![], failures: seq![] }
    } else {
        start_one(start_all(m, accept.drop_last(), ports), accept.last(), ports)
    }
}

impl Daemon {
    /// Takes up the invitations and keys given on startup, and grants `ports`
    /// to those peers and no one else. What could not be taken up is reported
    /// and passed over. The peers are told at the end.
    pub fn start(&mut self, accept: &Vec<String>, ports: &Vec<u16>) -> (r: (Vec<Effect>, Vec<String>))
        requires
            old(self).wf(),
        ensures
            final(self).wf(),
            final(self).peers.clock() == old(self).peers.clock(),
            final(self).key() == old(self).key(),
            ({
                let s = start_all(old(self).peers@, texts(accept@), ports@);
                &&& final(self).peers@ == s.peers
                &&& effect_views(r.0@) == s.effects + (if accept@.len() > 0 {
                    broadcast_effects(s.peers)
                } else {
                    seq![]
                })
                &&& texts(r.1@) == s.failures
            }),
    {
        broadcast use group_effects;

        let ghost m = old(self).peers@;
        let ghost all = texts(accept@);
        let mut fx: Vec<Effect> = Vec::new();
        let mut failures: Vec<String> = Vec::new();
        let mut i: usize = 0;
        assert(texts(failures@) =~= Seq::<Seq<char>>::empty());
        while i < accept.len()
            invariant
                i <= accept@.len(),
                all == texts(accept@),
                self.wf(),
                self.peers.clock() == old(self).peers.clock(),
                self.key() == old(self).key(),
                ({
                    let s = start_all(m, all.take(i as int), ports@);
                    &&& self.peers@ == s.peers
                    &&& effect_views(fx@) == s.effects
                    &&& texts(failures@) == s.failures
                }),
            decreases accept@.len() - i,
        {
            let ghost before = texts(failures@);
            proof {
                assert(all.take(i + 1).drop_last() =~= all.take(i as int));
                assert(all.take(i + 1).last() == accept@[i as int]@);
            }
            match Handle::parse(accept[i].as_str()) {
                Ok(handle) => {
                    self.peers.grant(ports, handle.key());
                    match self.peers.add_peer(handle.key(), None, handle.code()) {
                        Ok(mut more) => {
                            let ghost was = effect_views(fx@);
                            let ghost spawned = effect_views(more@);
                            fx.append(&mut more);
                            assert(effect_views(fx@) == was + spawned);
                            assert(was + spawned =~= start_all(m, all.take(i + 1), ports@).effects);
                        },
                        Err(e) => {
                            failures.push(e.to_string());
                            assert(texts(failures@) =~= before.push(failures@.last()@));
                        },
                    }
                },
                Err(e) => {
                    failures.push(e.as_str().to_owned());
                    assert(texts(failures@) =~= before.push(e.text()));
                },
            }
            i = i + 1;
        }
        assert(all.take(accept@.len() as int) =~= all);
        if accept.len() > 0 {
            let mut more = self.peers.broadcast_grants();
            fx.append(&mut more);
        } else {
            assert(effect_views(fx@) + Seq::<EffectView>::empty() =~= effect_views(fx@));
        }
        (fx, failures)
    }
}

/// The ports of `-e` are granted at startup to the peers that were taken up and
/// to no one else.
pub proof fn law_startup_grants_are_directed(m: ManagerView, accept: Seq<Seq<char>>, ports: Seq<u16>, port: u16, key: Seq<u8>)
    ensures
        start_all(m, accept, ports).peers.session.grants.contains((port, key)) <==> m.session.grants.contains((port, key)) || (
        ports.contains(port) && exists|i: int|
            0 <= i < accept.len() && handle_of(#[trigger] accept[i]) is Ok && handle_key(handle_of(accept[i])->Ok_0) == key),
    decreases accept.len(),
{
    if accept.len() > 0 {
        let init = accept.drop_last();
        law_startup_grants_are_directed(m, init, ports, port, key);
        let n = init.len() as int;
        assert(accept[n] == accept.last());
        if exists|i: int|
            0 <= i < init.len() && handle_of(#[trigger] init[i]) is Ok && handle_key(handle_of(init[i])->Ok_0) == key {
            let i = choose|i: int|
                0 <= i < init.len() && handle_of(#[trigger] init[i]) is Ok && handle_key(handle_of(init[i])->Ok_0) == key;
            assert(accept[i] == init[i]);
        }
        if exists|i: int|
            0 <= i < accept.len() && handle_of(#[trigger] accept[i]) is Ok && handle_key(handle_of(accept[i])->Ok_0) == key {
            let i = choose|i: int|
                0 <= i < accept.len() && handle_of(#[trigger] accept[i]) is Ok && handle_key(handle_of(accept[i])->Ok_0) == key;
            if i < n {
                assert(init[i] == accept[i]);
            }
        }
    }
}

/// Whether an earlier one names `key`.
pub open spec fn named_before(accept: Seq<Seq<char>>, i: int, key: Seq<u8>) -> bool {
    exists|j: int| 0 <= j < i && handle_of(#[trigger] accept[j]) is Ok && handle_key(handle_of(accept[j])->Ok_0) == key
}

/// Everything given on startup is taken up, however much there is: the peer it
/// names is known, as one that we added, and dialed, with the code of its
/// invitation to present, and a connection loop starts for it. What names a peer
/// that is known already, or can not be read, is reported. Each comes to one or
/// the other.
pub proof fn law_everything_given_is_taken_up(m: ManagerView, accept: Seq<Seq<char>>, ports: Seq<u16>, i: int)
    requires
        consistent(m),
        0 <= i < accept.len(),
    ensures
        ({
            let s = start_all(m, accept, ports);
            &&& match handle_of(accept[i]) {
                Err(e) => s.failures.contains(e.text()),
                Ok(h) => {
                    let key = match h {
                        HandleView::Invite { key, .. } => key,
                        HandleView::Key(key) => key,
                    };
                    let known = m.peers.contains_key(key) || named_before(accept, i, key);
                    &&& s.peers.peers.contains_key(key)
                    &&& known ==> s.failures.contains("peer already exists"@)
                    &&& !known ==> {
                        &&& s.peers.peers[key].dial && s.peers.peers[key].label is None
                        &&& h matches HandleView::Invite { code, .. } ==> s.peers.peers[key].token == Some(code)
                        &&& h is Key ==> s.peers.peers[key].token is None
                        &&& s.peers.session.peers[key].admission is Added
                        &&& s.effects.contains(EffectView::Spawn { peer: key })
                    }
                },
            }
            &&& s.effects.len() + s.failures.len() == accept.len()
        }),
    decreases accept.len(),
{
    let init = accept.drop_last();
    let last = accept.last();
    let before = start_all(m, init, ports);
    let s = start_all(m, accept, ports);
    lemma_started(m, init, ports);
    lemma_started(m, accept, ports);
    assert(accept[accept.len() - 1] == last);
    if i < init.len() {
        assert(init[i] == accept[i]);
        law_everything_given_is_taken_up(m, init, ports, i);
        assert forall|x: Seq<char>| before.failures.contains(x) implies #[trigger] s.failures.contains(x) by {
            let j = choose|j: int| 0 <= j < before.failures.len() && before.failures[j] == x;
            assert(s.failures[j] == x);
        }
        if handle_of(accept[i]) is Ok {
            let key = handle_key(handle_of(accept[i])->Ok_0);
            assert(named_before(init, i, key) == named_before(accept, i, key)) by {
                if named_before(init, i, key) {
                    let j = choose|j: int|
                        0 <= j < i && handle_of(#[trigger] init[j]) is Ok && handle_key(handle_of(init[j])->Ok_0) == key;
                    assert(accept[j] == init[j]);
                }
                if named_before(accept, i, key) {
                    let j = choose|j: int|
                        0 <= j < i && handle_of(#[trigger] accept[j]) is Ok && handle_key(handle_of(accept[j])->Ok_0) == key;
                    assert(accept[j] == init[j]);
                }
            }
            if before.effects.contains(EffectView::Spawn { peer: key }) {
                let j = choose|j: int| 0 <= j < before.effects.len() && before.effects[j] == (EffectView::Spawn { peer: key });
                assert(s.effects[j] == (EffectView::Spawn { peer: key }));
            }
            assert(before.peers.session.peers.dom().contains(key));
        }
    } else {
        match handle_of(last) {
            Err(e) => {
                assert(s.failures[s.failures.len() - 1] == e.text());
            },
            Ok(h) => {
                let key = handle_key(h);
                assert(before.peers.peers.contains_key(key) == (m.peers.contains_key(key) || named_before(accept, i, key))) by {
                    lemma_known_after(m, init, ports, key);
                    if named_before(init, init.len() as int, key) {
                        let j = choose|j: int|
                            0 <= j < init.len() && handle_of(#[trigger] init[j]) is Ok && handle_key(handle_of(init[j])->Ok_0) == key;
                        assert(accept[j] == init[j]);
                    }
                    if named_before(accept, i, key) {
                        let j = choose|j: int|
                            0 <= j < i && handle_of(#[trigger] accept[j]) is Ok && handle_key(handle_of(accept[j])->Ok_0) == key;
                        assert(accept[j] == init[j]);
                    }
                }
                assert(before.peers.session.peers.dom().contains(key) == before.peers.peers.dom().contains(key));
                if before.peers.peers.contains_key(key) {
                    assert(s.failures[s.failures.len() - 1] == "peer already exists"@);
                } else {
                    assert(s.effects[s.effects.len() - 1] == (EffectView::Spawn { peer: key }));
                }
            },
        }
    }
}

/// Who is known afterwards: who was, and who was named.
proof fn lemma_known_after(m: ManagerView, accept: Seq<Seq<char>>, ports: Seq<u16>, key: Seq<u8>)
    ensures
        start_all(m, accept, ports).peers.peers.contains_key(key) <==> m.peers.contains_key(key) || named_before(
            accept,
            accept.len() as int,
            key,
        ),
    decreases accept.len(),
{
    if accept.len() > 0 {
        let init = accept.drop_last();
        let n = init.len() as int;
        lemma_known_after(m, init, ports, key);
        assert(accept[n] == accept.last());
        if named_before(init, n, key) {
            let j = choose|j: int|
                0 <= j < n && handle_of(#[trigger] init[j]) is Ok && handle_key(handle_of(init[j])->Ok_0) == key;
            assert(accept[j] == init[j]);
        }
        if named_before(accept, n + 1, key) {
            let j = choose|j: int|
                0 <= j < n + 1 && handle_of(#[trigger] accept[j]) is Ok && handle_key(handle_of(accept[j])->Ok_0) == key;
            if j < n {
                assert(init[j] == accept[j]);
            }
        }
    }
}

/// Taking things up keeps the table and the session in step, and each comes to
/// an effect or a report.
proof fn lemma_started(m: ManagerView, accept: Seq<Seq<char>>, ports: Seq<u16>)
    requires
        consistent(m),
    ensures
        consistent(start_all(m, accept, ports).peers),
        start_all(m, accept, ports).effects.len() + start_all(m, accept, ports).failures.len() == accept.len(),
    decreases accept.len(),
{
    if accept.len() > 0 {
        let init = accept.drop_last();
        lemma_started(m, init, ports);
        let (s, t) = (start_all(m, init, ports), start_all(m, accept, ports));
        if handle_of(accept.last()) is Ok {
            let key = handle_key(handle_of(accept.last())->Ok_0);
            if !s.peers.peers.contains_key(key) {
                assert(!s.peers.session.peers.dom().contains(key));
                assert(t.peers.peers.dom() =~= t.peers.session.peers.dom());
            } else {
                assert(t.peers.peers == s.peers.peers && t.peers.session.peers == s.peers.session.peers);
            }
        }
    }
}

/// The key that a handle names.
pub open spec fn handle_key(h: HandleView) -> Seq<u8> {
    match h {
        HandleView::Invite { key, .. } => key,
        HandleView::Key(key) => key,
    }
}

/// The key stands in `pai-sho/key` under the state directory that the
/// environment names, whatever the home directory is; else under `.local/state`
/// of the home directory; else in the current one.
pub proof fn law_key_stands_under_the_state_directory(dir: Seq<u8>, home: Option<Seq<u8>>)
    requires
        dir.len() > 0,
        dir.last() != 0x2f,
    ensures
        ({
            // "/pai-sho/key" and "/.local/state"
            let own = seq![0x2fu8, 0x70, 0x61, 0x69, 0x2d, 0x73, 0x68, 0x6f, 0x2f, 0x6b, 0x65, 0x79];
            let under = seq![0x2fu8, 0x2e, 0x6c, 0x6f, 0x63, 0x61, 0x6c, 0x2f, 0x73, 0x74, 0x61, 0x74, 0x65];
            &&& key_path_of(Some(dir), home) == dir + own
            &&& key_path_of(None, Some(dir)) == dir + under + own
            &&& key_path_of(None, None) == seq![0x2eu8] + own
            &&& key_path_of(Some(dir.push(0x2f)), home) == dir + own
        }),
{
    let own = seq![0x2fu8, 0x70, 0x61, 0x69, 0x2d, 0x73, 0x68, 0x6f, 0x2f, 0x6b, 0x65, 0x79];
    let under = seq![0x2fu8, 0x2e, 0x6c, 0x6f, 0x63, 0x61, 0x6c, 0x2f, 0x73, 0x74, 0x61, 0x74, 0x65];
    assert(key_path_of(Some(dir), home) =~= dir + own);
    assert(key_path_of(None, Some(dir)) =~= dir + under + own);
    assert(key_path_of(None, None) =~= seq![0x2eu8] + own);
    assert(key_path_of(Some(dir.push(0x2f)), home) =~= dir + own);
}

}
