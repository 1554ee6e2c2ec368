//! What a command of the client does to the daemon: what holds of the request
//! made of it and of the answer, taken together.

use crate::addr::{ip_text, IpView};
use crate::client::{asks, shown, Command, OutputView};
use crate::daemon::{is_answer, list_of, StepView};
use crate::effect::EffectView;
use crate::enroll::CODE_TTL_MS;
use crate::invite::{handle_of, HandleView};
use crate::key::key_of_text;
use crate::peer::projection::{after_evicted, after_project, after_teardown, evict_effects, project_effects, project_next, unproject_effects, ProjectNextView};
use crate::peer::queries::{infos_of, known_keys, opt_ip, resolved};
use crate::peer::recorded::only_peer_changed;
use crate::peer::told::{is_told, law_every_connected_peer_is_told, lemma_concat_contains, tells_a_peer};
use crate::peer::{broadcast_effects, ManagerView, PeerManager};
use crate::protocol::{ListView, Request, ResponseView, VERSION};
use crate::roster::{Admission, AdmittedView};
use crate::session::ConnId;
use crate::text::{hex, opt_text, texts};
use vstd::prelude::*;

verus! {

/// Whether a step is an answer that the request was carried out.
pub open spec fn is_done(step: StepView) -> bool {
    step is Reply && step->Reply_response is Done
}

/// Whether a request was turned down, with this text: nothing changed, and
/// nothing is to be done.
pub open spec fn is_refused(before: ManagerView, after: ManagerView, step: StepView, text: Seq<char>) -> bool {
    after == before && step is Reply && step->Reply_effects.len() == 0 && step->Reply_response == ResponseView::Error(text)
}

/// Whether every known peer that has a connection is told there what is granted
/// to it.
pub open spec fn all_are_told(m: ManagerView, fx: Seq<EffectView>) -> bool {
    forall|k: Seq<u8>| #[trigger]
        m.peers.contains_key(k) && m.peers[k].conn is Some ==> is_told(fx, m.peers[k].conn->Some_0, m.session.grants, k)
}

/// Effects that hold what tells everyone tell everyone.
proof fn lemma_all_are_told(manager: PeerManager, head: Seq<EffectView>)
    requires
        manager.wf(),
    ensures
        all_are_told(manager@, head + broadcast_effects(manager@)),
        forall|i: int| 0 <= i < broadcast_effects(manager@).len() ==> tells_a_peer(
            manager@,
            #[trigger] broadcast_effects(manager@)[i],
        ),
{
    let m = manager@;
    let tail = broadcast_effects(m);
    law_every_connected_peer_is_told(manager, seq![]);
    assert forall|k: Seq<u8>| #[trigger] m.peers.contains_key(k) && m.peers[k].conn is Some implies is_told(
        head + tail,
        m.peers[k].conn->Some_0,
        m.session.grants,
        k,
    ) by {
        law_every_connected_peer_is_told(manager, k);
        let conn = m.peers[k].conn->Some_0;
        let ports = choose|ports: Seq<u16>|
            crate::peer::told::are_granted(ports, m.session.grants, k) && #[trigger] tail.contains(
                EffectView::Send { conn, msg: crate::protocol::MessageView::ExposedPorts(ports) },
            );
        let sent = EffectView::Send { conn, msg: crate::protocol::MessageView::ExposedPorts(ports) };
        lemma_concat_contains(head, tail, sent);
        assert((head + tail).contains(sent));
    }
}

// -------------------------------------------------------------------- grants

/// `unexpose` revokes what it names: the port's grant to one key where a key is
/// given, every grant of the port where none is, and no other grant. Every
/// connected peer is told what it may reach by now. A text that is not a key is
/// turned down.
pub proof fn law_unexpose_revokes_what_it_names(
    me: Seq<u8>,
    before: PeerManager,
    after: PeerManager,
    port: u16,
    to: Option<String>,
    request: Request,
    ip: Option<IpView>,
    live: Seq<ConnId>,
    step: StepView,
    g: (u16, Seq<u8>),
)
    requires
        before.wf(),
        after.wf(),
        asks(Command::Unexpose { port, to }, request),
        is_answer(me, before@, request, ip, live, after@, step),
    ensures
        ({
            let named = to is Some && key_of_text(to->Some_0@) is Some;
            &&& to is Some && !named ==> is_refused(before@, after@, step, "invalid peer key"@)
            &&& named ==> (after@.session.grants.contains(g) <==> before@.session.grants.contains(g) && g != (
                port,
                key_of_text(to->Some_0@)->Some_0,
            ))
            &&& to is None ==> (after@.session.grants.contains(g) <==> before@.session.grants.contains(g) && g.0 != port)
            &&& named || to is None ==> {
                &&& is_done(step)
                &&& all_are_told(after@, step->Reply_effects)
                &&& forall|i: int| 0 <= i < step->Reply_effects.len() ==> tells_a_peer(after@, #[trigger] step->Reply_effects[i])
                &&& after@.peers == before@.peers
                &&& after@.session.peers == before@.session.peers
            }
        }),
{
    let none = Seq::<EffectView>::empty();
    lemma_all_are_told(after, none);
    assert(none + broadcast_effects(after@) =~= broadcast_effects(after@));
}

/// `expose` grants the port to the keys it names, or with `--all` to every peer
/// known at that moment, and to nobody else; no other grant changes, and every
/// connected peer is told what it may reach by now. It is turned down where a
/// text is not a key, or there is nobody to grant to.
pub proof fn law_expose_grants_what_it_names(
    me: Seq<u8>,
    before: PeerManager,
    after: PeerManager,
    port: u16,
    to: Vec<String>,
    all: bool,
    request: Request,
    ip: Option<IpView>,
    live: Seq<ConnId>,
    step: StepView,
    g: (u16, Seq<u8>),
)
    requires
        before.wf(),
        after.wf(),
        asks(Command::Expose { port, to, all }, request),
        is_answer(me, before@, request, ip, live, after@, step),
    ensures
        ({
            let readable = forall|i: int| 0 <= i < to@.len() ==> key_of_text((#[trigger] to@[i])@) is Some;
            let named = exists|i: int| 0 <= i < to@.len() && key_of_text((#[trigger] to@[i])@) == Some(g.1);
            let nobody = if all {
                forall|k: Seq<u8>| !#[trigger] before@.peers.contains_key(k)
            } else {
                to@.len() == 0
            };
            &&& !all && !readable ==> is_refused(before@, after@, step, "invalid peer key"@)
            &&& (all || readable) && nobody ==> is_refused(before@, after@, step, "no peers to grant to; use --to <key>"@)
            &&& all && !nobody ==> (after@.session.grants.contains(g) <==> before@.session.grants.contains(g) || (g.0 == port
                && before@.peers.contains_key(g.1)))
            &&& !all && readable && !nobody ==> (after@.session.grants.contains(g) <==> before@.session.grants.contains(g) || (g.0
                == port && named))
            &&& (all || readable) && !nobody ==> {
                &&& is_done(step)
                &&& all_are_told(after@, step->Reply_effects)
                &&& forall|i: int| 0 <= i < step->Reply_effects.len() ==> tells_a_peer(after@, #[trigger] step->Reply_effects[i])
                &&& after@.peers == before@.peers
                &&& after@.session.peers == before@.session.peers
            }
        }),
{
    let none = Seq::<EffectView>::empty();
    lemma_all_are_told(after, none);
    assert(none + broadcast_effects(after@) =~= broadcast_effects(after@));
    before.lemma_consistent();
    let keys = known_keys(before@);
    assert forall|k: Seq<u8>| #[trigger] keys.contains(k) <==> before@.peers.contains_key(k) by {
        assert(before@.peers.dom().contains(k) <==> before@.peers.contains_key(k));
    }
    assert forall|k: Seq<u8>| #[trigger] before@.peers.contains_key(k) implies keys.contains(k) by {
        assert(before@.peers.dom().contains(k));
    }
    if keys.len() > 0 {
        assert(keys.contains(keys[0]));
        assert(before@.peers.contains_key(keys[0]));
    }
    let given = texts(to@);
    assert forall|i: int| 0 <= i < to@.len() implies #[trigger] given[i] == to@[i]@ by {}
    let readable = forall|i: int| 0 <= i < to@.len() ==> key_of_text((#[trigger] to@[i])@) is Some;
    if readable {
        assert forall|i: int| 0 <= i < given.len() implies key_of_text(#[trigger] given[i]) is Some by {
            assert(key_of_text(to@[i]@) is Some);
        }
        let read = crate::daemon::keys_read(given)->Some_0;
        assert(read.len() == to@.len());
        if read.contains(g.1) {
            let i = choose|i: int| 0 <= i < read.len() && read[i] == g.1;
            assert(key_of_text(to@[i]@) == Some(g.1));
        }
        if exists|i: int| 0 <= i < to@.len() && key_of_text((#[trigger] to@[i])@) == Some(g.1) {
            let i = choose|i: int| 0 <= i < to@.len() && key_of_text((#[trigger] to@[i])@) == Some(g.1);
            assert(given[i] == to@[i]@);
            assert(read[i] == g.1);
        }
    } else {
        let i = choose|i: int| 0 <= i < to@.len() && !(key_of_text((#[trigger] to@[i])@) is Some);
        assert(given[i] == to@[i]@);
        assert(!(key_of_text(given[i]) is Some));
    }
}

// --------------------------------------------------------------- invitations

/// `invite <key>` makes that very key known, as vouched for, under the name that
/// was given, unless it is known; grants it the ports that were given, and nobody
/// else anything; and writes its pin. Where ports were given, every connected
/// peer is told. A text that is not a key is turned down.
pub proof fn law_invite_key_admits_that_key(
    me: Seq<u8>,
    before: PeerManager,
    after: PeerManager,
    key: String,
    name: Option<String>,
    expose: Vec<u16>,
    request: Request,
    ip: Option<IpView>,
    live: Seq<ConnId>,
    step: StepView,
    g: (u16, Seq<u8>),
)
    requires
        before.wf(),
        after.wf(),
        asks(Command::Invite { key: Some(key), name, expose }, request),
        is_answer(me, before@, request, ip, live, after@, step),
    ensures
        key_of_text(key@) is None ==> is_refused(before@, after@, step, "invalid key"@),
        key_of_text(key@) is Some ==> {
            let k = key_of_text(key@)->Some_0;
            let (m, r) = (before@, after@);
            let fx = step->Reply_effects;
            &&& is_done(step)
            &&& r.peers.contains_key(k) && r.session.peers.contains_key(k)
            &&& m.peers.contains_key(k) ==> r.peers[k] == m.peers[k] && r.session.peers[k] == m.session.peers[k]
            &&& !m.peers.contains_key(k) ==> {
                &&& r.peers[k].label == opt_text(name) && !r.peers[k].dial && r.peers[k].token is None
                &&& r.session.peers[k] == (AdmittedView { label: opt_text(name), admission: Admission::Key })
                &&& fx.contains(EffectView::Spawn { peer: k })
            }
            &&& only_peer_changed(m, r, k)
            &&& r.session.grants.contains(g) <==> m.session.grants.contains(g) || (g.1 == k && expose@.contains(g.0))
            &&& fx.contains(
                EffectView::SavePin {
                    key: hex(k),
                    label: opt_text(name),
                    by_code: m.session.peers.contains_key(k) && m.session.peers[k].admission is Code,
                },
            )
            &&& expose@.len() > 0 ==> all_are_told(r, fx)
        },
{
    before.lemma_consistent();
    if key_of_text(key@) is Some {
        let k = key_of_text(key@)->Some_0;
        let fx = step->Reply_effects;
        assert(before@.peers.dom().contains(k) == before@.session.peers.dom().contains(k));
        let pin = EffectView::SavePin {
            key: hex(k),
            label: opt_text(name),
            by_code: before@.session.peers.contains_key(k) && before@.session.peers[k].admission is Code,
        };
        let head = crate::peer::pinned_effects(before@, k).push(pin);
        lemma_all_are_told(after, head);
        assert(head[head.len() - 1] == pin);
        lemma_concat_contains(head, broadcast_effects(after@), pin);
        if !before@.peers.contains_key(k) {
            assert(head[0] == (EffectView::Spawn { peer: k }));
            lemma_concat_contains(head, broadcast_effects(after@), EffectView::Spawn { peer: k });
        }
    }
}

/// `invite` without a key mints a code and answers with the invitation: our key,
/// a dot, and the code. The code is sixteen bytes in hexadecimal; whoever
/// presents it within five minutes is admitted under the name, and is granted
/// the ports. Nobody is admitted or granted anything yet.
pub proof fn law_invite_mints_a_code(
    me: Seq<u8>,
    before: PeerManager,
    after: PeerManager,
    name: Option<String>,
    expose: Vec<u16>,
    request: Request,
    ip: Option<IpView>,
    live: Seq<ConnId>,
    step: StepView,
)
    requires
        asks(Command::Invite { key: None, name, expose }, request),
        is_answer(me, before@, request, ip, live, after@, step),
    ensures
        ({
            let (m, r) = (before@, after@);
            &&& step is Reply && step->Reply_effects.len() == 0
            &&& exists|bytes: Seq<u8>|
                {
                    let code = #[trigger] hex(bytes);
                    &&& bytes.len() == 16
                    &&& step->Reply_response == ResponseView::Invite(hex(me) + seq!['.'] + code)
                    &&& r.session.codes.contains_key(code)
                    &&& r.session.codes[code].name == opt_text(name)
                    &&& r.session.codes[code].ports == expose@
                    &&& forall|c: Seq<char>|
                        c != code && #[trigger] r.session.codes.contains_key(c) ==> m.session.codes.contains_key(c)
                            && r.session.codes[c] == m.session.codes[c]
                    &&& forall|c: Seq<char>|
                        c != code && #[trigger] m.session.codes.contains_key(c) && r.session.codes[code].minted
                            < m.session.codes[c].minted + CODE_TTL_MS ==> r.session.codes.contains_key(c)
                }
            &&& r.peers == m.peers && r.session.peers == m.session.peers && r.session.grants == m.session.grants
            &&& r.session.pending == m.session.pending && r.stack == m.stack
        }),
{
    let (m, r) = (before@, after@);
    let (bytes, now) = choose|bytes: Seq<u8>, now: u64|
        {
            &&& bytes.len() == 16
            &&& r == (ManagerView {
                session: #[trigger] crate::session::after_mint(m.session, hex(bytes), now, opt_text(name), expose@),
                ..m
            })
            &&& step == crate::daemon::plain_reply(ResponseView::Invite(crate::invite::invite_text(me, hex(bytes))))
        };
    let code = hex(bytes);
    assert(hex(me).push('.') + code =~= hex(me) + seq!['.'] + code);
}

/// `accept` makes the peer that the invitation or the key names known, as one
/// that we added, under the name that was given; it is dialed from then on, and
/// shown the code of the invitation. A peer that is known already is turned
/// down, and so is a text that is neither.
pub proof fn law_accept_dials_the_inviter(
    me: Seq<u8>,
    before: PeerManager,
    after: PeerManager,
    handle: String,
    name: Option<String>,
    request: Request,
    ip: Option<IpView>,
    live: Seq<ConnId>,
    step: StepView,
)
    requires
        before.wf(),
        asks(Command::Accept { handle, name }, request),
        is_answer(me, before@, request, ip, live, after@, step),
    ensures
        ({
            let (m, r) = (before@, after@);
            match handle_of(handle@) {
                Err(e) => is_refused(m, r, step, e.text()),
                Ok(h) => {
                    let k = match h {
                        HandleView::Invite { key, .. } => key,
                        HandleView::Key(key) => key,
                    };
                    &&& m.peers.contains_key(k) ==> is_refused(m, r, step, "peer already exists"@)
                    &&& !m.peers.contains_key(k) ==> {
                        &&& is_done(step) && step->Reply_effects == seq![EffectView::Spawn { peer: k }]
                        &&& r.peers.contains_key(k) && r.peers[k].dial && r.peers[k].label == opt_text(name)
                        &&& r.peers[k].conn is None && r.peers[k].surface is None
                        &&& h matches HandleView::Invite { code, .. } ==> r.peers[k].token == Some(code)
                        &&& h is Key ==> r.peers[k].token is None
                        &&& r.session.peers.contains_key(k)
                        &&& r.session.peers[k] == (AdmittedView { label: opt_text(name), admission: Admission::Added })
                        &&& only_peer_changed(m, r, k)
                        &&& r.session.grants == m.session.grants && r.session.codes == m.session.codes
                    }
                },
            }
        }),
{
    before.lemma_consistent();
    if handle_of(handle@) is Ok {
        let k = match handle_of(handle@)->Ok_0 {
            HandleView::Invite { key, .. } => key,
            HandleView::Key(key) => key,
        };
        assert(before@.peers.dom().contains(k) == before@.session.peers.dom().contains(k));
    }
}

// ------------------------------------------------------------------- peers

/// `forget` forgets the peer that the reference means and nobody else, with all
/// that calls for; where it means nobody it is turned down.
pub proof fn law_forget_forgets_that_peer(
    me: Seq<u8>,
    before: PeerManager,
    after: PeerManager,
    peer: String,
    request: Request,
    ip: Option<IpView>,
    live: Seq<ConnId>,
    step: StepView,
    g: (u16, Seq<u8>),
)
    requires
        before.wf(),
        asks(Command::Forget { peer }, request),
        is_answer(me, before@, request, ip, live, after@, step),
    ensures
        ({
            let (m, r) = (before@, after@);
            match resolved(m, key_of_text(peer@), peer@) {
                None => is_refused(m, r, step, "no such peer: "@ + peer@),
                Some(k) => {
                    &&& is_done(step) && step->Reply_effects == evict_effects(m, k, "removed"@)
                    &&& r == after_evicted(m, k)
                    &&& !r.peers.contains_key(k) && !r.session.peers.contains_key(k)
                    &&& only_peer_changed(m, r, k)
                    &&& r.session.grants.contains(g) <==> m.session.grants.contains(g) && g.1 != k
                },
            }
        }),
{
    before.lemma_consistent();
    crate::peer::shown::law_reference_means_a_peer(before, key_of_text(peer@), peer@);
    if resolved(before@, key_of_text(peer@), peer@) is Some {
        let k = resolved(before@, key_of_text(peer@), peer@)->Some_0;
        assert(before@.peers.dom().contains(k) == before@.session.peers.dom().contains(k));
    }
}

/// `project` projects the peer that the reference means, at the address and
/// under the name that were given, if any were, and binds its ports there;
/// where it means nobody it is turned down.
pub proof fn law_project_projects_that_peer(
    me: Seq<u8>,
    before: PeerManager,
    after: PeerManager,
    peer: String,
    at: Option<crate::addr::IpAddr>,
    name: Option<String>,
    request: Request,
    live: Seq<ConnId>,
    step: StepView,
)
    requires
        asks(Command::Project { peer, ip: at, name }, request),
        is_answer(me, before@, request, opt_ip(at), live, after@, step),
    ensures
        ({
            let (m, r) = (before@, after@);
            let (ip, called) = (opt_ip(at), opt_text(name));
            &&& request is Project
            &&& at is Some ==> opt_text(request->Project_ip) == Some(ip_text(at->Some_0@))
            &&& at is None ==> request->Project_ip is None
            &&& match resolved(m, key_of_text(peer@), peer@) {
                None => is_refused(m, r, step, "no such peer: "@ + peer@),
                Some(k) => {
                    let fx = project_effects(m, k, ip, called);
                    &&& r == after_project(m, k, ip, called)
                    &&& match project_next(m, k, ip, called) {
                        ProjectNextView::Ready(_) => step == (StepView::Bind { effects: fx, id: k }),
                        ProjectNextView::Run { ip: i, name: n, args, .. } => step == (StepView::Run {
                            effects: fx,
                            id: k,
                            ip: i,
                            name: n,
                            args,
                        }),
                        ProjectNextView::Refused(e) => step == (StepView::Reply { effects: fx, response: ResponseView::Error(e) }),
                    }
                },
            }
        }),
{
    if at is None {
        assert(opt_ip(at) is None);
    }
}

/// `unproject` takes down the surface of the peer that the reference means, and
/// keeps the peer; where it means nobody, or a peer that is not projected, it is
/// turned down.
pub proof fn law_unproject_takes_that_surface_down(
    me: Seq<u8>,
    before: PeerManager,
    after: PeerManager,
    peer: String,
    request: Request,
    ip: Option<IpView>,
    live: Seq<ConnId>,
    step: StepView,
)
    requires
        before.wf(),
        asks(Command::Unproject { peer }, request),
        is_answer(me, before@, request, ip, live, after@, step),
    ensures
        ({
            let (m, r) = (before@, after@);
            match resolved(m, key_of_text(peer@), peer@) {
                None => is_refused(m, r, step, "no such peer: "@ + peer@),
                Some(k) => {
                    &&& m.peers[k].surface is None ==> is_refused(m, r, step, "peer "@ + peer@ + " is not projected"@)
                    &&& m.peers[k].surface is Some ==> {
                        &&& is_done(step) && step->Reply_effects == unproject_effects(m, k)
                        &&& r == after_teardown(m, k)
                        &&& r.peers.contains_key(k) && r.peers[k].surface is None
                        &&& forall|p: u16| !#[trigger] r.peers[k].bound.contains_key(p)
                        &&& r.session == m.session
                    }
                },
            }
        }),
{
    crate::peer::shown::law_reference_means_a_peer(before, key_of_text(peer@), peer@);
    if resolved(before@, key_of_text(peer@), peer@) is Some {
        let k = resolved(before@, key_of_text(peer@), peer@)->Some_0;
        crate::peer::laws::lemma_all_released(before@, k);
        crate::peer::projection::lemma_releases(
            before@,
            k,
            crate::table::bound_ports(before@.peers[k]),
        );
    }
}

// ------------------------------------------------------------------- showing

/// `key` and `list` change nothing. The one answers with the text of our key;
/// the other with our key, our version, and a row for each peer.
pub proof fn law_asking_changes_nothing(
    me: Seq<u8>,
    before: PeerManager,
    after: PeerManager,
    request: Request,
    ip: Option<IpView>,
    live: Seq<ConnId>,
    step: StepView,
)
    requires
        is_answer(me, before@, request, ip, live, after@, step),
    ensures
        asks(Command::Key, request) ==> after@ == before@ && step is Reply && step->Reply_effects.len() == 0 && step->Reply_response
            == ResponseView::Key(hex(me)),
        asks(Command::List, request) ==> {
            let l = step->Reply_response->List_0;
            &&& after@ == before@ && step is Reply && step->Reply_effects.len() == 0 && step->Reply_response is List
            &&& l.me == hex(me) && l.cli == ""@ && l.daemon == VERSION@
            &&& l == list_of(me, before@, live)
            &&& l.peers == infos_of(before@, live)
        },
{
}

/// What the client shows is what the daemon answered: a line that says so, a key
/// or an invitation as it is, a list with the client's own version filled in,
/// and an error as a failure that holds its text.
pub proof fn law_answer_is_shown(response: ResponseView)
    ensures
        match response {
            ResponseView::Done => shown(response) == OutputView::Line("OK"@),
            ResponseView::Key(key) => shown(response) == OutputView::Line(key),
            ResponseView::Invite(invite) => shown(response) == OutputView::Line(invite),
            ResponseView::List(l) => {
                &&& shown(response) is List
                &&& shown(response)->List_0 == (ListView {
                    me: l.me,
                    cli: VERSION@,
                    daemon: l.daemon,
                    peers: l.peers,
                    i_expose: l.i_expose,
                    grants: l.grants,
                })
            },
            ResponseView::Error(e) => shown(response) == OutputView::Fail("Error: "@ + e),
        },
{
}

}
