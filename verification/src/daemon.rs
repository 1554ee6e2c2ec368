//! The daemon: what it answers its clients.

use crate::addr::{IpAddr, IpView};
use crate::effect::{effect_views, group_effects, Effect, EffectView};
use crate::grants::{grant_order, grant_views, lemma_grant_order, ports_granted};
use crate::invite::{handle_of, invite_text, Handle, HandleView, Invite};
use crate::key::{key_of_text, law_key_text_is_injective, opt_id, EndpointId, InvalidKey};
use crate::order::{
    key_order, lemma_ascending_is_distinct, lemma_key_order, lemma_port_order, listing, port_order,
};
use crate::peer::access::after_grants;
use crate::peer::projection::{
    after_evicted, after_project, after_teardown, evict_effects, project_effects, project_next, unproject_effects, ProjectNext,
    ProjectNextView, Projection,
};
use crate::peer::queries::{info_of, infos_of, known_keys, opt_ip, resolved};
use crate::peer::{
    after_record, broadcast_effects, effects_result, known_by_code, peer_error_text, pinned_effects, ManagerView,
    PeerError, PeerErrorView, PeerManager,
};
use crate::protocol::{
    grant_rows, GrantInfo, ListInfo, ListView, Request, Response, ResponseView, VERSION,
};
use crate::roster::{id_views, Admission};
use crate::session::{after_expose, after_mint, after_unexpose, ConnId};
use crate::text::{hex, opt_text, texts};
use vstd::prelude::*;

verus! {

/// What the shell does about a request.
#[derive(Debug, PartialEq, Eq)]
pub enum Step {
    /// Carry out the effects and answer. A `Require` that fails replaces the
    /// answer by its error.
    Reply { effects: Vec<Effect>, response: Response },
    /// Carry out the effects, bind the peer's ports (`begin_rebind`), and answer
    /// `Done`.
    Bind { effects: Vec<Effect>, id: EndpointId },
    /// Carry out the effects and run a command. If it fails, answer with its
    /// error; else settle the surface, bind the peer's ports, and answer `Done`.
    Run { effects: Vec<Effect>, id: EndpointId, ip: IpAddr, name: Option<String>, args: Vec<String> },
}

/// A step as plain values.
pub enum StepView {
    Reply { effects: Seq<EffectView>, response: ResponseView },
    Bind { effects: Seq<EffectView>, id: Seq<u8> },
    Run { effects: Seq<EffectView>, id: Seq<u8>, ip: IpView, name: Option<Seq<char>>, args: Seq<Seq<char>> },
}

impl View for Step {
    type V = StepView;

    open spec fn view(&self) -> StepView {
        match *self {
            Step::Reply { effects, response } => StepView::Reply {
                effects: effect_views(effects@),
                response: response@,
            },
            Step::Bind { effects, id } => StepView::Bind { effects: effect_views(effects@), id: id@ },
            Step::Run { effects, id, ip, name, args } => StepView::Run {
                effects: effect_views(effects@),
                id: id@,
                ip: ip@,
                name: opt_text(name),
                args: texts(args@),
            },
        }
    }
}

/// An answer with nothing to do.
pub open spec fn plain_reply(response: ResponseView) -> StepView {
    StepView::Reply { effects: seq![], response }
}

/// An answer that turns a request down.
pub open spec fn refusal(text: Seq<char>) -> StepView {
    plain_reply(ResponseView::Error(text))
}

/// An answer that a request was carried out.
pub open spec fn done(effects: Seq<EffectView>) -> StepView {
    StepView::Reply { effects, response: ResponseView::Done }
}

/// The reason a grant without grantees is turned down.
pub open spec fn no_grantees_text() -> Seq<char> {
    "no peers to grant to; use --to <key>"@
}

// ------------------------------------------------------------------ requests

/// Inviting one key: it is pinned under its name, and the ports are granted to
/// it.
pub open spec fn invite_key_outcome(
    m: ManagerView,
    key: Seq<u8>,
    name: Option<Seq<char>>,
    ports: Seq<u16>,
) -> (ManagerView, StepView) {
    let after = after_grants(after_record(m, key, name, false, None, Admission::Key), ports, key);
    let pinned = pinned_effects(m, key).push(
        EffectView::SavePin { key: hex(key), label: name, by_code: known_by_code(m, key) },
    );
    (
        after,
        done(
            if ports.len() > 0 {
                pinned + broadcast_effects(after)
            } else {
                pinned
            },
        ),
    )
}

/// Taking up an invitation or a key: the peer is recorded, and dialed from now
/// on.
pub open spec fn accept_outcome(m: ManagerView, handle: HandleView, name: Option<Seq<char>>) -> (ManagerView, StepView) {
    let (key, code) = match handle {
        HandleView::Invite { key, code } => (key, Some(code)),
        HandleView::Key(key) => (key, None),
    };
    (
        after_record(m, key, name, true, code, Admission::Added),
        if m.peers.contains_key(key) {
            refusal(peer_error_text(PeerErrorView::AlreadyExists))
        } else {
            done(seq![EffectView::Spawn { peer: key }])
        },
    )
}

/// Forgetting the peer that a reference means.
pub open spec fn forget_outcome(m: ManagerView, target: Option<Seq<u8>>, peer_ref: Seq<char>) -> (ManagerView, StepView) {
    match target {
        Some(key) => (after_evicted(m, key), done(evict_effects(m, key, "removed"@))),
        None => (m, refusal(peer_error_text(PeerErrorView::NoSuchPeer(peer_ref)))),
    }
}

/// Granting a port to some keys.
pub open spec fn expose_outcome(m: ManagerView, port: u16, to: Seq<Seq<u8>>) -> (ManagerView, StepView) {
    let after = ManagerView { session: after_expose(m.session, port, to), ..m };
    if to.len() == 0 {
        (m, refusal(no_grantees_text()))
    } else {
        (after, done(broadcast_effects(after)))
    }
}

/// Revoking a port, for one key or for all.
pub open spec fn unexpose_outcome(m: ManagerView, port: u16, to: Option<Seq<u8>>) -> (ManagerView, StepView) {
    let after = ManagerView { session: after_unexpose(m.session, port, to), ..m };
    (after, done(broadcast_effects(after)))
}

/// Projecting the peer that a reference means.
pub open spec fn project_outcome(
    m: ManagerView,
    target: Option<Seq<u8>>,
    peer_ref: Seq<char>,
    ip: Option<IpView>,
    name: Option<Seq<char>>,
) -> (ManagerView, StepView) {
    match target {
        Some(key) => {
            let effects = project_effects(m, key, ip, name);
            (
                after_project(m, key, ip, name),
                match project_next(m, key, ip, name) {
                    ProjectNextView::Refused(e) => StepView::Reply { effects, response: ResponseView::Error(e) },
                    ProjectNextView::Ready(id) => StepView::Bind { effects, id },
                    ProjectNextView::Run { id, ip, name, args } => StepView::Run { effects, id, ip, name, args },
                },
            )
        },
        None => (m, refusal(peer_error_text(PeerErrorView::NoSuchPeer(peer_ref)))),
    }
}

/// Taking down the surface of the peer that a reference means.
pub open spec fn unproject_outcome(m: ManagerView, target: Option<Seq<u8>>, peer_ref: Seq<char>) -> (ManagerView, StepView) {
    match target {
        Some(key) => if m.peers[key].surface is Some {
            (after_teardown(m, key), done(unproject_effects(m, key)))
        } else {
            (m, refusal(peer_error_text(PeerErrorView::NotProjected(peer_ref))))
        },
        None => (m, refusal(peer_error_text(PeerErrorView::NoSuchPeer(peer_ref)))),
    }
}

/// What `list` answers.
pub open spec fn list_of(me: Seq<u8>, m: ManagerView, live: Seq<ConnId>) -> ListView {
    ListView {
        me: hex(me),
        cli: ""@,
        daemon: VERSION@,
        peers: infos_of(m, live),
        i_expose: listing(ports_granted(m.session.grants), port_order()),
        grants: listing(m.session.grants, grant_order()).map_values(|g: (u16, Seq<u8>)| (g.0, hex(g.1))),
    }
}

/// The keys that some texts read as, if all of them do.
pub open spec fn keys_read(keys: Seq<Seq<char>>) -> Option<Seq<Seq<u8>>> {
    if forall|i: int| 0 <= i < keys.len() ==> key_of_text(#[trigger] keys[i]) is Some {
        Some(Seq::new(keys.len(), |i: int| key_of_text(keys[i])->Some_0))
    } else {
        None
    }
}

/// Whether `after` and `step` are what becomes of a request. `ip` is the
/// address that the text in the request reads as, if it reads as one.
pub open spec fn is_answer(
    me: Seq<u8>,
    m: ManagerView,
    request: Request,
    ip: Option<IpView>,
    live: Seq<ConnId>,
    after: ManagerView,
    step: StepView,
) -> bool {
    match request {
        Request::Invite { key: Some(k), name, expose } => (after, step) == match key_of_text(k@) {
            Some(key) => invite_key_outcome(m, key, opt_text(name), expose@),
            None => (m, refusal("invalid key"@)),
        },
        Request::Invite { key: None, name, expose } => is_minted(me, m, opt_text(name), expose@, after, step),
        Request::Accept { handle, name } => (after, step) == match handle_of(handle@) {
            Ok(h) => accept_outcome(m, h, opt_text(name)),
            Err(e) => (m, refusal(e.text())),
        },
        Request::Forget { peer } => (after, step) == forget_outcome(m, resolved(m, key_of_text(peer@), peer@), peer@),
        Request::Expose { port, to, all } => (after, step) == if all {
            expose_outcome(m, port, known_keys(m))
        } else {
            match keys_read(texts(to@)) {
                Some(keys) => expose_outcome(m, port, keys),
                None => (m, refusal("invalid peer key"@)),
            }
        },
        Request::Unexpose { port, to } => (after, step) == match to {
            None => unexpose_outcome(m, port, None),
            Some(t) => match key_of_text(t@) {
                Some(key) => unexpose_outcome(m, port, Some(key)),
                None => (m, refusal("invalid peer key"@)),
            },
        },
        Request::List => after == m && step == plain_reply(ResponseView::List(list_of(me, m, live))),
        Request::Key => after == m && step == plain_reply(ResponseView::Key(hex(me))),
        Request::Project { peer, ip: text, name } => (after, step) == if text is Some && ip is None {
            (m, refusal("invalid --ip address"@))
        } else {
            project_outcome(
                m,
                resolved(m, key_of_text(peer@), peer@),
                peer@,
                if text is Some {
                    ip
                } else {
                    None
                },
                opt_text(name),
            )
        },
        Request::Unproject { peer } => (after, step) == unproject_outcome(m, resolved(m, key_of_text(peer@), peer@), peer@),
    }
}

/// Whether `after` and `step` are what becomes of an invitation to whoever
/// holds its code: the code is fresh from now on and carries the name and the
/// ports, and the answer is the invitation.
pub open spec fn is_minted(
    me: Seq<u8>,
    m: ManagerView,
    name: Option<Seq<char>>,
    ports: Seq<u16>,
    after: ManagerView,
    step: StepView,
) -> bool {
    exists|bytes: Seq<u8>, now: u64|
        {
            &&& bytes.len() == 16
            &&& after == (ManagerView { session: #[trigger] after_mint(m.session, hex(bytes), now, name, ports), ..m })
            &&& step == plain_reply(ResponseView::Invite(invite_text(me, hex(bytes))))
        }
}

/// The daemon: its own key, and the peers it knows.
#[derive(Debug)]
pub struct Daemon {
    pub me: EndpointId,
    pub peers: PeerManager,
}

/// An answer that turns a request down.
fn refuse(text: &str) -> (s: Step)
    ensures
        s@ == refusal(text@),
{
    broadcast use group_effects;

    let none: Vec<Effect> = Vec::new();
    Step::Reply { effects: none, response: Response::Error(text.to_owned()) }
}

/// The outcome of a request about a peer as an answer.
fn reply_to(r: Result<Vec<Effect>, PeerError>) -> (s: Step)
    ensures
        s@ == match effects_result(r) {
            Ok(fx) => done(fx),
            Err(e) => refusal(peer_error_text(e)),
        },
{
    match r {
        Ok(effects) => Step::Reply { effects, response: Response::Done },
        Err(e) => refuse(e.to_string().as_str()),
    }
}

/// Reads every text as a key.
fn read_keys(keys: &Vec<String>) -> (r: Option<Vec<EndpointId>>)
    ensures
        match r {
            Some(ids) => keys_read(texts(keys@)) == Some(id_views(ids@)),
            None => keys_read(texts(keys@)) is None,
        },
{
    let ghost all = texts(keys@);
    let mut ids: Vec<EndpointId> = Vec::new();
    let mut i: usize = 0;
    while i < keys.len()
        invariant
            i <= keys@.len(),
            all == texts(keys@),
            ids@.len() == i,
            forall|j: int| 0 <= j < i ==> key_of_text(#[trigger] all[j]) == Some(ids@[j]@),
        decreases keys@.len() - i,
    {
        assert(all[i as int] == keys@[i as int]@);
        match EndpointId::parse(keys[i].as_str()) {
            Ok(id) => {
                ids.push(id);
            },
            Err(InvalidKey) => {
                return None;
            },
        }
        i = i + 1;
    }
    assert(Seq::new(all.len(), |i: int| key_of_text(all[i])->Some_0) =~= id_views(ids@));
    Some(ids)
}

impl Daemon {
    /// The bytes of the daemon's own key.
    pub open spec fn key(&self) -> Seq<u8> {
        self.me@
    }

    /// The peers are in order.
    pub open spec fn wf(&self) -> bool {
        self.peers.wf()
    }

    /// A daemon with the key `me`.
    pub fn new(me: EndpointId, peers: PeerManager) -> (r: Daemon)
        ensures
            r.key() == me@,
            r.peers == peers,
    {
        Daemon { me, peers }
    }

    /// Extend an invitation to one key.
    pub fn invite_key(&mut self, id: EndpointId, name: Option<String>, ports: &Vec<u16>) -> (s: Step)
        requires
            old(self).wf(),
        ensures
            final(self).wf(),
            final(self).peers.clock() == old(self).peers.clock(),
            final(self).key() == old(self).key(),
            (final(self).peers@, s@) == invite_key_outcome(old(self).peers@, id@, opt_text(name), ports@),
    {
        broadcast use group_effects;

        let mut fx = self.peers.pin_id(id, name);
        self.peers.grant(ports, id);
        if ports.len() > 0 {
            let mut more = self.peers.broadcast_grants();
            fx.append(&mut more);
        }
        Step::Reply { effects: fx, response: Response::Done }
    }

    /// Take up an invitation, or reach a peer known by key.
    pub fn accept(&mut self, handle: Handle, name: Option<String>) -> (s: Step)
        requires
            old(self).wf(),
        ensures
            final(self).wf(),
            final(self).peers.clock() == old(self).peers.clock(),
            final(self).key() == old(self).key(),
            (final(self).peers@, s@) == accept_outcome(old(self).peers@, handle@, opt_text(name)),
    {
        let r = self.peers.add_peer(handle.key(), name, handle.code());
        reply_to(r)
    }

    /// Grant `port` to each of `to` and re-announce. A grant always names its
    /// grantees.
    pub fn expose(&mut self, port: u16, to: &Vec<EndpointId>) -> (s: Step)
        requires
            old(self).wf(),
        ensures
            final(self).wf(),
            final(self).peers.clock() == old(self).peers.clock(),
            final(self).key() == old(self).key(),
            (final(self).peers@, s@) == expose_outcome(old(self).peers@, port, id_views(to@)),
    {
        if to.len() == 0 {
            return refuse("no peers to grant to; use --to <key>");
        }
        let effects = self.peers.expose(port, to.as_slice());
        Step::Reply { effects, response: Response::Done }
    }

    /// Revoke grants for `port` (all of them, or just `to`) and re-announce
    pub fn unexpose(&mut self, port: u16, to: Option<EndpointId>) -> (s: Step)
        requires
            old(self).wf(),
        ensures
            final(self).wf(),
            final(self).peers.clock() == old(self).peers.clock(),
            final(self).key() == old(self).key(),
            (final(self).peers@, s@) == unexpose_outcome(old(self).peers@, port, opt_id(to)),
    {
        let effects = self.peers.unexpose(port, to);
        Step::Reply { effects, response: Response::Done }
    }

    /// What the daemon knows. `live` holds the connections that are open.
    pub fn list(&self, live: &Vec<ConnId>) -> (r: ListInfo)
        requires
            self.wf(),
        ensures
            r@ == list_of(self.key(), self.peers@, live@),
    {
        let rows = self.peers.all_grants();
        let ghost all = listing(self.peers@.session.grants, grant_order());
        let ghost want = all.map_values(|g: (u16, Seq<u8>)| (g.0, hex(g.1)));
        let mut grants: Vec<GrantInfo> = Vec::new();
        let mut i: usize = 0;
        assert(grant_rows(grants@) =~= want.take(0));
        while i < rows.len()
            invariant
                i <= rows@.len(),
                all == grant_views(rows@),
                want == all.map_values(|g: (u16, Seq<u8>)| (g.0, hex(g.1))),
                grant_rows(grants@) == want.take(i as int),
            decreases rows@.len() - i,
        {
            let ghost before = grant_rows(grants@);
            grants.push(GrantInfo { port: rows[i].0, to: rows[i].1.to_string() });
            proof {
                assert(all[i as int] == (rows@[i as int].0, rows@[i as int].1@));
                assert(grant_rows(grants@) =~= before.push((rows@[i as int].0, hex(rows@[i as int].1@))));
                assert(grant_rows(grants@) =~= want.take(i + 1));
            }
            i = i + 1;
        }
        assert(want.take(rows@.len() as int) =~= want);
        ListInfo {
            me: self.me.to_string(),
            cli: "".to_owned(),
            daemon: VERSION.to_owned(),
            peers: self.peers.list(live),
            i_expose: self.peers.granted_ports(),
            grants,
        }
    }

    /// Mint an invitation for whoever holds its code.
    pub fn invite(&mut self, name: Option<String>, ports: Vec<u16>) -> (s: Step)
        requires
            old(self).wf(),
        ensures
            final(self).wf(),
            final(self).peers.clock() == old(self).peers.clock(),
            final(self).key() == old(self).key(),
            is_minted(old(self).key(), old(self).peers@, opt_text(name), ports@, final(self).peers@, s@),
    {
        broadcast use group_effects;

        let ghost m = old(self).peers@;
        let code = self.peers.mint(name, ports);
        proof {
            let bytes = choose|bytes: Seq<u8>| bytes.len() == 16 && code@ == #[trigger] hex(bytes);
            let now = choose|now: u64|
                self.peers@ == (ManagerView {
                    session: #[trigger] after_mint(m.session, code@, now, opt_text(name), ports@),
                    ..m
                });
            assert(self.peers@.session == after_mint(m.session, hex(bytes), now, opt_text(name), ports@));
        }
        let text = Invite { key: self.me, code }.to_string();
        let none: Vec<Effect> = Vec::new();
        Step::Reply { effects: none, response: Response::Invite(text) }
    }

    /// Project a peer's surface.
    fn project(&mut self, peer: &str, ip: Option<IpAddr>, name: Option<String>) -> (s: Step)
        requires
            old(self).wf(),
        ensures
            final(self).wf(),
            final(self).peers.clock() == old(self).peers.clock(),
            final(self).key() == old(self).key(),
            (final(self).peers@, s@) == project_outcome(
                old(self).peers@,
                resolved(old(self).peers@, key_of_text(peer@), peer@),
                peer@,
                opt_ip(ip),
                opt_text(name),
            ),
    {
        broadcast use group_effects;

        let Projection { effects, next } = self.peers.project(peer, ip, name);
        match next {
            ProjectNext::Refused(e) => Step::Reply { effects, response: Response::Error(e) },
            ProjectNext::Ready(id) => Step::Bind { effects, id },
            ProjectNext::Run { id, ip, name, args } => Step::Run { effects, id, ip, name, args },
        }
    }

    /// Handle a request from a client. `ip` is the address that the text in a
    /// request to project reads as, if it reads as one; `live` holds the
    /// connections that are open.
    pub fn handle_request(&mut self, request: Request, ip: Option<IpAddr>, live: &Vec<ConnId>) -> (s: Step)
        requires
            old(self).wf(),
        ensures
            final(self).wf(),
            final(self).peers.clock() == old(self).peers.clock(),
            final(self).key() == old(self).key(),
            is_answer(old(self).key(), old(self).peers@, request, opt_ip(ip), live@, final(self).peers@, s@),
    {
        broadcast use group_effects;

        match request {
            Request::Invite { key, name, expose } => match key {
                Some(k) => match EndpointId::parse(k.as_str()) {
                    Ok(id) => self.invite_key(id, name, &expose),
                    Err(InvalidKey) => refuse("invalid key"),
                },
                None => self.invite(name, expose),
            },
            Request::Accept { handle, name } => match Handle::parse(handle.as_str()) {
                Ok(h) => self.accept(h, name),
                Err(e) => refuse(e.as_str()),
            },
            Request::Forget { peer } => {
                let r = self.peers.remove_peer(peer.as_str());
                reply_to(r)
            },
            Request::Expose { port, to, all } => {
                let grantees = if all {
                    Some(self.peers.peer_keys())
                } else {
                    read_keys(&to)
                };
                match grantees {
                    Some(ids) => self.expose(port, &ids),
                    None => refuse("invalid peer key"),
                }
            },
            Request::Unexpose { port, to } => match to {
                Some(k) => match EndpointId::parse(k.as_str()) {
                    Ok(id) => self.unexpose(port, Some(id)),
                    Err(InvalidKey) => refuse("invalid peer key"),
                },
                None => self.unexpose(port, None),
            },
            Request::List => {
                let none: Vec<Effect> = Vec::new();
                Step::Reply { effects: none, response: Response::List(self.list(live)) }
            },
            Request::Key => {
                let none: Vec<Effect> = Vec::new();
                Step::Reply { effects: none, response: Response::Key(self.me.to_string()) }
            },
            Request::Project { peer, ip: text, name } => {
                if text.is_some() && ip.is_none() {
                    return refuse("invalid --ip address");
                }
                let at = if text.is_some() {
                    ip
                } else {
                    None
                };
                self.project(peer.as_str(), at, name)
            },
            Request::Unproject { peer } => {
                let r = self.peers.unproject(peer.as_str());
                reply_to(r)
            },
        }
    }
}

/// `list` shows every grant in a row of its own, never twice, every port of one
/// once, both by ascending port, and every known peer once.
pub proof fn law_list_shows_everything_once(daemon: Daemon, live: Seq<ConnId>, port: u16, key: Seq<u8>)
    requires
        daemon.wf(),
    ensures
        ({
            let m = daemon.peers@;
            let l = list_of(daemon.key(), m, live);
            &&& l.grants.no_duplicates()
            &&& l.grants.contains((port, hex(key))) <==> m.session.grants.contains((port, key))
            &&& forall|i: int, j: int|
                #![trigger l.grants[i], l.grants[j]]
                0 <= i < j < l.grants.len() ==> l.grants[i].0 <= l.grants[j].0
            &&& l.i_expose.no_duplicates()
            &&& forall|i: int, j: int|
                #![trigger l.i_expose[i], l.i_expose[j]]
                0 <= i < j < l.i_expose.len() ==> l.i_expose[i] < l.i_expose[j]
            &&& l.i_expose.contains(port) <==> exists|k: Seq<u8>| #[trigger] m.session.grants.contains((port, k))
            &&& l.peers.len() == known_keys(m).len()
            &&& known_keys(m).no_duplicates()
            &&& m.peers.contains_key(key) <==> known_keys(m).contains(key)
            &&& forall|i: int| 0 <= i < l.peers.len() ==> (#[trigger] l.peers[i]) == info_of(m, known_keys(m)[i], live)
        }),
{
    let m = daemon.peers@;
    let l = list_of(daemon.key(), m, live);
    daemon.peers.lemma_consistent();
    daemon.peers.lemma_grants();
    lemma_grant_order();
    lemma_port_order();
    lemma_key_order();
    let rows = listing(m.session.grants, grant_order());
    lemma_ascending_is_distinct(rows, grant_order());
    lemma_ascending_is_distinct(l.i_expose, port_order());
    lemma_ascending_is_distinct(known_keys(m), key_order());
    let (by_grant, by_port) = (grant_order(), port_order());
    assert forall|i: int, j: int| #![trigger l.grants[i], l.grants[j]] 0 <= i < j < l.grants.len() implies l.grants[i].0
        <= l.grants[j].0 by {
        assert(by_grant(rows[i], rows[j]));
    }
    assert forall|i: int, j: int| #![trigger l.i_expose[i], l.i_expose[j]] 0 <= i < j < l.i_expose.len() implies l.i_expose[i]
        < l.i_expose[j] by {
        assert(by_port(l.i_expose[i], l.i_expose[j]));
    }
    assert forall|i: int, j: int| 0 <= i < rows.len() && 0 <= j < rows.len() && l.grants[i] == l.grants[j] implies i == j by {
        law_key_text_is_injective(rows[i].1, rows[j].1);
        assert(rows[i] == rows[j]);
    }
    if m.session.grants.contains((port, key)) {
        assert(rows.contains((port, key)));
        let i = choose|i: int| 0 <= i < rows.len() && rows[i] == (port, key);
        assert(l.grants[i] == (port, hex(key)));
    }
    if l.grants.contains((port, hex(key))) {
        let i = choose|i: int| 0 <= i < l.grants.len() && l.grants[i] == (port, hex(key));
        law_key_text_is_injective(rows[i].1, key);
        assert(rows.contains(rows[i]));
    }
    assert(m.peers.contains_key(key) <==> m.peers.dom().contains(key));
}

}
