//! Grants and invitations, as they reach the connected peers.

use super::{broadcast_effects, ManagerView, PeerManager};
use crate::effect::{effect_views, Effect};
use crate::grants::{grant_order, grant_views, ports_granted};
use crate::key::{opt_id, EndpointId};
use crate::order::{listing, lists, port_order};
use crate::roster::{id_views, keys_in_order};
use crate::session::{after_expose, after_mint, after_unexpose, carried_grants, SessionView};
use crate::text::{hex, opt_text};
use vstd::prelude::*;

verus! {

/// The manager after ports were granted to one key.
pub open spec fn after_grants(m: ManagerView, ports: Seq<u16>, key: Seq<u8>) -> ManagerView {
    ManagerView {
        session: SessionView { grants: m.session.grants.union(carried_grants(ports, key)), ..m.session },
        ..m
    }
}

impl PeerManager {
    /// Grant `port` to each peer in `to` and re-announce
    pub fn expose(&mut self, port: u16, to: &[EndpointId]) -> (fx: Vec<Effect>)
        requires
            old(self).wf(),
        ensures
            final(self).wf(),
            final(self).clock() == old(self).clock(),
            final(self)@ == (ManagerView {
                session: after_expose(old(self)@.session, port, id_views(to@)),
                ..old(self)@
            }),
            effect_views(fx@) == broadcast_effects(final(self)@),
    {
        let actions = self.session.expose(port, to);
        self.send_announcements(actions)
    }

    /// Revoke grants for `port` (all of them, or just `to`) and re-announce
    pub fn unexpose(&mut self, port: u16, to: Option<EndpointId>) -> (fx: Vec<Effect>)
        requires
            old(self).wf(),
        ensures
            final(self).wf(),
            final(self).clock() == old(self).clock(),
            final(self)@ == (ManagerView {
                session: after_unexpose(old(self)@.session, port, opt_id(to)),
                ..old(self)@
            }),
            effect_views(fx@) == broadcast_effects(final(self)@),
    {
        let actions = self.session.unexpose(port, to);
        self.send_announcements(actions)
    }

    /// Grant some ports to one key, without announcing them yet.
    pub fn grant(&mut self, ports: &Vec<u16>, to: EndpointId)
        requires
            old(self).wf(),
        ensures
            final(self).wf(),
            final(self).clock() == old(self).clock(),
            final(self)@ == after_grants(old(self)@, ports@, to@),
    {
        let ghost m = old(self)@;
        let key = [to];
        let mut i: usize = 0;
        assert(self@ =~= after_grants(m, ports@.take(0), to@)) by {
            assert(m.session.grants.union(carried_grants(ports@.take(0), to@)) =~= m.session.grants);
        }
        while i < ports.len()
            invariant
                i <= ports@.len(),
                self.wf(),
                self.clock() == old(self).clock(),
                key@.len() == 1,
                key@[0] == to,
                self@ == after_grants(m, ports@.take(i as int), to@),
            decreases ports@.len() - i,
        {
            let ghost before = self@;
            let _ = self.session.expose(ports[i], key.as_slice());
            proof {
                let (a, b) = (ports@.take(i as int), ports@.take(i + 1));
                assert forall|p: u16| #[trigger] b.contains(p) <==> a.contains(p) || p == ports@[i as int] by {
                    if a.contains(p) {
                        let x = choose|x: int| 0 <= x < a.len() && a[x] == p;
                        assert(b[x] == p);
                    }
                    assert(b[i as int] == ports@[i as int]);
                    if b.contains(p) {
                        let x = choose|x: int| 0 <= x < b.len() && b[x] == p;
                        if x < i {
                            assert(a[x] == p);
                        }
                    }
                }
                assert(id_views(key@)[0] == to@);
                assert forall|k: Seq<u8>| #[trigger] id_views(key@).contains(k) <==> k == to@ by {
                    assert(id_views(key@).len() == 1);
                }
                assert(self@.session.grants =~= m.session.grants.union(carried_grants(b, to@)));
                assert(self@ =~= after_grants(m, b, to@));
            }
            i = i + 1;
        }
        assert(ports@.take(ports@.len() as int) =~= ports@);
    }

    /// Every peer known right now.
    pub fn peer_keys(&self) -> (r: Vec<EndpointId>)
        requires
            self.wf(),
        ensures
            id_views(r@) == keys_in_order(self@.session.peers),
            forall|k: Seq<u8>| #[trigger] id_views(r@).contains(k) <==> self@.peers.contains_key(k),
    {
        self.session.peer_keys()
    }

    /// Mint a one-time code that carries a name and ports.
    pub fn mint(&mut self, name: Option<String>, ports: Vec<u16>) -> (code: String)
        requires
            old(self).wf(),
        ensures
            final(self).wf(),
            final(self).clock() == old(self).clock(),
            exists|bytes: Seq<u8>| bytes.len() == 16 && code@ == #[trigger] hex(bytes),
            exists|now: u64|
                final(self)@ == (ManagerView {
                    session: #[trigger] after_mint(old(self)@.session, code@, now, opt_text(name), ports@),
                    ..old(self)@
                }),
    {
        let code = self.session.mint_token(name, ports);
        proof {
            let now = choose|now: u64|
                self.session@ == #[trigger] after_mint(old(self)@.session, code@, now, opt_text(name), ports@);
            assert(self@ =~= (ManagerView {
                session: after_mint(old(self)@.session, code@, now, opt_text(name), ports@),
                ..old(self)@
            }));
        }
        code
    }

    /// Holds a given code from `now` on.
    pub fn mint_at(&mut self, code: String, now: u64, name: Option<String>, ports: Vec<u16>)
        requires
            old(self).wf(),
        ensures
            final(self).wf(),
            final(self).clock() == old(self).clock(),
            final(self)@ == (ManagerView {
                session: after_mint(old(self)@.session, code@, now, opt_text(name), ports@),
                ..old(self)@
            }),
    {
        self.session.mint_token_at(code, now, name, ports);
    }

    /// The distinct granted ports, ascending.
    pub fn granted_ports(&self) -> (r: Vec<u16>)
        requires
            self.wf(),
        ensures
            r@ == listing(ports_granted(self@.session.grants), port_order()),
            lists(r@, ports_granted(self@.session.grants), port_order()),
    {
        self.session.granted_ports()
    }

    /// Every grant, ascending by port and then by key.
    pub fn all_grants(&self) -> (r: Vec<(u16, EndpointId)>)
        requires
            self.wf(),
        ensures
            grant_views(r@) == listing(self@.session.grants, grant_order()),
            lists(grant_views(r@), self@.session.grants, grant_order()),
    {
        self.session.all_grants()
    }
}

}
