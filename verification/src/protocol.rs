//! What the daemon, its clients and its peers say to each other.

use crate::text::opt_text;
use vstd::prelude::*;

verus! {

/// This crate's version, announced to peers and shown by `list`.
pub const VERSION: &'static str = "0.6.0";

// ------------------------------------------------------- client and daemon

/// Request from a client to the daemon.
#[derive(Debug, PartialEq, Eq)]
pub enum Request {
    /// Extend an invitation. With a key, address it to that key and return
    /// nothing; without one, mint a code and return the invitation.
    Invite {
        key: Option<String>,
        name: Option<String>,
        /// Ports granted to whoever takes the invitation up
        expose: Vec<u16>,
    },
    /// Take up an invitation, or reach a peer known by key
    Accept { handle: String, name: Option<String> },
    /// Forget a peer
    Forget { peer: String },
    /// Grant `port` to `to`, or to every peer known right now when `all`
    Expose { port: u16, to: Vec<String>, all: bool },
    /// Revoke grants for `port`; `to` limits it to one grantee
    Unexpose { port: u16, to: Option<String> },
    List,
    /// Print this daemon's key
    Key,
    /// Project a peer's surface to a local address. `peer` is a key or the name
    /// it was given; `ip` is chosen if given, else allocated; `name` renames the
    /// surface, which is what the resolver answers with.
    Project { peer: String, ip: Option<String>, name: Option<String> },
    /// Take a peer's surface down: unbind its ports, drop the address and name.
    Unproject { peer: String },
}

/// Response from the daemon to a client.
#[derive(Debug, PartialEq, Eq)]
pub enum Response {
    /// The request was carried out and has nothing to show
    Done,
    Key(String),
    List(ListInfo),
    Invite(String),
    Error(String),
}

/// What `list` shows.
#[derive(Debug, PartialEq, Eq)]
pub struct ListInfo {
    /// This node's own key
    pub me: String,
    /// The binary that issued `list`. Empty on the daemon's own response; the
    /// client fills it in before printing.
    pub cli: String,
    /// The running daemon's crate version. Empty when that daemon is older
    /// than this field and omitted it.
    pub daemon: String,
    pub peers: Vec<PeerInfo>,
    /// Ports this node exposes (distinct granted ports)
    pub i_expose: Vec<u16>,
    /// Who each port is granted to, one row per (port, grantee)
    pub grants: Vec<GrantInfo>,
}

/// One grant, as `list` shows it.
#[derive(Debug, PartialEq, Eq)]
pub struct GrantInfo {
    pub port: u16,
    /// Key of the peer this port is granted to
    pub to: String,
}

/// One peer, as `list` shows it.
#[derive(Debug, PartialEq, Eq)]
pub struct PeerInfo {
    pub key: String,
    /// What we call this peer locally, absent until something names it
    pub name: Option<String>,
    /// The peer's crate version, absent until it announces one
    pub version: Option<String>,
    pub online: bool,
    /// How this peer came to be admitted: "added", "code", or "key"
    pub admission: String,
    /// Ports this peer exposes to us
    pub they_expose: Vec<u16>,
    /// Local address its ports are bound at, absent when not projected
    pub ip: Option<String>,
    /// Ports bound under that address
    pub bound: Vec<u16>,
}

/// One peer as plain values.
pub struct InfoView {
    pub key: Seq<char>,
    pub name: Option<Seq<char>>,
    pub version: Option<Seq<char>>,
    pub online: bool,
    pub admission: Seq<char>,
    pub they_expose: Seq<u16>,
    pub ip: Option<Seq<char>>,
    pub bound: Seq<u16>,
}

impl View for PeerInfo {
    type V = InfoView;

    open spec fn view(&self) -> InfoView {
        InfoView {
            key: self.key@,
            name: opt_text(self.name),
            version: opt_text(self.version),
            online: self.online,
            admission: self.admission@,
            they_expose: self.they_expose@,
            ip: opt_text(self.ip),
            bound: self.bound@,
        }
    }
}

/// The views of a sequence of peers.
pub open spec fn info_views(infos: Seq<PeerInfo>) -> Seq<InfoView> {
    Seq::new(infos.len(), |i: int| infos[i]@)
}

/// The rows of a sequence of grants.
pub open spec fn grant_rows(grants: Seq<GrantInfo>) -> Seq<(u16, Seq<char>)> {
    Seq::new(grants.len(), |i: int| (grants[i].port, grants[i].to@))
}

/// What `list` shows, as plain values.
pub struct ListView {
    pub me: Seq<char>,
    pub cli: Seq<char>,
    pub daemon: Seq<char>,
    pub peers: Seq<InfoView>,
    pub i_expose: Seq<u16>,
    pub grants: Seq<(u16, Seq<char>)>,
}

impl View for ListInfo {
    type V = ListView;

    open spec fn view(&self) -> ListView {
        ListView {
            me: self.me@,
            cli: self.cli@,
            daemon: self.daemon@,
            peers: info_views(self.peers@),
            i_expose: self.i_expose@,
            grants: grant_rows(self.grants@),
        }
    }
}

/// A response as plain values.
pub enum ResponseView {
    Done,
    Key(Seq<char>),
    List(ListView),
    Invite(Seq<char>),
    Error(Seq<char>),
}

impl View for Response {
    type V = ResponseView;

    open spec fn view(&self) -> ResponseView {
        match *self {
            Response::Done => ResponseView::Done,
            Response::Key(k) => ResponseView::Key(k@),
            Response::List(l) => ResponseView::List(l@),
            Response::Invite(i) => ResponseView::Invite(i@),
            Response::Error(e) => ResponseView::Error(e@),
        }
    }
}

// ----------------------------------------------------------- peer and peer

/// Message sent between peers.
#[derive(Debug, PartialEq, Eq)]
pub enum PeerMessage {
    /// Announce exposed ports (sent on connect and when ports change)
    ExposedPorts(Vec<u16>),
    /// Request to connect to a specific port
    Connect { port: u16 },
    /// Present an invitation's one-time code (sent on connect by `accept`).
    /// `version` is the sender's crate version. Older daemons never send one.
    Enroll { token: String, version: Option<String> },
    /// Error response
    Error(String),
}

/// A message as plain values.
pub enum MessageView {
    ExposedPorts(Seq<u16>),
    Connect { port: u16 },
    Enroll { token: Seq<char>, version: Option<Seq<char>> },
    Error(Seq<char>),
}

impl View for PeerMessage {
    type V = MessageView;

    open spec fn view(&self) -> MessageView {
        match *self {
            PeerMessage::ExposedPorts(ports) => MessageView::ExposedPorts(ports@),
            PeerMessage::Connect { port } => MessageView::Connect { port },
            PeerMessage::Enroll { token, version } => MessageView::Enroll { token: token@, version: opt_text(version) },
            PeerMessage::Error(e) => MessageView::Error(e@),
        }
    }
}

/// An `Enroll` that announces our crate version.
pub open spec fn enroll_message(token: Seq<char>) -> MessageView {
    MessageView::Enroll { token, version: Some(VERSION@) }
}

impl PeerMessage {
    /// An `Enroll` that also announces our crate version.
    pub fn enroll(token: &str) -> (r: PeerMessage)
        ensures
            r is Enroll,
            r@ == enroll_message(token@),
    {
        PeerMessage::Enroll { token: token.to_owned(), version: Some(VERSION.to_owned()) }
    }
}

}
