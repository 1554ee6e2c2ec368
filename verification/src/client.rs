//! The client's side: what a command asks of the daemon, and what is shown of
//! the answer.

use crate::addr::{ip_text, IpAddr};
use crate::protocol::{ListInfo, ListView, Request, Response, ResponseView, VERSION};
use crate::text::opt_text;
use vstd::prelude::*;

verus! {

/// A command to a running daemon.
#[derive(Debug, PartialEq, Eq)]
pub enum Command {
    /// Extend an invitation
    Invite { key: Option<String>, name: Option<String>, expose: Vec<u16> },
    /// Take up an invitation, or reach a peer you already know by key
    Accept { handle: String, name: Option<String> },
    /// Forget a peer
    Forget { peer: String },
    /// Grant a local port to named peers
    Expose { port: u16, to: Vec<String>, all: bool },
    /// Revoke grants for a port
    Unexpose { port: u16, to: Option<String> },
    /// List peers, their grants, and where their ports are bound
    List,
    /// Print the daemon's key
    Key,
    /// Override where a peer's ports are bound
    Project { peer: String, ip: Option<IpAddr>, name: Option<String> },
    /// Take a peer's surface down
    Unproject { peer: String },
}

/// Whether `request` asks what `command` says.
pub open spec fn asks(command: Command, request: Request) -> bool {
    match command {
        Command::Invite { key, name, expose } => request == (Request::Invite { key, name, expose }),
        Command::Accept { handle, name } => request == (Request::Accept { handle, name }),
        Command::Forget { peer } => request == (Request::Forget { peer }),
        Command::Expose { port, to, all } => request == (Request::Expose { port, to, all }),
        Command::Unexpose { port, to } => request == (Request::Unexpose { port, to }),
        Command::List => request == Request::List,
        Command::Key => request == Request::Key,
        Command::Project { peer, ip, name } => match request {
            Request::Project { peer: p, ip: text, name: n } => p == peer && n == name && opt_text(text) == match ip {
                Some(a) => Some(ip_text(a@)),
                None => None,
            },
            _ => false,
        },
        Command::Unproject { peer } => request == (Request::Unproject { peer }),
    }
}

/// The request for a command.
pub fn request_for(command: Command) -> (request: Request)
    ensures
        asks(command, request),
{
    match command {
        Command::Invite { key, name, expose } => Request::Invite { key, name, expose },
        Command::Accept { handle, name } => Request::Accept { handle, name },
        Command::Forget { peer } => Request::Forget { peer },
        Command::Expose { port, to, all } => Request::Expose { port, to, all },
        Command::Unexpose { port, to } => Request::Unexpose { port, to },
        Command::List => Request::List,
        Command::Key => Request::Key,
        Command::Project { peer, ip, name } => {
            let text = match ip {
                Some(a) => Some(a.to_string()),
                None => None,
            };
            Request::Project { peer, ip: text, name }
        },
        Command::Unproject { peer } => Request::Unproject { peer },
    }
}

/// What to show of an answer.
#[derive(Debug, PartialEq, Eq)]
pub enum Output {
    /// Print a line
    Line(String),
    /// Print what `list` found
    List(ListInfo),
    /// Print a line as an error, and fail
    Fail(String),
}

/// What to show, as plain values.
pub enum OutputView {
    Line(Seq<char>),
    List(ListView),
    Fail(Seq<char>),
}

impl View for Output {
    type V = OutputView;

    open spec fn view(&self) -> OutputView {
        match *self {
            Output::Line(s) => OutputView::Line(s@),
            Output::List(l) => OutputView::List(l@),
            Output::Fail(s) => OutputView::Fail(s@),
        }
    }
}

/// What to show of an answer. The client fills in its own version.
pub open spec fn shown(response: ResponseView) -> OutputView {
    match response {
        ResponseView::Done => OutputView::Line("OK"@),
        ResponseView::Key(key) => OutputView::Line(key),
        ResponseView::Invite(invite) => OutputView::Line(invite),
        ResponseView::List(info) => OutputView::List(ListView { cli: VERSION@, ..info }),
        ResponseView::Error(e) => OutputView::Fail("Error: "@ + e),
    }
}

/// What to show of an answer.
pub fn show(response: Response) -> (r: Output)
    ensures
        r@ == shown(response@),
{
    match response {
        Response::Done => Output::Line("OK".to_owned()),
        Response::Key(key) => Output::Line(key),
        Response::Invite(invite) => Output::Line(invite),
        Response::List(info) => {
            let mut info = info;
            info.cli = VERSION.to_owned();
            Output::List(info)
        },
        Response::Error(e) => {
            let mut s = "Error: ".to_owned();
            s.append(e.as_str());
            Output::Fail(s)
        },
    }
}

}
