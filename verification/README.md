# pai-sho

Forward ports between your own machines, peer to peer. Neither side needs an
account, a public address, or an open inbound port, and a port is reachable only
by the peers it is granted to.

The decisions are a verified library; the network, the files and the control
socket are a shell around it.

```
src/      the library: every decision, with its contract, proved by Verus
  key, addr, text, order      keys, addresses, texts, ascending listings
  grants, roster, enroll      who may reach what, who is admitted, one-time codes
  session, history            admission and authorization, and their laws
  invite, protocol            invitations and messages
  surface, netstack, resolver where a peer's ports live, and the names they answer to
  index, table, effect, peer  the peers of a daemon, and what the shell has to do;
                              peer/update binds what a peer announces, step by step;
                              peer/course says what holds of a TUN device all along
  link, tunnel                how a connection is kept up, and what opens a stream
  daemon, startup, handshake  requests, startup, and what holds between two daemons
  client                      commands, and how answers are shown
app/      the program: command line, QUIC endpoint, sockets, TUN device, files
tests/    what the library does on concrete values
```

The library takes events and returns effects. It holds no connection and opens
no file: connections and tasks are numbers to it, and time is either read from
the process's clock or passed in.

Laws are public proof functions named `law_*`. They state what holds over
several operations: that every tunnel goes back to a grant that was not revoked
since, that a code admits once, that bindings follow announcements, that a
hosts file keeps every line outside the managed block.
