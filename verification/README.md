# tsfrv

A viewer for the electronic announcements that are served by Telnet over TLS. It runs as a
program in a terminal and as an edge worker that answers with a stream of text or with a session
over a WebSocket.

`src/` is the library: everything that decides and computes, with contracts that Verus proves.

| Module | Content |
|---|---|
| `telnet::protocol` | commands, options and subnegotiations, and the answers to them |
| `telnet::ansi` | removal of ANSI control sequences |
| `telnet::processor` | the state of a session: from chunks to text and answers |
| `security` | host names, ports and the list of targets |
| `security_laws` | what holds of them |
| `ip` | recognition of IP addresses |
| `session` | events of a session and what is kept of it |
| `stamp` | names that carry a time |
| `request` | what a request asks for |
| `page` | the help page |
| `text` | characters and decimal numbers |

The contracts of four outside calls are trusted, and each is stated where the call is wrapped:
`String::push` (`text`), `String::from_utf8_lossy` (`session`), the date formatting of `chrono`
(`stamp`) and the URL parser of `worker` (`request`).

`app/` is the program and the worker around the library: arguments, sockets, TLS, files and the
clock. `tests/` runs the library.
