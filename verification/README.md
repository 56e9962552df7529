# sdproxy

Three small proxies that carry SSH through HTTP and TLS, as one library and one
program.

- The plain proxy greets a client with two replies and tunnels it to SSH or to
  a VPN service, by what the client sends next.
- The split proxy serves sessions: one long chunked reply carries a session
  down, and uploads carry it up.
- The tunnel proxy serves sessions as plain byte streams, and tunnels every
  other client to SSH.

`src/` is the library, verified with Verus. A connection is a state machine:
`action` says what to ask of the network, and `step` takes what became of it.
What a connection does is stated by the functions `pending` and `next` of
`proxy`, `split` and `tunnel`; the proof functions at the end of these modules
state what holds of whole connections. The other modules read requests, paths,
numbers and options, write replies, and set up TLS.

`app/` performs the actions with tokio. The name that the program is called by
chooses the proxy: `xhttp` is the tunnel proxy, `splithttp` the split proxy, and
any other name the plain proxy. `tests/` runs the library on concrete values.
