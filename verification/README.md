# rosbridge_server_rs

A WebSocket server that speaks the rosbridge protocol to its clients and
forwards their requests to ROS 2: topics, services, actions, and the built-in
rosapi services. The protocol logic is a Verus library whose behaviour is
stated in contracts and proved; the program around it does the I/O.

## Layout

- `src/` — the verified library.
  - `bridge/` — the protocol state: advertisements, subscriptions, service
    calls and offers, action goals, and what each connection holds; requests
    refused by the allowlists change nothing and are answered with the reason.
  - `access.rs` — the forwarding allowlists (glob patterns) and their checks.
  - `assembly.rs`, `wire.rs` — incoming fragments put back together, outgoing
    text cut into fragments, compression options, PNG framing.
  - `incoming.rs`, `outgoing.rs` — the per-connection request queues and the
    bounded outgoing queues that drop old topic samples first.
  - `rosapi.rs`, `rosapi_node.rs`, `parameters.rs`, `definitions.rs` — the
    rosapi replies, parameter requests, and interface definitions.
  - `json.rs`, `cbor.rs`, `encoding.rs`, `text.rs` — values and text.
  - `session.rs`, `settings.rs` — connection timing, heartbeats and close
    codes; configuration limits and log file names.
- `app/` — the program: command line, configuration files, logging, the
  WebSocket server, and the ROS side.
- `tests/` — tests run against the compiled library.

Outside crates are called from the library through small wrappers whose
contracts say what the crates' documentation promises (`glob`, `toml`,
`base64`, `png`, `uuid`).

The ROS side is reached through the `Backend` trait, whose implementations
live in `app/` and `tests/`: its contract records every call made to it, in
order, with what it was given and gave back (`Backend::handed`), and the
bridge's and the rosapi node's contracts speak of that record.
