# kafka_proxy

A transparent proxy in front of a Kafka cluster. Clients point `bootstrap.servers` at the proxy; the
proxy logs in to the brokers (SASL/PLAIN, SCRAM, or Kerberos), forwards frames in both directions,
and puts its own addresses into the responses from which clients learn where the brokers are.

The logic is a library written in Verus. Its contracts say what each function computes, and its
public proof functions state what holds of several of them together.

## Layout

- `src/wire.rs`, `src/layout.rs`: numbers of the Kafka protocol, and how far a decoder gets through a
  response frame.
- `src/rewrite.rs`: the rewriting of metadata, cluster descriptions and coordinator lookups.
- `src/pool.rs`: upstream correlation ids, the requests in flight, and the pool of upstream
  connections.
- `src/relay.rs`: forwarding for one client, one-to-one or through the pool.
- `src/config.rs`, `src/upstream.rs`, `src/proxy.rs`: the configuration, the login, and the way from
  both to listeners and addresses.
- `src/metrics.rs`, `src/api.rs`: the figures, and what the web endpoint shows.
- `src/text.rs`, `src/sort.rs`, `src/net.rs`: text, sorting and socket addresses.
- `tests/`: tests of the library with the real crates.
- `app/`: the program: sockets, tasks, the TOML file, the web server. It asks the library what to do
  and does it.

## What is trusted

Calls into `kafka_client` (decoding and encoding of responses, credentials), `dashmap`, and a few
functions of std go through small wrappers whose contracts are not proved. Each wrapper names the
function that it calls and says what it claims of it.
