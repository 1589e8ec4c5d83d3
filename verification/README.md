# autosilica

The core of an instrument platform, written in Verus. The functions under
`src/` carry contracts that Verus proves, except a few small trusted
wrappers (marked `#[verifier::external_body]`) around calls into `chrono`,
`uuid` and std, whose contracts are stated from those crates' documentation
and taken on trust.

* `text` — trimming, splitting, joining, decimal rendering and code-point
  order over `Seq<char>`.
* `idn` — the `*IDN?` reply parser (vendor, model, serial, firmware).
* `clock`, `instrument` — instants from `chrono`, UUID identifiers from
  `uuid`, instrument records.
* `repository` — the repository port and its in-memory adapter.
* `connection`, `pool` — connection records, the connection-manager port and
  the pool's state machine (connect, disconnect, heartbeat, reconnect).
* `discovery`, `visa` — ordering of discovered resources, identifier
  generation, assembly of discovered instruments, VISA status handling.
* `dto`, `use_cases`, `api_error`, `errors`, `settings` — wire shapes, use
  cases, HTTP status mapping, error messages, configuration.

`app/` is the server around it: configuration loading, logging, the Axum
HTTP layer and the VISA C library calls (loaded at runtime through
`libloading`), which hand their outcomes to the verified pool and discovery
functions.
