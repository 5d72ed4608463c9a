# domain-stats

Traffic statistics for a sing-box control panel, written in Verus.

- `src/` is the verified library: the protobuf and gRPC framing of the v2ray
  stats API (`wire`, `grpc`, `stats_api`), counter bookkeeping (`counters`,
  `textmap`, `order`), traffic-name parsing (`samples`), the online snapshot,
  the process-tree walk behind the boot time (`boot`), the parsers behind the
  status page (`system`, `text`), query and collection planning (`queries`,
  `collection`), the stats API address in a core configuration (`config`) and
  the panel's default settings.
- `app/` is the service around it: SQLite through `sqlx`, the HTTP/2 call to
  the stats API through `reqwest`, system probes through `sysinfo` and
  `if-addrs`, and the periodic collector on `tokio`.
- `tests/` runs the library on concrete values.
