# freedomnet

A local DPI-bypass proxy (SOCKS5 and HTTP CONNECT) whose byte-level logic is
verified with Verus.

- `src/` is the verified library: TLS ClientHello record splitting
  (`tls`), HTTP header-name mangling (`http`), the anonymity layer
  (`anon`), routing rules (`rules`), the SOCKS5 handshake and HTTP CONNECT
  parsing (`proxy`), DNS-over-HTTPS resolver order, answer reading and
  cache (`doh`), statistics counters and their text forms (`stats`,
  `numfmt`), the dashboard's responses (`dashboard`) and the PAC file
  (`pac`).  Every public function states in its `ensures` what it returns,
  except `Stats::uptime_secs`, whose result is clock time; the `lemma_*`
  proof functions state the properties that span calls.
- `app/` is the program around it: argument parsing, sockets, timers, the
  HTTPS client and the process-wide state.
- `tests/` runs the library on concrete values.
