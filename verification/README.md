# oxiserve

A verified core for a web server that reads nginx configurations: routing and
rewriting, static files, proxying and its cache, FastCGI, load balancing, rate and
connection limits, logs, and the supervision of workers.

- `src/` is the library. What the server decides is here, as functions on plain
  values whose contracts Verus proves. Where the server alternates between work and
  decisions (a connection, a proxied request, a FastCGI response, the master process)
  the library holds the state and says what to do next.
- `app/` is the server around it: processes, sockets, files and timers. It carries
  out what the library says and hands back what happened. A program that embeds it
  supplies the reading of configurations and the HTTP wire formats.
- `tests/` runs the library.

Text that comes from the network is bytes throughout. Regular expressions, gzip and
the parsing of response heads are those of the `regex`, `flate2` and `httparse`
crates; each call stands behind a small function whose contract names its result.
