# capture_the_ip

The logic of a small game server in which players claim IPv4 addresses by
sending requests from them; whoever holds most of a `/8` block scores it.

- `src/` is the library, verified with Verus: run modes and the subsystems
  they start, IPv4 text and its storage as a signed 32-bit number, claims
  and the batches the claim writer writes, the refresher's plan, the stop
  handshake of the background workers, the claim page, the reading of client
  addresses from request header values (IPv4 and IPv6 text, `forwarded`
  lines; `x-forwarded-for` lists are read but not added) into ordered sets,
  the database origin text and the certificates of a PEM bundle.
- `app/` is the server around it: HTTP routes (axum), the database (diesel),
  the background threads and the environment settings.
- `tests/` run the library on concrete values.
