# subwash

Washes Clash subscriptions. Several subscriptions are fetched at once; of the nodes that they
list, those with an excluded keyword in their name and those that do not answer are dropped. Each
subscription is cut down to its limit (with regions served in turn, no region keeps more than
`max_per_region`), the nodes are renamed to `airport-region` (with `-2`, `-3`,
… where a name is taken), and they replace the proxies and the proxy groups of a local template.
The result is served at `GET /subscribe`.

- `src/` is the library. Every function of it is verified by Verus; what a few calls into
  `serde_yaml` and the standard library return is stated at the functions that make them.
- `app/` is the program around it: files, network, threads and the HTTP server.
- `tests/` runs the library.

The program needs `config.yaml` and `template.yaml` in its working directory. It listens on
`SUBWASH_LISTEN`, or `config.listen`, or `127.0.0.1:5000`.

A configuration that was built is served for 600 seconds. With `config.refresh_interval` set to a
number of seconds other than 0, it is instead rebuilt in the background at that interval and
served until the next one succeeds. A failure never replaces what was built before; with nothing
to serve, the answer is status 500.
