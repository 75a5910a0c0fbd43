# ms-gateway

An API gateway: it matches request paths against routing rules, checks tokens, balances load over
the upstreams that are in service, and forwards requests and WebSocket connections.

- `src/` is the library. What the gateway decides stands there, with contracts that Verus proves:
  path patterns and rules (`path_matcher`, `config`), load balancing (`load_balancer`), health of
  upstreams (`health_check`), tokens and identities (`auth`), what is sent and answered (`proxy`,
  `websocket`, `server`, `error`, `message`), and what comes from a Nacos server (`nacos`).
- `app/` is the program around it: files, sockets, tasks.
- `tests/` runs the library.
