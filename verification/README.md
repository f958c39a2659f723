# ring_cluster

A small UDP cluster — clients, agents that balance load over three servers,
and servers that elect, now and then, one of them to go down for a while —
with its decision logic verified in Verus.

Layout:

- `src/` — the verified library.
  - `frame` — the five-byte agent frame (request data + client port), the
    servers' answer, what an agent reads from a server datagram, the agent's
    table of server status.
  - `balancer` — round-robin choice among the servers that are up.
  - `queue` — the agent's FIFO buffers, kept in a `queues::Queue`.
  - `bytes`, `decimal`, `message` — byte strings, `i32` text, and the
    `e,<address>,<value>` / `r,<address>,<value>` messages.
  - `election` — a server as a state machine: datagram in, new state and
    actions out; `util_election` — the variant that campaigns with CPU
    utilisation.
  - `random`, `clock`, `metrics` — election values, wall-clock milliseconds,
    client counters and the utilisation figure.
- `tests/` — scenarios on concrete values.
- `app/` — the programs: sockets, processes, threads, timers and CSV logs
  (`app agent|client|listener|util-listener|sender|load-test`).
