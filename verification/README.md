# nakamoto

The connection logic of a Bitcoin light-client, verified with Verus: which peers
to connect to, which connections to turn down, and where the first addresses come
from.

- `src/connmgr.rs`: the connection manager, its configuration and its events.
- `src/state.rs`: what the peers become, and what the network is told, as
  mathematics; the contracts of the manager speak of it.
- `src/laws.rs`: what holds of the connections as a whole.
- `src/table.rs`, `src/peer.rs`: the peers that are known.
- `src/channel.rs`: what is asked of the network, and who receives it.
- `src/source.rs`: where the addresses of peers come from.
- `src/net.rs`, `src/time.rs`: addresses and time.
- `src/client.rs`: start-up of the client, as a sequence of requests and answers.
- `app/`: start-up against the disk and DNS, display, and conversions.
- `tests/`: tests of the library.
