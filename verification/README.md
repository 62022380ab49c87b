# peer_discovery_center

Finding the peers of a torrent: trackers, the DHT, peer exchange, local peer
discovery and web seeds behind one interface, with a cache, a crawler, a UDP
tracker, port mapping and an agent that works for a controller.

The logic is a library whose behaviour is stated in contracts and proved by
Verus. What needs sockets, files, clocks that tick by themselves or serialised
formats is an ordinary program around it.

## Layout

- `src/` is the library.
  - `types`, `net`, `text`, `bytes`, `compact`, `seqs`, `sort`, `vecmap`,
    `addrset`, `turns`: data and the tools for it.
  - `clock`, `random`, `digest`, `bencode`, `percent`: the edges to the standard
    library and to other crates.
  - `discoverers`: one module for each way to find peers. A discoverer is a
    state machine: it says what to send and takes what came back.
  - `aggregator`, `cache`, `control_plane`, `data_plane`: what is made of it.
  - `crawler`: a DHT node that answers queries and keeps what is announced.
  - `agent`, `service_resolver`, `server`, `auth`, `peer_filter`, `persistence`,
    `port_mapping`, `history`, `health_check`, `config`, `cli`, `bootstrap`: the
    service around it.
- `app/` is the program: command line, HTTP, UDP, files, timers, metrics.
- `tests/` runs the library on concrete values.

## Conventions

A function that depends on the clock or on chance comes twice. The one whose
name ends in `_at` or `_drawn` takes the time or the draw as an argument and has
an exact contract. The one without the ending reads the clock or draws, and
promises that the outcome is the exact one for some time or some draw.

Laws that relate several functions are public proof functions whose names begin
with `law_`.
