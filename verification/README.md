# relcomm

Reliable communication between the processes of a group over UDP: point to
point sends with go-back-N and acknowledgements, broadcasts (best effort,
uniform reliable through gossip, atomic through a leader), heartbeat failure
detection, and a replicated key-value table on top.

The library (`src/`) holds the logic, each function with its contract proved
by Verus:

- `wire`, `addr`, `text`: big-endian numbers, socket addresses on the wire,
  32-bit wrapping sums, decimal text.
- `relcomm`: the current layer. Flags, headers and packets with their wire
  form, checksum and fragmentation; the typed packet formats
  (`types_header`, `types_packet`); the listener's reception and delivery
  decisions; the sender's sequence counters, gossip friends, request plans
  and go-back-N window; failure detection; the user layer's decisions.
- `base`: the earlier single-object layer, with its compact header, its
  queue and its own failure detector.
- `hashmap`: the key-value message format, the table and the random keys and
  values its agents use.
- `harness`: the scenarios the group is exercised with, their expected
  counts, and the judging of the result lines the agents write.

`app/` is the program around it: sockets, threads, channels, timers, the
random loss of packets, files and child processes. Run without arguments it
plays every scenario, one process per agent; with `kv` first it runs the
key-value table.
