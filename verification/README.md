# bus

A bounded, single-producer, multi-consumer broadcast channel, verified with
Verus. Every value the writer broadcasts goes to every reader, in order; each
reader can fall at most `len` values behind, after which the writer has to
wait.

Values live in a ring of `len + 1` seats. Each seat records how many readers
were registered when it was written (`max`) and how many have taken it
(`read`). When the writer processes a reader's departure it stops counting that
reader on later values and discounts it on the seats it never took (`rleft`).
Once the writer closes the bus, readers still receive what was sent, then
`Disconnected`. The writer may write when the seat after the tail
is free, so that one seat always separates the newest value from the oldest.

- `src/model.rs`: the abstract state (`BusView`): capacity, every value ever
  sent, and every reader's position, plus the effect of each operation.
- `src/bus.rs`: `Bus` and `BusReader`, with contracts over the model and the
  invariant tying the seats' counters to it.
- `src/tally.rs`: counts of readers relative to one position, and their lemmas.
- `src/slots.rs`: where logical positions land in the ring.
- `src/laws.rs`: properties of the channel as a whole (every send reaches every
  reader, in order; the backlog is bounded; when a broadcast succeeds).
- `app/main.rs`: a throughput benchmark that shares the bus between threads.
