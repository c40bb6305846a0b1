# tickchaos

A protocol-aware UDP degradation proxy for testing market-data feed handlers:
it drops, delays, duplicates and reorders datagrams, and drops exact
MoldUDP64 sequence numbers, all from one seed.

The library under `src/` is verified with Verus; `app/` is the runtime around
it (sockets, timers, the HTTP control plane, configuration parsing).

## Layout

- `src/domain/`: sequence numbers, spans of time, packets, FIX messages,
  the `Operator` and `SequenceExtractor` traits, the library's errors.
- `src/protocols/fix.rs`: the FIX framer, with the wire format stated as
  `frame_layout` over byte sequences and its laws (a message is cut whole
  whatever follows it, a partial message waits, failure is sticky, the buffer
  of a live stream stays under the message cap, session fields are read out of
  the body).
- `src/protocols/moldudp64.rs`: the MoldUDP64 header's big-endian sequence
  number.
- `src/scripts/`: the integer-valued operators (`drop_seq`, `gap_burst`,
  `jitter`); the probability and rate operators live in `app/`, since they
  decide with floating point.
- `src/flows/`: the ordered operator chain, where the first operator that
  does not forward decides.
- `src/backgrounds/`: the counters, and the dispatch of an effect against the
  delay-queue cap, with the queue kept bounded.
- `src/config/`, `src/transport/`: scenario defaults and the extractor a
  scenario selects; the framing side of a FIX TCP connection.
- `src/support/`: the contracts given to the `bytes` and `rand` items and to
  std's time types that the verified code calls.
