# load_harness

A load harness for comparing the memory footprint of HTTP client setups, with its
decisions and its texts verified in Verus. Sixteen workers share one client and
request a single URL over and over; a reporter prints the memory of the process and
the throughput every five seconds.

| Variant | Client | Body handling |
|---|---|---|
| `reqwest_streaming`  | default `reqwest` client | dropped chunk by chunk |
| `reqwest_collecting` | default `reqwest` client | buffered whole |
| `reqwest_tweaks`     | `reqwest` with memory-conscious settings | dropped chunk by chunk |
| `ureq_streaming`     | `ureq`, on blocking threads | streamed to a sink |
| `ureq_collecting`    | `ureq`, on blocking threads | buffered whole |

## Layout

- `src/variant.rs`: the variants, their clients and settings.
- `src/worker.rs`: a worker as a state machine from outcomes to actions, and the laws
  of any run of it.
- `src/blocking.rs`: one request through the blocking client.
- `src/harness.rs`: the constants, the start line, and the workers together.
- `src/reporter.rs`: the report lines, and what their figures mean.
- `src/memory.rs`: the memory reading, through the `memory-stats` crate.
- `src/binary64.rs`: quotients in double precision, computed with integers.
- `src/decimal.rs`: decimal text.
- `app/`: the program: network calls, sleeps and prints. Run it with the name of a
  variant as its argument.
