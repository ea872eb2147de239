# dsp

The integer and structural core of a circuit-level guitar-amplifier simulator,
verified with Verus.

- `src/dsp/netlist.rs` — circuits described by name: node numbering, the parts
  and the pins they touch, the checks a circuit must pass before a solver may
  use it (output, input, stampable values, connectivity, reachability) and the
  reverse Cuthill-McKee renumbering of its unknowns.
- `src/dsp/device.rs` — where each device's stamps land in the matrix pattern,
  and where a stamp aimed at a global unknown lands in a full or condensed
  system.
- `src/dsp/partition.rs` — the index bookkeeping behind condensing internal
  unknowns onto boundary ones.
- `src/dsp/time.rs` — whether condensation pays, the structural bounds the
  factorisation walks between, and which unknowns may join the boundary.
- `src/dsp/spring.rs` — the reverb tank's delay line.
- `src/dsp/bbd.rs` — the bucket-brigade chorus's derived delay range.

`app/` holds the floating-point side: part values and pot laws, and the
chorus, spring tank, tremolo and expander that run sample by sample.
