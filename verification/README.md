# sigproc

Verified logic of a VITA 49 radio signal chain: a wideband stream is captured,
one narrowband channel is isolated from it, and a sink judges the result.

- `src/` is the library, verified with Verus: packet framing and parsing
  (`vita49`), continuity tracking, mixing, filtering, decimation and spectral
  measurement (`dsp`), counters and their exposition (`metrics`, `http`), the
  services built from them (`service`), test vectors (`vectors`), and the rules
  that a configuration has to meet (`config`).
- `tests/` runs the library with the machine's floating-point arithmetic.
- `app/` holds the programs: command lines, sockets, files, clocks and logging.

Floating-point numbers are held by their bit patterns (`ieee`), with their
order, casts, rounding and the conversion between samples and numbers verified.
Arithmetic on them comes in through small traits, one method per formula, of
which nothing is assumed: contracts say which formula is applied to which
values. A law that needs more of the operations, such as one result per argument,
states it as a condition.
