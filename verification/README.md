# chaff

Chaff is an experimental website fingerprinting defence framework built on queue machines.
This crate holds its logic as a library verified with Verus, and a command-line program
around it.

## Layout

- `src/` — the verified library:
  - `event`, `action`, `queue`, `machine`, `errors` — events, actions, timed priority queues and
    queue machines with their validation errors;
  - `framework` — the framework that runs a machine over batches of events, with the decoy
    budgets; `process` is specified as a relation over the sampler's answers, which the
    runtime notes (ghost state) with the questions asked;
  - `sim` — the simulator that runs a framework over a trace and records the defended trace;
  - `accounting` — a run keeps every packet of its trace;
  - `trace`, `unpacked` — traces, the trace builder and the two binary trace formats (the
    unpacked one with millisecond captures);
  - `tiktok`, `dataset`, `decimal`, `fmt` — the Tik-Tok text format, datasets and their
    file names, decimal text;
  - `capture` — turning captured packets into traces;
  - `cli`, `stats` — command-line errors and arguments, integer trace statistics.
- `tests/` — tests of the library.
- `app/` — the program: argument parsing, files, packet capture, random sampling and the
  floating-point parts of distributions and transition probabilities.

Random and floating-point decisions reach the library through the `Sampler` trait, which the
program implements with a random number generator. Nothing is assumed of its answers; the
contracts say which questions are asked and that the answers noted are the ones acted on.
