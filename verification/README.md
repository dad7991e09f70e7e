# fas-rs

Frame-aware CPU frequency scheduling for Android. The scheduler watches the frames of the
game in front, finds out which threads each frame had to wait for, and shares a frequency
budget among the CPU policies by where those threads ran.

* `src/` is the library. It decides what is done and does no I/O; all of it is verified
  with Verus, on trust of what it says of two functions of `likely_stable` and of the error
  numbers of `libc`. Whatever needs the kernel, a file, a clock or a thread is asked for as an
  action and answered with an input.
* `app/` performs the actions: the programs that run in the kernel, the ring buffers and
  maps, the files under `/sys` and `/proc`, the main loop and the worker thread. The
  floating-point formulas are there as well.
* `tests/` runs the library on concrete values.

From the kernel to the frequencies the modules are:

| module | what it decides |
| --- | --- |
| `probe`, `event`, `key` | what a probe records and when a frame is published |
| `attach`, `policies` | which probes to attach, which CPU belongs to which policy |
| `target`, `drain`, `dag` | which event is worth analysing, and the counters of its frame |
| `graph`, `score`, `walk`, `chain`, `critical`, `critical_laws`, `stats` | the critical subgraph of a frame and the time it spent on each policy |
| `analyzer`, `worker` | how weights are waited for and kept |
| `looper`, `control`, `thermal`, `usage` | when the scheduler works and what it reacts to |
| `budget`, `constraints`, `controller` | the budget, the bounds on policies, the frequencies |
| `pids`, `text` | lists of processes, and the text files of the kernel |
