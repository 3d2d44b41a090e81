# baeum

The core of an evolutionary fuzzer, written in Verus: the byte-buffer
mutations, the decoding of the coverage feedback that the target writes,
the session counters and the status report, each with a contract that
Verus proves.

- `src/mutate.rs`: the twelve mutations. Each random mutation states the
  set of results it may give. A function one call down takes the random
  choices as arguments and states its result exactly (`*_at`, `*_drawn`,
  `select_block_at`, `mutate_kind`), including where nothing comes back;
  the shuffles state only that the chosen block is permuted, since the
  permutation comes from `rand`.
- `src/decimal.rs`, `src/bytes.rs`: decimal text and byte-order values that
  the mutations read and write, with their round-trip lemmas.
- `src/exec.rs`, `src/fuzz.rs`, `src/stat.rs`, `src/seed.rs`,
  `src/conf.rs`, `src/web.rs`: feedback decoding, run statistics, file
  names, the target's command line, the status report and which files the
  status server may serve.
- `src/random.rs`: the calls into `rand`.
- `app/`: the program around the library: command line, files, the fork
  server, the fuzzing loop and the web server.
