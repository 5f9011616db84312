# eth2fuzz scheduling library

The decision logic of an RL fuzzing scheduler for Ethereum consensus
clients, with its behaviour stated in contracts and proved.

- `src/` — the library:
  - `bins`: stable size order of a corpus, size terciles, evenly spread
    samples, duplicate removal by SHA-256 and pruning to a limit;
  - `coverage`: the branch-coverage figure of a honggfuzz log;
  - `metrics`: beacon-node and Prometheus snapshots, the events between two
    snapshots, and the parsers of the node's answers;
  - `engine`: arms, pull counts, the run budget, feature indices;
  - `commands`: flags and shell commands of the fuzzing engines;
  - `diff`: the decisions of the differential harnesses;
  - `report`, `config`, `text`: records, defaults and text helpers.
- `app/` — the program side: directories, HTTP, processes, serialisation,
  the floating-point policy and reward shaping, and the harnesses that call
  the consensus clients.
- `tests/` — examples for every public function and law.
