# porcupine_rs

A linearizability checker for histories of concurrent operations, written
in Verus: the search and the data structures it runs on are proved against
a mathematical definition of linearizability.

## Layout

- `src/` — the verified library.
  - `history.rs`: what a linearization of a history is, as spec functions.
  - `model.rs`: the `Model` and `EventModel` traits, operations and events.
  - `bitset.rs`, `skip_list.rs`, `cache.rs`: the search's data structures.
  - `partition.rs`, `events.rs`: histories turned into sorted call/return
    entries; event histories paired into operations.
  - `linearizer.rs`, `checker.rs`: the backtracking search over one part,
    and the verdict over all parts.
  - `linearization_info.rs`, `visualization.rs`: the longest partial
    linearizations found, and the data drawn from them.
  - `etcd.rs`, `kv.rs`, `jepsen.rs`, `log_format.rs`: the model of an etcd
    register, the operations of a key-value store, the line formats of
    Jepsen logs, and the turning of their lines into events.
  - `wing_gong.rs`: a smaller checker that splits a history by key and runs
    the Wing & Gong search on each key; `locality.rs` proves that deciding
    each key on its own decides the whole history.
- `app/` — what the library leaves to its caller: threads and a clock for
  checks with a time limit, the HTML page of a visualization, reading log
  files line by line, and the thread pool of the key-by-key checker.
- `tests/` — tests of the library through its public interface.
