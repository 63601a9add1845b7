# kvs

A log-structured key/value store. Every run of the engine opens a new log
file `<generation>.log` in its directory and appends the commands it
executes there as JSON. On opening, it replays the commands of the older
log files to rebuild its in-memory index from each live key to the log
position of its latest write; reads follow the index.

- `src/` is the verified library: the commands (`command.rs`), the errors
  (`error.rs`), the naming and listing of log files (`log_files.rs`), the
  engine's state and decisions (`store.rs`) and the properties that relate
  them (`laws.rs`).
- `app/` holds the three programs (`kvs`, `kvs-client`, `kvs-server`,
  chosen by the name the binary runs under), the file and network I/O, and
  the serde and failure copies of the library's types.
