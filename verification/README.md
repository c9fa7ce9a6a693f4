# Meerkat

Meerkat is a distributed reactive language. A program declares services with
variables and definitions; a definition follows the variables that it uses,
also over services and nodes. Actions run as transactions: they take locks
under wait-die, keep their writes to themselves until they commit, and leave
nothing behind when they fail.

The library is verified with Verus.

- `src/runtime/parser` reads programs; `src/runtime/ast` holds and prints them.
- `src/runtime/semantic_analysis` works out dependencies, renames, and infers
  types.
- `src/runtime/manager` is a node: its services, its transactions and its side
  of the network. `model.rs`, `semantics.rs` and `transactions.rs` say what a
  node does; `laws.rs`, `isolation.rs`, `quiet.rs`, `creation.rs`,
  `reactive.rs`, `calls.rs`, `settling.rs` and `replay.rs` hold what follows from
  that.
- `src/runtime/interpreter` evaluates expressions and executes statements.
- `src/runtime/actors.rs`, `src/runtime/def_actor` and
  `src/runtime/manager/action.rs` are the state of the actors that pass changes
  on.
- `src/net` is the wire format with its laws, the decisions of the network
  layer, and an in-memory network.
- `src/node` is what a server, a client and the prompt decide.
- `app` is the program around the library: files, the terminal, libp2p.

A node never waits by itself. A run that needs a reply stops as suspended; the
host undoes it, sends what it wanted to send, appends what comes in to the
inbox, and runs it again.
