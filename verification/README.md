# rumpsteak

Multiparty session types for Rust with asynchronous subtyping, as a library
whose logic is verified with Verus.

## Layout

- `src/` — the verified library.
  - `fsm`, `symbol`: communicating finite state machines, their states,
    transitions and the normaliser that numbers roles and labels.
  - `lexer`, `parse`, `token`: reading state machines written in a subset of
    DOT; `render`, `text`: writing them back (DOT, Petri-net text, local
    types, prefixes, matrices); `readback`: the proof that what `Dot` writes
    reads back as the same machine.
  - `subtype`, `prefix`, `matrix`, `pair`: the bounded asynchronous subtyping
    check and the structures it walks with.
  - `local`: local types built from state machines.
  - `predicate`, `effect`, `variables`, `session`: the refinements of a
    session (predicates on variables, side effects) and the steps that a
    send, receive, selection or branching makes on the variables.
  - `channel`: pairs of channel ends; `oneshot`: sessions between three
    participants over one-shot channels, ordered by queues.
  - `label`, `tree`, `index`, `generate`, `protocol`: the code generator —
    labels of DOT edges, the graphs of the roles of a protocol (held in
    `petgraph` graphs, with `indexmap` for roles and labels), the session
    types defined from them, and how those types are written.
- `app/` — ordinary Rust around the library: the asynchronous runtime of
  sessions over `futures` channels, the `subtype` command, error types with
  `std::error::Error`, and the askama template that lays out generated code.
- `tests/` — tests of the library.
