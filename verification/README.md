# giant

Build orchestration with content-addressed caching. A target is
`inputs -> command -> outputs`; its cache key is a hash over everything that can
change the outputs.

- `src/` is the engine's logic, verified with Verus: configuration and target
  selection, the build graph and its plan, cache keys, the dispatcher, the
  course of a run and of a cache hit, the session protocol, watching, discovery,
  the remote cache and the texts that commands print.
- `app/` is the program around it: the command line, files, processes, the
  network and the wire formats. It does what the library tells it to and reports
  back.
- `tests/` runs the library on concrete values.

Strings are modelled as sequences of characters and paths as their components.
What the library takes from other crates (hashing, hexadecimal and base64
encoding, glob matching, the graph with its topological order, shell word
splitting, the keys of a configuration text, lists of labels as JSON) stands
behind small trusted functions, each with a contract that says what is claimed
of the call.
