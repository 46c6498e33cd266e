# bootstrapper

A build server for package recipes, with its library verified by Verus.

Recipes are YAML files under `recipes/<name>/<version>.yaml`. A client
hydrates every recipe (resolves its sources, dependencies, overlay files and
environment), hashes it, and hands it to the server. The server hands ready
recipes to workers, sends them what the build needs, and records each build
output under the recipe's equivalence hash: the hash of the recipe with each
dependency named by the hash of its build output.

Layout:

- `src/` is the verified library.
  - `recipe.rs`: recipe types, recipe hashes, and the store of recipes and
    build outputs (caches over a `sled` database).
  - `client.rs`: hydration, environment files, the hydration order.
  - `dispatch.rs`: which waiting recipe is ready, and which build a worker
    has taken on.
  - `source.rs`: cache paths and the check of fetched sources.
  - `network/`: request and state bytes, frames, and the server–worker
    conversation as exchanges and a state machine, with the laws that what
    one side writes the other reads back.
  - `text.rs`, `duplicate.rs`, `ordered.rs`: string operations, copies with
    stated meaning, and lists of named values kept in order of name; `foreign.rs`: the calls into other crates, with their contracts.
- `app/` runs the server (`bootstrapper server <worker port> <client port>`)
  and the client (`bootstrapper buildall <client port>`): sockets, files,
  downloads and the serde encodings.
- `tests/` runs the library on concrete values.
