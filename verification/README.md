# blastcap

The core of a turn-based voxel dungeon game, verified with Verus.

`src/` is the library. Its functions carry contracts that Verus proves,
except the few small functions marked `#[verifier::external_body]` that call
outside crates (rand, pathfinding, convert_case, strip-ansi-escapes,
rapidhash, syn) or std functions that Verus has no specification of
(`String::from_utf8_lossy`, and `Debug` formatting through `format!`): their
contracts are taken on trust from those sources and their documentation,
and each says in its doc comment what it claims.

- `math`, `random`, `text`: integer geometry and square roots, the pooled
  pseudo random generator, and the string building the rest needs.
- `map`, `sparse`, `paths`, `mapgen`, `waiting`: the voxel map, an unbounded
  map of pieces, A* routes over the map, seeded floor plans, and the
  pyramid the first waiting room raises.
- `actor`, `abilities`, `game`, `states`: actors and their cards, the running
  game (moving, punching, turns, bots) and the server's state machine from
  the lobby to the game, which answers each poll of the host with a list of
  actions for the host to carry out.
- `messages`, `identity`, `network`: the messages, client ids, and the
  bookkeeping of hosts and clients (routing, connection events, framing).
- `sharpify`: the generator of the C# bindings and of the native functions
  behind them.
- `logging`, `dataset`, `poolcheck`: log line routing and panic reports,
  filing data files by hash, and the checks a byte pool must pass.

`app/` holds what Verus does not see: the sockets (TCP and Steam), the
exported C functions the front end calls, the logging subscriber, reading
data files, the file side of the bindings generator, and the floating-point
helpers.

`tests/` exercises the library on concrete values.
