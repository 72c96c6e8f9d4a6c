# PacketCommand

A real-time network strategy game: teams lay copper, fiber and wireless
cables on a hexagonal board, route traffic from their data centers to
neutral cities, and buy each other out. The game rules are a library
verified with Verus; the engine side is ordinary Rust.

## Layout

- `src/` — the verified library (crate `strategy_game`)
  - `hex.rs` — axial hex coordinates, distance, the board
  - `network.rs` — owners, node and cable kinds, nodes and links
  - `table.rs` — per-node routing tables over the engine's hash maps
  - `routing.rs` — shortest-path routing over active links, with its
    correctness proof and routing laws
  - `setup.rs` — the starting map
  - `traffic.rs` — data boxes sent towards cities each tick, link capacity,
    and the latency and capacity inputs of city dominance
  - `eliminations.rs` — the buyout safety lock, and buyouts handing a
    team's nodes back to neutral
  - `ai.rs` — the opponents' decisions that need no bandwidth arithmetic
  - `controls.rs` — what a click on the board does, router placement
  - `rating.rs` — match ratings from integer match statistics
- `tests/` — tests of the library
- `app/` — the engine front end: ECS components and systems, f32
  bandwidth and dominance arithmetic, a headless match runner
