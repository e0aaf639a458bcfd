# crowdsim

A crowd simulation in which bots walk around walls on a tile map and avoid
each other. This crate holds its grid logic, with machine-checked contracts and proofs:

- `tilemap`: the wall map with its border ring of walls.
- `meshchunks`: the outline of the walls, cut into chunks of tiles; each wall
  tile is split into four quarters whose shape depends on the neighbouring
  walls, and only chunks marked dirty are rebuilt.
- `world`: the terrain (map, mesh, and whether paths must be recomputed),
  wall editing that keeps the mesh consistent, and in `world::bot` the trail of
  past positions and the turning of raw tile paths into waypoints.
- `spatialgrid`: cells of keys for neighbour queries.
- `steer`: the steering strategies.

Everything in these modules works on integers. The program in `app/` adds
what is floating point or I/O: world-space positions, ray casts against
walls, collision response, the ORCA and time-to-collision steering, drawing
with nannou, the egui settings window and input handling.
