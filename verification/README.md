# sand_sim

A falling-sand cellular automaton (sand, water, stone, wood, fire, smoke on a
400 by 300 grid), written in Verus.

- `src/grid.rs`: cells, the grid, its operations (get, set, swap, paint,
  the frame update, the RGBA image) and the specification of a whole frame.
- `src/rules.rs`: densities and the per-material rules, each an executable
  function proved against a spec function of the same behaviour.
- `src/laws.rs`: properties of the rules and of a whole frame (material
  conservation, stone never moves, wood only burns, every cell visited once).
- `src/random.rs`: the one call into macroquad's random generator.
- `app/`: the window, input and drawing with macroquad.
