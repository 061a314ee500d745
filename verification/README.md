# civ_remastered

The rules of a hex-map strategy game in the manner of Civilization V, written in
Verus: every function in `src/` carries a contract that Verus proves, except five
small trusted items whose contracts are taken on trust: the declarations of rand's
`StdRng` and `Bernoulli`, and the wrappers around rand's `gen_range`, `Bernoulli`
sampling and `shuffle`.

- `src/` holds the verified library: hex coordinates and map indices, terrain and
  tile queries, map generation (coast, lakes, areas, rivers, features, natural wonders),
  technologies and eras, the turn queue, cities (yields, growth, borders,
  citizens, production), units (movement, combat, selection) and the starting units.
  Random draws come from `rand`; what a generator does is stated over the list of
  numbers it drew, together with the range each one was drawn from.
- `tests/` runs the library on concrete maps, cities and technology trees.
- `app/` is a small headless program that plays a few turns and runs the map
  pipeline (areas, lakes, rivers, features) over a small island, and holds the
  floating-point parts of the rules (technology costs, combat damage, percentages,
  the latitude handed to the feature rules) and the serde forms of the terrain kinds.
  Terrain generation itself (a fractal over floating-point latitude bands) is not
  part of this project.
