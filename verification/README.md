# gta_core

The deterministic core of a procedural city generator, written in Verus.

Everything in a generated city is a function of one seed. `src/` holds the parts of that
pipeline that decide things with integers, each with a contract proved by Verus:

- `rng` — the splitmix64 stream, its draws, Fisher–Yates shuffle (proved a permutation)
  and salted sub-streams;
- `noise` — the lattice hashes under the noise fields (`hash11` and `hash2_64` are
  proved collision-free, `hash3_64` within each `z` slice and along each `(x, y)` column);
- `graph` — the pedestrian walk graph: symmetric, duplicate-free links, ring closing,
  breadth-first hop counts and next hops (proved shortest), unreachable-node counts;
- `grid` — the bucket table of the uniform spatial hash (a query finds every filed item);
- `zone`, `blocks`, `roads`, `params` — the zoning, facade, roof, lamp, lane,
  road-numbering and stream-salting rules;
- `traffic` — the junction turn rules (heading and lane after a turn); no traffic model in
  `app/` calls them yet;
- `tri` — mesh index assembly and little-endian index bytes.

`app/` is the floating-point side that the verifier does not see: vectors and matrices,
noise sampling, geometry, block massing, the street network and the sky model. It calls
the library for the integer decisions of the parts it holds.

`tests/` runs the library on concrete values.
