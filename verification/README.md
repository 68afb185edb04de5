# foodclub

A verified model of Neopets Food Club arenas, used to study how pirates win
and how the odds maker prices them.

`src/` is the library, written in Verus and verified:

- `pirates` — game data (pirates, courses, food categories) and historical
  arenas resolved to pirate and course indices.
- `model` — the integer dice model of an arena: weight offsets, favourite and
  allergy counts, and the die-size rules of the structural model.
- `arena` — quantization, tie-breaking, random draws, Model 4 score draws, and
  the life-based hypotheses.
- `bets` — bet codes, anchors, capped payouts, arena subsets and the
  enumeration of pirate combinations.
- `slate` — the slate of anchored bets of a day, in enumeration order.
- `hashing` — day hashes, the splitmix64 generator and rejection-sampled dice.
- `stats` — ordering tests on odds, appearance and win tallies, arena
  signatures and odds quantiles.
- `food_counts` — win and appearance counts by favourite and allergy count.
- `repeats` — arenas that repeat a signature, and how far apart their odds lie.
- `scans` — rows at odds of 3 or more grouped by a key, with their counts.
- `pairs` — head-to-head records of pirates that met in an arena.
- `food_order` — a pirate's record split by where its one allergy or
  favourite stands among the courses.

`app/` is the command-line program: it reads `../pirates.json` and
`../historical_matches.json`, computes the floating-point probability mass
functions and statistics, and prints the experiments. The first argument picks
the experiment (`sim`, `analyze`, `arena_check`, `backtest`, `betlimit`,
`food_unified`, `hypothesis`, `odds_edge`, `pos_causal`, `pos_odds`,
`pos_pirate`, `symmetry_check`, `winrate_check`).

`tests/` exercises the library on concrete values.
