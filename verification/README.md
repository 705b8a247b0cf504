# riichi_bot

A verified library for riichi mahjong hands: tiles and their MSPZ text, hand shapes and
groupings, shanten and ukiere, yaku, han/fu and scoring of closed hands (hands with declared
melds are not scored), a small mahjong variant with a
simulator and discard strategies, and a Monte Carlo tenpai analysis.

- `src/`: the library, verified with Verus; contracts are stated over count arrays
  (`Seq<u8>` of length 34) and spec functions of the hand shapes.
- `tests/`: tests of the library.
- `app/`: the program around it (simulation runs, printing, averages).
