# nnue_threats

Input features for chess evaluation networks trained with bullet: king-bucketed, mirrored
piece-square inputs with a factoriser, and threat inputs (one feature per attacking piece,
square, attacked piece and target square).

The library is written in Verus. Its attack generation (lookup formulas for pawns, knights
and kings, hyperbola quintessence for diagonals, shifted lookup for ranks and files) is proved
equal to the chess definition of each move; the feature indices are proved equal to their
layout and within the range of the feature tables; each piece-square and threat index is
proved unchanged by mirroring the files, and black's index proved equal to white's on the
colour-swapped, rank-mirrored board; on boards with one piece per square and no pawn on the
first or last rank, the threat features of a perspective are proved distinct, unchanged (as a
multiset) by mirroring the files of the board and the king, and, for black, equal to white's on
the colour-swapped, rank-mirrored board; the bucketed threat features are proved distinct on
such boards and unchanged by mirroring the files; and both sides of a position are proved to see the same number of
threats. The totals of the feature tables (60720 threat features, and 39928 bucketed ones per
side) are proved from the offsets, so every input feature is proved below `num_inputs()`.

- `src/bitboard.rs`, `src/geometry.rs`: bitboards and the moves of the pieces.
- `src/attacks.rs`, `src/slider.rs`: attack sets.
- `src/full_threats.rs`: threat features numbered by coloured piece and target kind, with the
  bucketed piece-square inputs.
- `src/threat_inputs.rs`: threat features numbered per piece type, both sides in one board.
- `src/board.rs`: positions in the packed training-data layout.
- `src/threat_balance.rs`, `src/bucket_balance.rs`: the two sides' threat counts agree, and no
  feature is emitted twice.
- `src/threat_mirror.rs`: the threat features under the two board mirrors.
- `src/table_sizes.rs`: the sizes of the feature tables.
- `app/`: the training program and bullet's input traits.
