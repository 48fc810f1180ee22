# mogen

A chess move generation library with a copy-make board, verified with Verus.

- `src/board`: bitboards, squares, pieces, moves, flags, the board with FEN reading and
  `make_move`, and the laws of playing moves (`consistency`).
- `src/generation`: the move masks of knights, kings, pawn captures and sliders.
- `src/magic`: magic bitboard tables for rooks and bishops, searched from random numbers.
- `src/movegen`: pseudo-legal move generation.
- `src/perft`, `src/comparison`: perft counts and their split by first move, and the
  reading of a reference engine's answers (its `uci` handshake and its `go perft` lines).
- `app`: the command line tool (perft, divide, comparison with Stockfish, table generation).

Every function in `src` carries a contract; all are proved by Verus except two small
trusted wrappers, one around `String::push` and one around the random number generator of
`rand`, whose contracts Verus takes as given. The contracts speak of the bitboards as
sequences of 64-bit numbers and of moves through their squares and promotion.
