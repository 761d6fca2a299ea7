# mi_motor

A chess engine core whose logic is verified with Verus.

`src/` is the verified library:

- `types`, `bitboard`: squares, pieces, moves; bitboards and attack sets
  (knight, king, pawn, sliding rays) with their geometric specifications.
- `zobrist`, `board`: the position, its Zobrist hash, making and passing
  moves; every operation keeps the board consistent and its hash equal to
  the hash of its features.
- `movegen`: pseudo-legal and legal move generation, exact with respect to
  the rules; a legal move keeps a position playable; a position read from
  text is normalised by dropping castling rights whose king or rook has
  moved and an en passant square without a pawn to take.
- `see`: static exchange evaluation and a brute-force exchange oracle.
- `fen`, `fen_roundtrip`: reading and writing FEN text; the text of a
  position reads back as that position.
- `uci`: moves named in UCI text; the text of a legal move reads back as
  that move.
- `protocolo`: what a line of UCI input asks for (the command, the FEN of
  a `position`, the limits of a `go`), and the board its moves lead to.
- `perft`: the number of legal lines of a given length, exactly the size of
  the set of such lines.
- `eval`: the integer terms of the static evaluation.
- `neural`: the checksum of a weights file, the column layout of its first
  layer, and the input features of the network evaluation; updating the
  features by the changes of a move gives the features after it.
- `search`: transposition table, move ordering, quiescence (its value
  stated as the alpha-beta value over captures, `qv_ok`), negamax with
  null-move pruning and late move reductions, iterative deepening.

`app/` is the program around it: the UCI loop, the floating-point
weighting of the evaluation terms, the network evaluation, threads.
`tests/` exercises the library: perft counts, exchange values, mates, FEN.
