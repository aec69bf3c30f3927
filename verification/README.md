# Titanium

A Quoridor engine whose rules, tables and search are verified with Verus.

- `src/position`, `src/movegen`, `src/path` hold the board, its legal moves and
  the ways over it. A wall is legal if it fits and leaves both players a way.
- `src/ace` holds the form of the game that the search works on, the races
  without walls, the certificates, the search itself, and the session and the
  engine behind it.
- `src/cat` and `src/search` hold heats, orders, planned reductions, tables and
  the words of the protocols.
- `src/arena.rs` and `src/duel.rs` play games between engines; `src/cli.rs` and
  `src/commands.rs` read the command line.

What rests on floating point reaches the library through functions that it is
given, or as ratios and texts. `app/` supplies them, together with threads,
files and standard input and output. `tests/` runs the library.

A search reads the time from a clock that it is given. On the machine's clock
the contracts say what holds whatever it shows; on one that stands still they
say which depths are searched, and that nothing is cut short before the budget.

What the score of a search means is said in `src/ace/score.rs`: every score goes
back, move by move, to positions where the game is over or the depth of the plan
ends.

The laws of the library are public proof functions beside what they speak of,
among them: a legal move leaves both players a way; taking a move back restores
the position; a game and its board stay in step; ranking keeps every move; a
search that can arrive does; who runs home in a certificate can force the win;
on a board without walls the race resolver agrees with the exact table; at the
start of a game no small search certifies anyone; pondering ages nothing; a game
converted from a board agrees with one that made the same moves; whatever an
engine is asked, its table holds scores of searches.
