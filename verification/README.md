# wuzi

Wuzi is a game like tic-tac-toe on a vertical five-by-five board: two
players, red and green, drop bullets into slots from the top, a bullet falls
to the bottom of its slot, and the first colour with five in a line (a row,
a slot or a diagonal) wins. A full board without such a line has no winner.

- `src/board/` — the board (bit masks per colour, proved to follow the
  bullets), its text and picture, and the server's answer to every request
  of the protocol.
- `src/player/` — the requests a player sends and how it reads the replies.
- `src/text.rs` — trimming, splitting and number text, with the few calls
  into std that they rest on.
- `app/` — the TCP server (mio) and the command-line player. Started under
  the name `player`, the program is the player; otherwise it is the server.
