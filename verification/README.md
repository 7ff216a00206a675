# Arcade cabinet: verified core

A small cabinet of children's games (Snake and a dump-truck sandbox) that
share one framebuffer, one generator and one set of host exports.

- `src/` is the verified library (Verus):
  - `engine/frame.rs`: the RGBA framebuffer. Every drawing routine states,
    pixel by pixel, what it leaves in the buffer, and none can write past the
    live region.
  - `engine/rng.rs`: xorshift32, with the state kept nonzero.
  - `games/snake.rs`: Snake's board, moves, apple placement and drawing.
  - `games/dumptruck.rs`: the dump truck's rock bookkeeping: dealing, the
    ledger of what each rock is doing and which bed or wall slot it holds
    (the number on screen is always the number of rocks in the bed), the
    tip's phases and the crushers' tallies.
- `app/` is the host side: the exported functions, the game registry, the
  fixed-step clocks and the dump truck's physics and scenery, all of which run
  in floating point, and the one sound import.
- `tests/` exercises the library on concrete values.
