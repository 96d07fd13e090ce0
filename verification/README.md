# reader_core

The English Crystal (Virtual Console) part of a Game Boy RNG reader, written in
Verus: the Dratini DV filters, the DIV trackers and the Random routine, the
calibration of read transforms and the nearest-target search, the receipt check,
the game-state accessors over a snapshot of the Game Boy address space, and the
decisions of the manual ExtremeSpeed Dratini helper.

- `src/crystal/dratini_rng.rs`: DVs, filters, DIV steps, `random`, `Rng`,
  `Model`/`Sample`, `Calibration`, `Search`, `verify`, eligibility and claim
  progress, with the laws that hold of them.
- `src/crystal/dratini.rs`: the helper's state and what it does on a frame's
  input, on arming, on each overlay update and on receipt.
- `src/crystal/reader.rs`, `gb_mem.rs`, `pk2.rs`: reads of English Crystal's
  memory from a snapshot of the 16-bit address space.
- `app/lib.rs`: the overlay glue, generic over the plugin host: it reads memory
  and trackers, keeps the helper's state, requests the pause and prints the page.
