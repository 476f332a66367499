# bubbledit

A library, verified with Verus, to manipulate MAME image files of Intel bubble memories, and
the GTK editor built on it.

- `src/` — the verified library:
  - `bits`, `hex`: bit/byte conversions, hexadecimal and decimal text;
  - `storage_loop`: a storage loop of 4096 bits and its 512-byte encoding;
  - `sync`: how a bootloop is recorded in a loop and found again;
  - `bootloop`: device and channel bootloops (the map of good loops);
  - `channel`: a channel's loops, the logical/physical address maps, page reads and writes,
    the encoded channel;
  - `fire`: the Fire code (14-bit check code, burst error trapping);
  - `memory`: a whole device, raw image import/export, page editing;
  - `converter`: raw images to device files;
  - `ui`: the labels, messages and decisions of the editor window;
  - `random`: the random numbers drawn through `rand`.
- `tests/`: tests of the library on concrete values.
- `app/`: the GTK editor (file and dialog handling around the library).
