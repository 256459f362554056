# midi_counter

Counts the notes, the polyphony, the note density and the controller events of
Standard MIDI Files, plain or xz-compressed.

- `src/` is the library, verified with Verus. `standard` analyses a file as a
  whole: its tracks are merged into one sequence of events. `stream` analyses a
  stream in two passes, track by track. Times in seconds are left to the caller:
  the analyses tell ticks and tempos, and are told when a second is over or in
  which second an event happens.
- `message` says how the bytes of a track are cut into messages; both analyses
  are proved against it. The modules whose names end in `_laws`, and
  `transparency`, hold what is proved of the library as a whole.
- `app/` is the program: it reads files, keeps the clock and prints the result.
- `tests/` runs the library, with the real xz decoder.
