# jack-vm

The memory model and the bytecode parser of a virtual machine for the
Jack/Hack stack language, verified with Verus.

- `src/memory.rs`: main memory, screen and keyboard; `push`, `pop`, call
  frames, `peek` and `poke`, with their contracts and the laws that relate
  them.
- `src/text.rs`: lines, comments, white space, words and numbers of a
  program text.
- `src/parser.rs`: commands and segments, and `parse_bytecode`, whose result
  is stated exactly by the spec function `parse_spec`.
- `app/lib.rs`: raw pointers to memory for a host page, and a loader that
  reports a refused text on the browser console (`web-sys`) and stops.
