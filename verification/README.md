# lib

Verified logic of a handful of freestanding x86-64 Linux programs (`cat`,
hello-world, an argument lister, a counter) and of a tiny mmap-backed
allocator.

- `src/` is the library, verified with Verus: hexadecimal rendering
  (`hex`), the writes the programs make (`output`, `programs`), `memset`
  (`memory`), the allocator's block layout and reallocation plan
  (`allocator`), and `cat` as a state machine (`cat`).
- `app/` makes the raw system calls and runs the programs on top of the
  library.
- `tests/` runs the library on concrete values.
