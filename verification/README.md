# bcl

A partitioned global address space (PGAS) library, written in Verus. Every processing element (PE)
owns a symmetric segment of memory; global pointers name a PE and an address
in its segment; containers spread their elements over the PEs in equal
blocks.

`src/` is the verified library:

- `config`: a PE's configuration and the bump allocator of its segment
  (allocations are rounded to 64 bytes, stay in the segment and never overlap);
- `global_pointer`: global pointers and their arithmetic;
- `comm`: lock words and the decision of each step of taking a lock, with
  a proof that locked increments from many PEs lose no update;
- `global_guard`, `guard_array`: values guarded by lock words, alone, in
  vectors, and in an array spread over the PEs;
- `array`: a distributed array, the placement of its elements and the
  positions a slice reads;
- `containers::queue`, `queue`: distributed circular queues, each push, pop
  and peek as a decision from the counter values observed;
- `hash_table`: a distributed hash table whose insert and find are state
  machines, one remote operation per step, proved to implement a sequential
  open-addressing table; inserts that run at once, with any interleaving of
  their steps, are atomic: they act as the sequential inserts in the order
  they finish;
- `benchmark`: timing arithmetic, the FFT's bit reversal and the local steps
  of the sample sort;
- `container`, `slice`, `utils`: small helpers.

`app/` drives the library over OpenSHMEM: it performs the remote gets, puts,
atomics and broadcasts that the library's decisions ask for, and runs the
benchmarks. `tests/` exercises the library with the remote memory held in a
local map.
