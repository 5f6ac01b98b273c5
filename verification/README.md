# Memory accounting from `/proc`

A verified library, with a small command-line front end, that explains where
the RAM of a Linux machine goes:

- the physical System RAM regions of `/proc/iomem`, nested in the memory zones
  of `/proc/zoneinfo`;
- the kernel modules of `/proc/modules` and their sizes;
- the process tree with the private and proportional memory of each process
  and of each subtree (`/proc/<pid>/{smaps,status}`), and the shared memory of
  executables and libraries;
- the memory usage hierarchy built from `/proc/meminfo` and those totals.

Everything is sorted so that the heaviest consumers come first.

## Layout

- `src/` is the library, verified with Verus: every function states in its
  contract what it computes, over spec functions that read the files line by
  line, and the laws that hold across calls are proof functions.
  - `text.rs`: lines, words, trimming and number parsing on chars.
  - `sort.rs`: a stable sort by key and its properties.
  - `tree/`: address regions, their nesting, and the tree of regions.
  - `proc/`: the readers of the `/proc` files and the process tree.
  - `summary.rs`: the memory usage hierarchy.
- `app/main.rs` reads the files, calls the library and prints.
- `tests/` runs the library on sample file contents.
