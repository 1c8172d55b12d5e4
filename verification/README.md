# kernel_fs

A library of kernel filesystems with verified contracts.

- `src/` is the library. Its functions are verified by Verus against their contracts. The
  exceptions are four calls of the standard library on text, which `text` wraps and whose
  contracts are taken on trust, and `String::push`.
  - `simplefs` — the native filesystem: images, mounting, lookup, files, links, attributes,
    two-phase commits, repair, staging of installs.
  - `tmpfs` — a filesystem in memory with a quota.
  - `iso9660`, `squashfs`, `ntfs`, `luks2` — formats of other systems.
  - `procfs`, `servicefs` — read-only views of processes and services.
  - `pipe`, `partition`, `layout`, `path`, `filesystem`, `lock_timing` — the rest of what a
    kernel needs around them.
- `tests/` runs the library on concrete values.
- `app/` is ordinary Rust around the library: clocks, locks, waiting and printing.
