# btrfs-peek

Reads a btrfs filesystem from userspace: read-only, on any OS, with no driver and no mount.
The library is verified with Verus; the program around it is ordinary Rust.

## Layout

- `src/` is the library: the on-disk structures, the chunk map, tree walks, lookups and
  paths, reading and decompressing files, copying and searching trees, and what is printed.
- `tests/` runs it on hand-made structures and on a small filesystem built block by block.
- `app/` is the program: arguments, devices, files, JSON.

## How it is driven

The library performs no I/O. An operation on the filesystem (`Fs::resolve`, `Fs::readdir`,
`Fs::subvols` and the like) gives its result, an error, or the `Request` for a block it
lacks. The caller makes the read, hands the reply to `Fs::supply`, and starts the operation
again; `Fs::settle` ends it. A file is read with a `RangeReader`, a tree is copied with a
`Copier` and searched with a `Finder`: each is stepped, says what it needs next, and is told
what came of it.

## What is proved

Each function's contract says what it returns, over the mathematical models that stand beside
it. Beyond that, among others:

- A read that comes to its end has handed out the contents of the file, byte for byte, where
  the extents of the file do not overlap; a range read in parts gives the same bytes
  (`read_laws`).
- A walk finds every item in the range asked for, in order, where the tree is sound as far as
  the range reaches, and a block that is used has passed its checks (`sound`).
- In a directory whose two indexes agree, looking a name up finds what is listed under it, and
  nothing else (`dir_laws`).
- Where the root tree is sound, each subvolume is listed once, as its newest root item has it; its path
  hangs below that of its parent (`subvol_laws`), and leads to it where the directory entries
  match the references it was made from (`path_laws`).
- A copy does nothing outside the destination, its temporary files included, writes through no
  link, replaces nothing in the place of an entry without leave, moves only whole files into
  place, and drops no entry in silence; with failures it never ends as a success
  (`copy_laws`).
- A compressed extent decodes to the size it declares or is an error (`decompress`), and
  remembering the last one changes no result (`read_laws`).

What is taken on trust is marked where it stands: the CRC-32C, zlib and glob crates, and a few
functions of the standard library. LZO1X segments and zstd streams are decoded by the program,
since their decoders may panic on malformed input; what the library does with every outcome is
proved.
