# rgit

Git repositories in verified Rust: objects, loose and packed storage, refs,
the index, the working tree, ignore rules, diff, blame, fast-forward merge and
the push protocol. What each function does is stated in `requires` and
`ensures` clauses and proved by Verus.

## Layout

```
src/
  bytes, notation     byte strings, decimal and hexadecimal notation, text
  codec               SHA-1, zlib, CRC-32 and base 64, from outside crates
  bytemap, idset      ordered maps by path, sets of object ids
  dir, files          directory trees and files in memory
  object/             blob, tree, commit and tag: parsing, writing, identity
  pack/               packs, deltas, pack indexes
  odb/                the object database, finding and creating repositories
  refs                branches, tags, packed refs, HEAD
  index/              the index and its file format
  worktree/           the files of a working tree, and where its paths lead
  workdir/            status, checkout, trees of the index
  treewalk            walking trees
  gitignore           ignore rules
  diff/, blame, merge line diffs, blame, fast-forward merges
  transport/          packet lines, advertisements, push requests and replies
  command/            what the commands decide and print
app/                  the command line program: arguments, disk, network
tests/                tests of the library
```

The library works on repositories in memory. `app/` loads the git directory
and the working tree from disk, calls the library, and writes back what has
changed: objects first, then the index, then what points at objects, each file
by way of a temporary one. Links in the working tree are followed; of what lies
outside it, only the files that links lead to are known.

The proof functions whose names begin with `law_` state what the library
promises across functions: that what was written is read back and canonical
bytes are written as they were read, that a push sends just what can be reached,
that a status names just the differences there are, that a checkout and the tree
built from it agree, what a merge may change, and that walks over objects come
to an end.
Most stand in modules named `laws`; the longer ones in `object/exact`,
`odb/imports`, `transport/closure`, `workdir/listing`, `workdir/report` and
`workdir/stored`.

## What is trusted

`codec` and `notation` hold the calls into outside code whose contracts are
believed: SHA-1 (`sha1`), zlib (`flate2`), CRC-32 (`crc32fast`), base 64
(`base64`) and two conversions of the standard library between bytes and
strings. Checksums and base 64 are stated in full. Digests and compressed forms
are only named; no contract says what they are for given bytes.
