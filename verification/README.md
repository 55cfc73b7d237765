# nudb

A write-once, hash-indexed key-value store in the manner of NuDB, verified with
Verus.

A store is two files. The data file holds records, each a size, a key and a
value, and is appended to. The key file holds a header and the buckets of a
linear hash table; a full bucket spills into the data file. Keys have a fixed
size, integers are big-endian, and a bucket entry holds the upper 48 bits of
its key's salted xxHash64.

## Layout

- `codec`, `format`, `bucket`: bytes of integers, headers, entries and buckets.
- `hash`, `seed`: xxHash64 and the clock.
- `linear`: which bucket a hash falls in, and how a table grows.
- `walk`, `lookup`, `split`: reading a bucket and its spill records. These read
  no file; they say which bytes they need and take them.
- `write`, `table`: what each operation decides and writes.
- `search`, `store`: a store whose files are held in memory.
- `model`, `chain`, `evolve`, `effects`, `ops`, `progress`, `outcome`,
  `change`: what files store, and the proofs that each operation changes that
  as it should.
- `records`, `laws`: what the data file holds, and what the operations promise
  together.

`app/` holds the same store in a directory of the file system.
