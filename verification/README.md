# shudb

An embedded key-value store: a B+ tree over pages of 4096 bytes. Keys and values are byte
strings. The tree, the slotted pages and the page table are verified with Verus; reading and
writing the file is not.

## Layout

- `src/error.rs`: the errors.
- `src/storage/page.rs`, `header.rs`, `codec.rs`: pages, the database header, and their bytes.
- `src/storage/slotted.rs`: what each operation on a leaf or internal page makes of it, as a
  function of the page. `btree_page.rs` carries these operations out.
- `src/storage/pager.rs`: the pages in memory, and which of them are to be saved.
- `src/storage/tree_model.rs`: what each operation on the tree makes of the pages in memory.
  `btree.rs` carries these operations out.
- `src/storage/tree.rs`: the tree that the pages form, and what it means that a database is
  whole and says this or that of keys.
- `src/storage/*_laws.rs`, `tree_*.rs`: what is proved of all this.
- `app/`: the database over a file.

## What is proved

- Every function does exactly what its model says, on every input, whatever the pages hold.
  None panics or overflows.
- What is written to a page is what is read from it: `slotted_laws.rs`.
- A new database is whole and empty: `new_database_is_empty`.
- In a whole database a key is found with its value, and no other key is found:
  `get_finds_value`.
- A record that fits a leaf page is put, unless the page numbers are used up. The database is
  whole afterwards and differs in that key alone, unless the root was left with more
  separators than fit it: `put_gives_value`, `put_is_found`. With keys of at most 444 bytes
  that never happens: `put_short_key`.
- A record that fits no leaf page is refused: `large_record_refused`.
- Records are spread over the fewest pages that hold them: `leaf_groups_are_fewest`,
  `internal_groups_are_fewest`.
- Whatever a put changes is marked to be saved: `put_marks_changes`.
- A whole database that is saved, opened again in the same byte order and supplied with its
  pages says the same: `reopened_says_same`.

## What is trusted

Two calls into `bytemuck` that turn a `u32` into its bytes and back, and one of std's
`u16::to_ne_bytes` that shows the machine's byte order, all in `codec.rs`.

## Byte order

The numbers of the headers and the child ids are saved in the byte order of the machine; cell
pointers and lengths have the low byte first everywhere. A file is to be read on a machine with
the byte order of the one that wrote it.
