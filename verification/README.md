# change_store

A store for the changes of a replicated document. Each peer has a history of changes; the
history is kept in blocks, which are cached in memory and stored in a key-value store.

The library in `src/` is verified with Verus:

- `ids`, `op`, `change`, `version`: identities, operations, changes and version vectors.
- `block`, `block_ref`, `block_map`: blocks of changes, references into them, and the blocks in
  memory.
- `format`, `stored`, `codec`, `raw_op`, `raw_format`: how operations are stored, and a kind of
  operations on containers of bytes with its stored form.
- `kv_store`: the key-value store.
- `split`: how a change that is too large for one block is cut into pieces.
- `log`, `log_validity`, `store_view`, `read_view`, `flush_view`: what a store holds, and what its
  operations do to it.
- `change_store`: the store.
- `insert_laws`, `iter_laws`: what holds of inserting and of iterating as a whole.
- `text_container`: text containers.
- `outside`: what is taken on trust of other crates.

The contracts speak of the log of a store (`store_view::log_of`): the changes of every block,
whether it is in memory or stored. A store can be read (`store_view::store_readable`) when its blocks
are valid and the log has no holes, and is valid (`store_view::store_valid`) when the log goes as far
as the store knows, too. Reading and flushing keep a store readable, and valid if it was; inserting
asks for a valid store and keeps it so. `fork` and `decode_all` ask for neither and promise neither:
a fork lacks the changes that were not flushed, and the bytes to decode may come from anywhere.
`flush_view::lemma_fork` and `flush_view::lemma_encode_decode` say when the result is valid, and
`ChangeStore::is_readable` and `ChangeStore::is_valid` tell.

`app/` shares a store between threads.
