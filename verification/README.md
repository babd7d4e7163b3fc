# Patchsync

Synchronises a directory, or a file, with a receiver over the Iroh network, in the manner
of rsync: the receiver says what it has, by the hashes of content-defined chunks, and the
sender answers with the changes that make the receiver's tree its own.

The library under `src/` decides everything and does no input or output. Verus proves what
its functions promise. The program under `app/` walks directories, reads and writes files,
and carries messages over the network, as the library tells it to.

- `path`, `key`, `text`: the text and the components of paths, and the keys that stand for them
- `chunker`: cutting file contents into chunks
- `dirwalker`, `listing`: what a walk finds, and snapshots made of it
- `snapshot`: changes, patches, and what has to be done to apply them
- `diff`: the changes from one tree to another
- `sync`: messages, events and the framing of messages
- `receiver`, `sender`: the two sides, as steps from an outcome to the next actions
- `tree`: what becomes of a file system when changes are applied to it
- `protocol`: the two sides taken together
- `cli`: what the program shows, and the key it keeps
- `error`: what can go wrong

The main results are `tree::lemma_sync` (applying the changes makes the old tree the new
one) and `protocol::lemma_end_to_end` (a synchronisation in which nothing fails does just
that). Both say for which trees they do not hold. `tree::lemma_sync_file` and
`protocol::lemma_file_end_to_end` say the same of a file.

Trusted without proof are `fastcdc`, `blake3`, `String::from_utf8_lossy` and the debug
output of paths, each behind one function that says what is claimed of it.
