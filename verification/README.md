# kjdb

A key-value store kept in a file of JSON lines. Each line holds one entry,
`{"key":value}`, behind a space (a live line) or a tab (a line that was
unstaged before a newer line for its key was written). Erased lines begin
with a newline, and the space they held is reused. When a writer opens the
file, it erases each line that lost to another line of its key, so that every
key keeps one line.

- `src/` is the verified library: the order of keys (`keys`), an ordered map
  from keys to values (`keymap`), the free space of the file (`gaps`), the
  line format (`record`), the records and free space of a file and the steps
  of a put and a delete (`allocator`), what those operations keep of the
  file's layout (`gap_laws`, `layout`), what reopening the file gives,
  after a complete put or delete or one cut short (`reopen`), and how the
  writer's one-line writes change the lines of the file's bytes (`lines`).
- `app/` holds the asynchronous database around it: file I/O and locking
  (tokio, fs4), JSON (serde, serde_json), streams of items, and a pool of
  readers.
- `tests/` runs the library on concrete inputs, the file held in memory.
