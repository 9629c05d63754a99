# kvstore

A persistent key-value store: an in-memory ordered map rebuilt from an
append-only, line-based log, served over TCP with a small line protocol and
an interactive client.

The store, the log format, the protocol and every decision the server makes
are verified with Verus (`src/`); the programs around them, which do the file
and network I/O and read the clock, are ordinary Rust (`app/`).

## Layout

- `src/text.rs`: whitespace, trimming, splitting and decimal numbers on the
  character view of strings, as the std string methods compute them.
- `src/log.rs`: log records, their one-line encoding, the reader that turns a
  log text back into records (or the message for its first bad line), and
  what replaying records does to the contents of the store.
- `src/storage.rs`: `KvStore`, keys kept in order with values that may
  expire; opening from a log text, the record each write produces, reads,
  expiry, listing, clearing and compaction.
- `src/protocol.rs`: parsing request lines, the reply lines, and how the
  client renders a reply for a person.
- `src/server.rs`: what each request line does to the store and what is
  answered (`dispatch`), splitting input into lines, and the server's
  command-line arguments.
- `src/client.rs`: what the client does with a line the user typed.
- `app/`: the log file on disk, the TCP server loop and the client.

Time is passed to the library as unix milliseconds (`now`); a value set with
a time to live is gone from its expiry time on.

## Laws

Besides the contract of each function, `src/` states and proves:

- a log written record by record reads back as the same records
  (`log::law_log_roundtrip`), appending records appends their text and
  their effect (`log::law_log_append`), and every record the server writes is one that
  reads back so (`server::law_persisted_records_are_faithful`);
- over a whole session (records written, expired values dropped on reads,
  `clear`, `compact`), reopening the log gives exactly the session's store
  without the values expired by then (`storage::law_session_restart`);
- a store opened from a log and then given records holds, at any later time,
  the same live entries as the store reopened from that log with the
  records appended (`storage::law_restart_recovery`, from
  `log::law_log_extend`);
- whatever a log holds, what is read from it, and every store built from it
  and from the server's records, can be written back faithfully
  (`log::law_parsed_records_are_faithful`,
  `storage::law_opened_store_is_faithful`, `law_faithful_store_kept`,
  `law_commit_keeps_faithful`);
- a compacted log reads back as its records and replays to exactly the live
  data, and a store reopened from it compacts to the same text
  (`storage::law_compaction_preserves_live_data`,
  `storage::law_compaction_is_stable`);
- reads after writes, expiry, deletion and `ttl`'s three states
  (`storage::law_get_after_set`, `law_setex_expiry`, `law_del_removes`,
  `law_expire_keeps_value`, `law_ttl_states`, `law_record_touches_one_key`,
  `law_get_keeps_live_view`);
- how the client renders values, errors, key lists and status replies
  (`protocol::law_render_*`).
