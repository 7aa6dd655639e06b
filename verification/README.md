# codex_relay corpus recorder

`src/` is the verified library:

- `corpus.rs`: the chain bookkeeping of the conversation corpus. A model
  (`ChainIndex`) of the remembered responses and their recency order, the
  `CorpusRecorder` that implements it with a `StringHashMap` and a `VecDeque`
  and keeps the model's well-formedness as a type invariant,
  `record_turn`, which decides for each completed turn which messages are new
  and which conversation they belong to, and the laws of that bookkeeping,
  up to the rebuilding of a whole conversation from a chain of turn events
  and the date order of the daily file names.
- `calendar.rs`: the proleptic Gregorian calendar stated directly
  (`days_since_unix_epoch`), `civil_from_days` proved against it, and the
  `YYYY-MM-DD` rendering used to name the daily corpus files.

`app/` holds what touches the world: the mutex that shares a recorder between
handlers, the clock, JSON serialisation of the turn events and appending them
to disk.
