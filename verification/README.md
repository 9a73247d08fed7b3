# textlog

A verified library for text documents that several people edit at once.

Everything that happens to a document is kept as events: each one inserts or deletes one
character of the document that its author saw. Events are known by their author's name
and count (`ann-4`), and each one names the events that it follows. Peers that have heard of
the same events read the same text, in whatever order they heard of them.

## What there is

| Modules | |
|---|---|
| `agent_assignment`, `causal_graph`, `graph`, `frontier`, `rle`, `range` | who wrote which event, and what follows what |
| `operation`, `oplog`, `copying` | runs of events, and the log that holds them |
| `order`, `history`, `tracker` | the document at a version, and its replay |
| `plan`, `merge`, `xf_runs`, `travel`, `branch`, `lengths`, `text_buffer` | merging: events moved to where they belong in a newer document |
| `patches`, `segments`, `splice`, `vec_store`, `treap_store`, `relative_to_absolute`, `xf_absolute` | replacements that are made one after the other, turned into replacements of one text |
| `full_range`, `observed_history` | history as updates, each of which summarizes a run of events |
| `events`, `wire`, `chunks`, `encoding`, `decoding`, `rebuild` | events as bytes |
| `remote_ids`, `remote_ops`, `names`, `decimal`, `sorting`, `braid` | events, edits and updates by name, as peers exchange them |
| `list_crdt`, `doc`, `admission` | documents as an editor holds them |
| `history_laws`, `convergence`, `extension`, `patch_laws`, `encoding_laws`, `update_laws`, `text_laws`, `sending` | what holds of all of this |
| `smart_string`, `text` | strings |

## What is proved

`history::document` says what the text at a version is. Everything that gives a text, a
length, an operation or a patch is stated over it. Proof functions whose names start with
`law_` state what relates several functions:

- peers that have heard of the same events read the same (`convergence`);
- transformed operations merge one version into the document at another (`merge`,
  `xf_runs`), as do the replacements made of them (`xf_absolute`); with what undoes the rest,
  they lead from any version to any other (`travel`);
- replacements of one text do what the given ones do one after the other (`patch_laws`),
  and are converted to themselves (`relative_to_absolute`);
- merging versions comes to the same in any order, and a second time changes nothing
  (`branch`);
- updates tell of every event, once, and adjacent spans of them tile (`observed_history`);
  each carries the document from what it follows to where it arrives (`update_laws`); a
  peer that is sent them as edits reads the same, and all of them make the log again
  (`sending`);
- names of events, and texts for ranges, lead back to what they were written for
  (`text_laws`);
- what is written is read back, a version and what has happened since make the whole
  (`encoding_laws`), and no bytes can be read in two ways (`decoding`).

`smart_string`, `text` and `wire` state what is taken from the `smartstring` crate and from the
standard library without proof.

`app/` binds the library to JavaScript.
