# rlogger

Ordered local logs: a logger that writes events of several instances into
hourly segment files under a private storage root, and a local reader that
browses those files, follows them live and finalizes them.

`src/` is the library, verified by Verus. Every public function states in its
contract what it returns or changes:

- `text`, `names`, `value`, `fields`, `time`: characters, names, escaped values,
  field sets and civil time, the vocabulary of the contracts;
- `model`, `engine`, `admission`, `control`, `report`, `accounting`: the logger's
  state machine, from the admission of an event to its confirmation by the
  writer, with the counters each instance keeps;
- `storage`, `segments`, `writer`, `grouping`, `worker`, `routing`, `capture`:
  the storage layout, segment names and rotation, and what the writer does with
  each queued item;
- `protocol`, `files`, `management`, `server`, `request`, `live`, `archive`: the
  reader's messages, its node cache, the state of each file and the inventory
  limits, request checks and decoding, the live session and archive headers;
- `laws`: properties that relate several functions, stated and proved once.

`app/` holds what Verus does not see: the program's entry point, the disk and
network access, the worker thread, and the adapters for `log` and `tracing`.
It feeds the library what the disk and the clock say and carries out what the
library decides.

`tests/` runs the library on concrete cases.
