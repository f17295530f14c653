# intentionality

A desktop companion for working with intent. It keeps a board of what you set
out to do, watches what the computer was doing meanwhile, asks a model now and
again how the two compare, and takes notes of meetings.

The logic is a Verus library: each function states what it returns or changes,
and the verifier proves it.

- `src/` is the library.
  - The store: `rows`, `table`, `db`, `board`, `meetings`, `analyses`.
  - What is observed: `aw`, `observed`, `stretches`, `time`.
  - What a model is asked and what it answers: `prompt`, `blocks`, `json`,
    `recommendations`, `analysis`, and the module of the service itself.
  - Meetings: `record`, `level`, `gain`, `audio`, `transcribe`, `attach`,
    `ooxml`, `meeting`.
  - The running app: `state`, `scheduler`, `commands`, `notify`, `build_info`,
    `resume_units`.
  - Below them: `text`, `paths`, `sort`, `round`, `error`, `models`.
  - `laws` states what holds across operations of the store.
- `tests/` runs the library.
- `app/` is the program around it: the window, the database, the network, the
  microphone and the timers.

Calls into other crates stand behind small functions marked
`#[verifier::external_body]`. What their contracts claim is believed, not
proved, and is said above each of them.
