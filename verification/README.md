# cal_core

The rules of a calendar and task application, written in Verus: what each
function returns is stated in its contract and proved.

`src/` is the verified library.

- `text`, `civil`, `order` — texts, days, instants and stable orderings, with
  the mathematical models that the contracts speak of.
- `types`, `reminder`, `color`, `adapter`, `error`, `day_marker`,
  `event_local_reminders`, `read_refusal` — the data.
- `rrule_parts`, `recurrence`, `recurrence_summary`, `series_shift`,
  `series_clock`, `spawn` — recurrence: reading and writing rules, putting them
  into words, moving a series, its zone, and the next instance of a task.
- `attendee`, `invitation`, `event_diff`, `event_anchor` — events: who is
  invited, what an edit changed, and what a row remembers of its event.
- `event_group`, `event_group_fold`, `group_carry`, `group_suggestion`,
  `suggestion_decline`, `meeting_events`, `meeting_link_grouping`,
  `conferencing` — copies of one appointment, and the meetings in them.
- `task_assignment`, `task_cascade`, `task_day`, `task_grouping`,
  `task_coverage`, `task_rows_once`, `task_collapse`, `day_start` — tasks: who
  does them, what follows from their status, where they show, and what a morning
  brings.
- `signatures`, `extras`, `envelope` — the blocks in a description, and the
  envelope that one of them carries.
- `collation` — the order of titles and names.

Beside the contracts of the functions, each module states its laws as public
proof functions: what is written is read back, nothing is lost, a second pass
changes nothing.

What the library has from `chrono`, `icu_collator`, `url`, `serde_json` and
`base64` stands behind small wrappers with a contract each. Their doc comments
say which function they call and what is taken on trust.

`app/` holds what stands around the library: the JSON doors with their serde
types, and the asynchronous traits that adapters implement.
