# patch_hub

The verified core of a terminal front end for reviewing kernel patches from
mailing lists (through `lei` and lore archives).

- `src/components/patchsets.rs`: the thread model of a `lei` JSON dump —
  replies recorded per message id and ordered latest first, thread starts
  ordered by the latest activity in their thread, the indented view of an
  opened thread, and the selection.
- `src/components/lei.rs`: the status of a maildir synchronisation (mode,
  spinner, "finished" notice) and the step function of one synchronisation
  run (announce, probe, `lei q` when the maildir is missing, `lei up`,
  announce the end).
- `src/components/ktree.rs`: the kernel tree component's key and action
  handling.
- `src/text.rs`: the byte order of text that `str` comparison uses, with its
  order laws.
- `app/`: reading dumps, serde and display copies of the actions, key
  events, drawing with ratatui, and running `lei` with tokio.
