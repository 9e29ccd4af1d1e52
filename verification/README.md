# herdr-hint

Hint labels for the tabs and agents of the Herdr workspace manager: every
tab and agent gets a label of letters `a` to `z` (one letter for up to
twenty-six items, `aa`, `ab`, ... for up to 676, a third letter beyond), the
overview lists the tabs grouped by workspace (one block per workspace, in the
order in which workspaces first appear) and the agents with their status, and
typing a label, one key per letter, jumps to its item.

- `src/` is the verified library: labels (`hint`), the overview (`render`),
  the hint items of the tab and agent listings (`source`), the repository
  context of an agent (`repo`), reading a label key by key (`select`) and
  small text helpers (`text`).
- `app/` is the program around it: it runs `herdr` and `git`, parses their
  JSON output, drives the terminal and focuses the chosen item.
- `tests/` holds the tests.
