# delfaf

A tool that deletes the paths a file search printed, with its decisions
verified by Verus.

- `src/` — the verified library: splitting bytes on separators (`segments`),
  reading a list of hits (`hits`), the components of a Unix or Windows path and
  which paths are refused (`guard`), the
  confirmation reply (`answer`), where input comes from and how read failures
  are reported (`cache`), the steps of deleting one path and the counts of a run
  (`removal`), and the command line and exit statuses (`session`).
- `app/` — the program: file system, terminal, environment and threads, driving
  the library's decisions.
- `tests/` — tests of the library on concrete inputs.
