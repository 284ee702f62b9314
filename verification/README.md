# riiry

A fuzzy launcher: type a few letters and pick an application or a file
under your home directory.

- `src/` is the verified library: the searchable state (`state`), the
  filters and their ranking (`filter`, `ranking`), the rules for desktop
  entries and home files (`applications`, `files`), cancellation of
  background work (`worker`) and the decisions of the window
  (`ui::session`).
- `app/` is the program around it: walking directories, reading desktop
  entries, starting processes, the GTK window, and the ordering of rff's
  floating-point scores.
- `tests/` exercises the library on concrete values.
