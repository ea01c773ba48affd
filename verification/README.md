# dakoku

A punch clock for the command line that records work time per repository, with its
core verified by Verus.

- `src/` is the verified library: path handling (`paths`), the settings and the
  repository a session belongs to (`config`), sessions and records (`store`), the
  values of `--at` (`timearg`), the printed forms (`format`), dates and instants
  (`time`), and what each command decides and prints (`commands`). The laws it keeps
  (for example that `expand` undoes `shorten`, that a label set on a path is the label
  read back, that unsetting undoes setting, and that the totals of `log` add up) are
  public proof functions whose names begin with `law_`.
- `app/` is the program around it: argument parsing, the environment, the files under
  `~/.dakoku`, and the JSON forms of the settings, the session and the records.
- `tests/` runs the library on concrete values.
