# conduit_core (git state of a workspace)

A Verus library that decides what the `git` commands of a workspace are and
what their output means: the checked-out branch and its upstream, the changed
files of `git status --porcelain=v1`, the recent commits, the local and
remote-tracking branches, the diff of one file, and the outcome of the
commands that change the repository.

- `src/` is verified with Verus. `text` gives `trim`, `lines`, `split`,
  `splitn` and `parse::<u32>` their `str` meaning over characters; `status`,
  `commits`, `branches` and `refs` parse command output; `state` puts a whole
  refresh together; `diff` is the step-by-step diff of one file; `commands`
  holds the arguments of every command and what a failed change reports.
  The `lemma_*_roundtrip` proof functions show that what git prints in the
  requested formats is read back as what it describes.
- `app/` runs `git` with tokio and feeds the outputs to the library.
- `tests/` runs the library on concrete outputs.
