# trimr

`trimr` runs `git` for a language model and shows a compacted form of its
output (`status`, `diff`, `log`, `pull`, `push`, `commit`, `add`), with the
estimated tokens saved, while keeping git's exit code.

Layout:

- `src/text.rs`: specifications of the string operations used (`lines`,
  `find`, `trim`, `join`, decimal numbers) and verified implementations.
- `src/filters/`: the token estimate and the per-subcommand filters, with
  their contracts and laws.
- `src/commands/`: splitting a git invocation into global options,
  subcommand and arguments, and the decisions of a filtered run (which git
  runs to make and what to show), with their laws.
- `app/main.rs`: the command line (`trimr git|cost|debug git ...`), running
  git, printing.
