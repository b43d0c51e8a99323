# rust_shell

A small interactive shell (external commands, `PATH` lookup, the builtins
`cd`, `pwd`, `echo`, `type`, `jobs`, `history`, `declare`, `complete`,
`exit`, pipes `|`, redirections `>`, `>>`, `2>`, `2>>`, background jobs `&`,
variables, readline history and completion), whose logic is verified with
Verus.

- `src/` is the verified library: `shell_parse` (words, redirections,
  pipeline stages), `context` (variables, jobs), `table` (string-keyed
  maps), `builtin` (builtins, command lookup), `history`, `program`
  (executables on the search path), `shell` (what a line asks for),
  `shellhelper` (completion), `text` (string helpers).
- `app/` is the program around it: the line editor, files, processes and
  the environment.
- `tests/` runs the library on concrete inputs.
