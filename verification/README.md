# Island

Island runs programs in a Landlock sandbox chosen by profile: a profile
applies beneath the directories its contexts name, sets environment
variables, and gives the sandboxed program isolated workspace directories
(XDG directories and `TMPDIR`).

The library (`src/`) holds the logic, with its contracts proved by Verus:

- `path`, `text`, `pathset`, `envmap`: Unix paths as the standard library
  reads them (components, order, `join`, `parent`), the string operations the
  rest relies on, sorted sets of paths and sorted maps of variables.
- `context`: activation contexts and the set that keeps only the broadest of
  overlapping contexts.
- `config`, `resolved`: profiles, their names, the resolution of the profiles
  that apply to a directory (broadest context first) or that are named.
- `lock`, `workspace`: what a shared or exclusive profile lock allows, the
  planning of workspace directories and the environment they give.
- `elf_utils`, `dependency_tree`: what an ELF object needs (interpreter,
  search paths, libraries), the step-by-step resolution of an executable's
  libraries, and the decisions around repeated `lddtree` analyses.

The program (`app/`) does the rest: command line, reading profiles from disk,
locking, creating directories and symlinks, reading files for the library's
resolution steps, Landlock rulesets and running the command.
