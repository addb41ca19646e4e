# herdr-spreader

Builds herdr workspaces (tabs, panes, commands) from a YAML layout file,
with the layout logic proved correct by Verus.

- `src/` is the verified library:
  - `cli` — the command line (`apply`, `apply-existing`) as a grammar over
    words, and a parser proved to follow it;
  - `config` — the layout types, where the layout file is looked for, and how
    roots and working directories are home-expanded and made absolute;
  - `paths`, `env`, `text` — Unix path joining and normalizing, the ordered
    environment-variable map, character-level string helpers;
  - `validate` — the errors and warnings of a layout, in order;
  - `backend` — the operations a herdr instance offers, and `Traced`, which
    keeps a record of every call made and what it returned;
  - `plan` — the steps a build asks of herdr, stated over the layout alone
    (pane lists and layout trees), and how a record of calls is read
    against them;
  - `engine` — the build itself, whose contract says that the calls made are
    exactly the planned steps, threaded through the identifiers herdr handed
    back, up to the first failure;
  - `plugin` — the decisions taken when applying to an existing workspace.
- `app/` is the program around it: reading files and the environment,
  parsing YAML, running the `herdr` command line, printing.
- `tests/` holds the scenarios, run against a mock backend.
