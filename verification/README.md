# alchemy

A disk-efficient npm package manager: it resolves `package.json` dependencies
against the npm registry (the highest satisfying version of each package), stores
each package once in a global content-addressable store, and links a pnpm-style
`node_modules` in which a package can only reach what it declares.

## Layout

- `src/` — the library, written in Verus and verified:
  - `specifier`, `manifest`, `dependency`, `config`, `platform`, `workspace`:
    dependency specifiers, package.json values, `.npmrc` settings, os/cpu
    constraints and workspace members.
  - `semver`, `resolver`, `graph`, `packages`: version ranges, the resolver (a
    state machine that says what it needs fetched and is handed the answers),
    the dependency graph and the table of resolved packages.
  - `lockfile`, `import`: `alchemy-lock.yaml` values and their reading back into a
    resolution; import of npm `package-lock.json` values.
  - `integrity`, `store`, `registry`: subresource-integrity strings, store paths,
    registry URLs, headers and retry decisions.
  - `link`, `commands`: the `node_modules` layout as a list of file-system
    operations, and the small decisions of the command line.
  - `strmap`, `text`, `paths`: a sorted string-keyed map and string and path helpers.
- `app/` — the command-line program: HTTP, files, processes, YAML/JSON, and the loop
  that answers the resolver.
- `tests/` — tests of the library on concrete values.
