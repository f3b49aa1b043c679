# ruckup

Looks for outdated dependencies in a project, brings its manifests up to date and
reports what the updates change. It knows `Cargo.toml`, `package.json`,
`pyproject.toml`, `requirements.txt`, Dockerfiles and Compose files, and the
workflows of GitHub Actions.

## Layout

- `src/` is the library, verified with Verus. It decides; it does no input or
  output.
  - `plugins/` has one module for each kind of manifest: what it lists, how a
    lookup settles, and what an update writes. The modules that end in `_laws`
    relate these: what is listed of a manifest that was updated.
  - `report/` holds the analysis of updates, what changed between two lists of
    dependencies, archived packages, and the pages of a report.
  - `commands`, `select`, `table` and `console` are what the user sees.
  - `config`, `cli`, `detect` and `http` are settings, arguments, detection and
    retries.
  - `documents` and `ranges` call the crates that know JSON, TOML and version
    ranges. What the proofs take on trust of these crates stands there.
  - `chars`, `text`, `version` and `tree` are the models that the contracts speak
    of, and the functions on them.
- `tests/` runs the library, with the crates it calls.
- `app/` is the program around it: arguments, files, the network, the terminal.
