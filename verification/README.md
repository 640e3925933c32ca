# mangodisk

The decision logic of the MangoDisk disk-cleanup tool, written in Verus: the
functions in `src/` carry contracts and are proved against them, with the
exception of six small `#[verifier::external_body]` wrappers whose contracts
are trusted, not proved: `blake3_hash_bytes` (the `blake3` crate),
`current_time_ms` (the system clock), `home_directory` (the `dirs` crate),
`lowercase` and `uppercase_chars` (std's case mappings) and `push_char`
(std's `String::push`). Each states in its doc comment what it claims.

## Layout

- `src/` — the verified library.
  - `models` — rule categories, result groups, scan results, plans and actions.
  - `plan` — automation profiles, plan creation, integrity digests and validation.
  - `scan`, `scan_measure`, `scan_result` — rule status, merging the measurements
    of a scan plan, bounded source summaries and the assembled scan snapshot.
  - `application_icons` — process groups and identifiers behind the icons shown
    for rules that need an application closed.
  - `report` — the command-line rendering of a scan and the clean command's
    decisions.
  - `cleaners`, `artifact_protection` — execution order, execution steps and
    fail-closed actions of the specialized cleaners, and the ownership check of build artifacts.
  - `process_control` — matching running processes against close targets.
  - `launchd` — launchd property lists as startup items, and change decisions.
  - `directory_aggregate` — whole-tree measurement on macOS and Windows.
  - `text`, `paths`, `names`, `platform` — shared text, path and error helpers.
- `tests/` — scenario tests of the library.
- `app/` — the edges that stay unverified: serialized forms, profile parsing,
  terminal interaction, process snapshots and signals, property-list and
  directory reads, Git and `launchctl` runs.

Each `law_*` proof function states a property that holds across calls.
