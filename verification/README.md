# yazi_excludes

Folder exclusion rules for a terminal file manager, the folder listing that
honours them, and the bookkeeping of its package manager, with their contracts
proved by Verus.

- `src/` is the verified library.
  - `pattern`, `glob`, `exclude`, `files`: glob patterns (matched by the
    `globset` crate), exclusion rules and the verdict of a list of rules.
  - `file`, `maps`, `sorter`, `exclude_filter`, `entries`: the entries of one
    folder, the `hashbrown` collections they are updated with, their order,
    and the listing with its hidden, filtered and excluded entries.
    `listing_laws` proves what every listing operation keeps.
  - `actor`: the decisions of the `excluded` and `ignore` commands.
  - `dependency`, `package`, `tally`, `fetcher`: `package.toml`, what each
    package command finds, adds, drops and fetches, and how the outcomes are
    reported.
  - `text`, `url`: string helpers and locations.
- `tests/` runs the library on concrete values.
- `app/` reads the configuration and `package.toml` with serde and `toml`,
  prints reports, hands out listing tickets, and runs the package commands
  against the machine.
