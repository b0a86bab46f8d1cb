# photoflow

A small CLI for a personal photography library: dated import folders, cleanup of
throwaway JPEGs, an idempotent Backblaze B2 backup of the originals, and dated export
folders. Every command is safe to run twice.

The decisions are a library verified with Verus; the program around it does the I/O.

- `src/` — the verified library.
  - `naming` — year and `MM-Month` folder names, export slugs, `YYYY-MM` and
    `YYYY-MM-DD` parsing, dates (through `chrono`).
  - `path`, `order`, `text` — Unix path components, file names and extensions, the
    component-wise and code-point orders, and the string helpers they rest on.
  - `fs_util` — case-insensitive extension matching and the rule that prunes hidden and
    excluded entries from a walk.
  - `config` — the configuration, its defaults, `~` expansion (`shellexpand`), the
    config location (`directories`) and the credentials (environment, OS keyring).
  - `commands` — per subcommand: the month and export folders, the files `clean`
    trashes, the backup candidates, their object keys, the upload plan, the retry
    policy and the run's report, and the `status` summary.
- `app/` — the `photoflow` binary: argument parsing, walking the trees, reading and
  writing the config file, creating folders, the OS trash, the B2 client, progress bars
  and prompts.
- `tests/` — tests of the library on concrete values; the walks, the trash and the
  remote store are stood in for in memory.

Among the proved properties: a second `clean` over what the first left finds nothing;
a second `backup` after a successful one uploads nothing; month folder names sort
chronologically; slugs are stable under re-slugging; the status rows add up to the
total.
