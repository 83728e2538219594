# sysaudit

A Linux hardening audit. The program (`app/`) reviews local accounts,
sudoers and cron configuration, installed Debian packages, running script
interpreters and open sockets, and runs bundled audit tools.

The library (`src/`) holds the audit's logic, verified with Verus:

- `text`, `paths`: splitting, trimming, joining, line and word splitting,
  decimal rendering and `Path::file_name` on raw path bytes.
- `packages`: the dpkg file lists with their MD5 fingerprints, configuration
  files, download locations from the apt package indexes, the search for
  `md5sums` in a package's control archive (decompressed with `flate2`,
  `lzma-rust2` or `ruzstd` and read with `tar`), and the comparison with it.
- `users`: reading `/etc/passwd`, `/etc/shadow` and `/etc/group`, and the
  decisions taken for each account.
- `processes`, `networking`, `files`, `shell`: the process check, the socket
  table, file and directory listings, and the layout of the bundled tools.
- `digest`, `color`: MD5 through the `md5` crate and terminal colours through
  `owo-colors`.

The bundled tools (busybox, usermod, linpeas.sh, the lynis archive) are read
at run time from the `tools` directory, or from the directory named by
`SYSAUDIT_TOOLS`.
