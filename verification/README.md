# git_switch

GitSwitch switches the active git identity between GitHub and Bitbucket
accounts: the commit identity (`user.name`, `user.email`), the token stored in
the OS credential helper, and the pin that makes `git push` ask for that
account's credential. Tokens live in the OS keychain, not on disk.

`src/` is the library, verified with Verus:

- `accounts` — the account records, the store and its operations (add,
  remove, look up, record a URL username or SSH key), token masking, and the
  keychain calls;
- `git_config` — the `git config` / `git credential` steps that switching,
  validating and removing an account perform, as data;
- `ssh_config` — reading and rewriting the `IdentityFile` of a `Host` block in
  `~/.ssh/config`, listing key pairs, reading `ssh -T` output;
- `oauth` — GitHub's device flow: request bodies and what the answers mean;
- `validate` — checking credentials: authorization headers and what the
  providers' answers mean;
- `shell_env` — taking `PATH` from the login shell: the script and its output;
- `text` — trimming, line splitting and joining as `str` defines them.

Each module states its laws as public proof functions (`law_*`).

`app/` is the desktop side: files, processes, HTTP and the serde forms of the
library's types. `tests/` runs the library on concrete values.
