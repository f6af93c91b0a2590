# tailshare

Share the clipboard and files between machines on a Tailscale network, over SSH.

The decisions of the tool are a library verified with Verus; the command-line
program around it does the input and output.

## Layout

- `src/` — the verified library.
  - `text.rs`: character-sequence operations (lines, trimming, replacement,
    splitting, ASCII case folding, UTF-8 lengths), each specified over
    `Seq<char>`.
  - `strmap.rs`: `StrMap`, an insertion-ordered string map whose view is a
    `Map<Seq<char>, Seq<char>>` and whose keys never repeat.
  - `config.rs`: the configuration, recording and backfilling device IPs,
    finding stale device names, renaming a device, the `config` subcommands
    and resolving which device a command targets.
  - `tailscale.rs`: devices built from `tailscale status` nodes, and finding a
    device by name, DNS name or IP.
  - `ssh.rs`: SSH targets and the SSH configuration entry that setup writes.
  - `sync.rs`: renaming tailshare's blocks in the SSH configuration, planning a
    rename, previewing it, and automatic sync.
  - `clipboard.rs`, `platform.rs`, `file.rs`: previews, watch-mode state,
    clipboard commands per platform, and file-transfer paths.
  - `cli.rs`: the commands the program accepts.
- `tests/` — tests of the library.
- `app/` — the program: argument parsing, configuration files, clipboard
  tools, `tailscale`, `ssh` and `scp` processes, and printing.

The laws of the library are public proof functions named `law_*`.
