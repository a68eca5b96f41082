# ClipSync

Copy on one machine, paste on another: text, images and files, encrypted and directly
between your own devices.

This crate holds ClipSync's decisions, each with a contract that Verus proves:

- **Files on their way** — what a device offers (`filetransfer`), what it keeps of what it
  received (`filecache`), and what every message and every change of the clipboard leads to
  (`hub`).
- **Connections** — which of many addresses to try first (`addrbook`), which of several
  connections to use (`net_dial`), whom to let in and when to try again (`net_manager`),
  and the rounds of one connection (`net_pump`).
- **Pairing** — codes, sessions and guesses (`pairing_session`, `pairing_cli`), finding the
  host (`host_probe`), the group of paired devices (`known_peers`, `pairing_ui`), and
  joining step by step (`pairing_join`).
- **What the user sees** — the tray's menu, icon, status and texts (`tray*`), settings and
  languages (`config`, `language`), typed sizes and rates (`size_parse`), dialogs and their
  layout (`dialog`, `prompt_layout`), the command line.
- **Groundwork** — characters and numbers (`text`, `digits`), doubles as integers
  (`binary64`, `rate`), IPv4 addresses (`ipv4`), the time of day (`wallclock`).

All of it works on plain values; time is an argument. The laws that relate several
functions stand beside them as public proof functions, for instance that a resumed transfer
restores the file (`filetransfer::whole_run_restores_the_file`), that a session takes fewer
than five wrong codes (`pairing_cli::guesses_are_capped`), or that both ends of two crossing
connections keep the same one (`net_manager::both_ends_agree`).

`app/` is the program around the library: sockets, files, threads, windows and the tray. What
it needs from the platform (encrypted channels, the clipboard, the tray itself) stands behind
the traits in `app/backend.rs`. No implementation of them is part of this repository: a
program built from it alone cannot synchronise or pair, and says so when asked to. The library
is complete without one. `tests/` runs the
library.
