# Simple SSH Manager

A simple SSH connection manager (GTK4 + VTE) with an encrypted server store,
grouped hosts and an embedded terminal, whose logic is verified with Verus.

- `src/` is the verified library.
  - `servers`: the server list and its editing
  - `groups`, `sidebar`, `outline`: group paths, the rows of the sidebar, and
    when they read as a tree
  - `store`: where the store lies, sealing and opening it with `age`
  - `lockout`, `login`: the master password gate with its doubling lockout
  - `command`: the `ssh` command line of a session
  - `windows`, `layout`: what window, tray and tab events lead to, and
    positions on the screen
  - `text`: splitting, joining, trimming, decimal numbers
- `app/` is the program around it: GTK widgets, files, the clock, JSON.
- `tests/` runs the library.

The contracts of `age::encrypt`, `age::decrypt` and `dirs::config_dir` are
trusted; they stand in `src/store.rs`.

At run time the program needs `ssh`, and `sshpass` for servers with a
password.
