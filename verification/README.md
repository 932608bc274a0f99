# cosmic_macos

The logic of a macOS-style top bar for the COSMIC desktop, written in Verus
and proved against its contracts: which window the panel names and how, which
exported menu belongs to the focused app and how a menu tree is read, the
Control Center's device lists, volume and brightness, the setup tool's command
line, backups and restore, notification placement, the theme's text edits, and
the settings application's search and block layout.

- `src/` is the verified library. Calls into `freedesktop-desktop-entry`
  and `anyhow` stand behind a few trusted wrappers whose doc comments say
  what is assumed of them.
- `tests/` runs the library on concrete values.
- `app/` is the `cosmic-macos-setup` program around it: files, `systemctl`,
  `gsettings` and `/proc`. It asks the library for the command, the plan's
  services, the steps of running a plan (backup, apply, rollback), the
  backup to restore and its keys, and the GTK style text; the panel
  profile's key table, whose opacity is a float, and the float formatting
  stay in the program.
