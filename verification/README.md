# Ananda Control

The verified core of Ananda Control, a tray frontend for Equalizer APO, and
the application around it.

- `src/` — the library, verified with Verus:
  - `decimal` — numbers as fixed-point decimals: reading them as
    `f64::from_str` reads its syntax, and printing them back (a printed
    number reads back as itself).
  - `text` — lines, whitespace and words as `str` defines them, and the
    digits that a Unicode regex matches.
  - `model` — profiles, headphones, settings and the database, their
    validation, and the database of a fresh installation.
  - `apo` — the Equalizer APO preset format: reading presets, exporting
    profiles, and the owned APO file; `roundtrip` proves that an exported
    profile reads back as itself.
  - `storage` — the commit protocol of the store as a state machine, and the
    recovery of interrupted commits.
  - `commands` — what each user command does to the database, and the
    steps (with their undo) of setup, restoration and preference changes.
  - `tray` — the tray menu and the hotkeys to register.
  - `agent` — JSON values, tool schemas, the JSON-RPC server, framing and
    the agents' profile edits and settings patches.
  - `platform` — class IDs, the Equalizer APO server check and account
    SIDs, read out of Windows data.
  - `ids` — fresh identifiers.
- `app/` — the Tauri application: files, Windows, windows and menus, the
  agent transport. It performs the I/O and asks the library for every
  decision.
- `tests/` — tests of the library.
