# time_tracker

The logic of a desktop time tracker, written and verified in Verus. Every function of
the library carries a contract that Verus proves.

The tracker keeps a log of billable time in monthly CSV files that open in a
spreadsheet. Entries come from a form, from a timer, or from a local web page; they
are billed in export runs, and an entry that is in a run is locked.

## Layout

`src/` is the library.

- Text and numbers: `text`, `decimal`, `duration`, `datefmt`, `dates`, `sorting`.
- The log: `csv`, `csv_file`, `csv_writer`, `retry`.
- Entries and what is done with them: `entries`, `edits`, `bulk`, `ranges`, `clients`.
- Billing: `exports`, `billing`, `export_pdf`.
- The timer and the form: `timer`, `workstream`, `autocomplete`, `popup`, `notify`.
- The desktop: `config`, `dispatch`, `placement`, `popover_window`,
  `single_instance`, `guard`, `logging`, `crash`, `paths`.

`tests/` runs the library. `app/` is the Windows program around it: files, threads,
the web server and the windows. It reads its pages and its tray icon from a folder
`pages` beside the executable. On Windows it also needs `egui` and `egui_glow` 0.27,
`global-hotkey` 0.5, `glow` 0.13, `glutin` 0.31, `glutin-winit` 0.4,
`raw-window-handle` 0.5, `tray-icon` 0.14, `windows` 0.52, `windows-sys` 0.59,
`winit` 0.29 and `wry` 0.37.

## What the contracts say

Texts are modelled as sequences of characters, days as year, month and day, and
instants as seconds and nanoseconds. Public proof functions state what holds across
functions: a file reads back as it was written, a duration in tenths of an hour is
read as just that, deleting a row moves every lock with its row, a voided run locks
nothing.

A few calls are trusted: chrono's parsing and calendar arithmetic, and five functions
of the standard library. Each is a small function whose comment says what is believed
of it.
