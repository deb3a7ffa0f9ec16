# ralarm

The verified core of a small resident alarm clock. Alarms are written one per
line, `hhmm [title]`, in `alarms.txt`; at the minute of an alarm a popup
appears and a tone sounds; rung alarms are kept, most recent first, in
`log.txt`.

- `src/` is the library, proved with Verus:
  - `alarm` — the `Alarm` type, time validation, display and the alarm-file parser;
  - `clock` — which alarms ring when the minute turns (each at most once a day);
  - `history` — the most-recent-first history, its file text and re-insertion;
  - `label` — the "next alarm" label;
  - `beep` — when the beeper sounds, waits or stops;
  - `text` — character-level helpers (whitespace, trimming, lines).
- `app/` is the desktop program around it (egui window, popups, sound, files).
- `tests/` run the library on concrete inputs.
