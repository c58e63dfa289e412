# eql_alerts

Log triggers for EverQuest Legends: follow `eqlog_*.txt`, match each line's action
text against a trigger library, and produce toasts, countdown timers, chimes and
spoken callouts.

The library under `src/` is verified with Verus:

- `engine`, `rules`, `timers`, `casts`, `tokens` — the trigger engine: matching,
  debounce, cast-gated land emotes, timer start/restart/early-end, ability cooldown
  sync, and the state the overlay shows.
- `starter`, `eql_compat`, `migrate` — the built-in essentials, the Legends fixes
  applied to class packs, stripping timers of permanent buffs, and the upgrades a
  saved library gets when loaded.
- `gina_import` — GINA packages into the trigger model: the `ShareData.xml` entry of a
  `.gtp` archive, the XML (tokens, atomic groups, timers, early enders), and merging
  imported groups by id.
- `log_find`, `kokoro`, `tts` — log file names and ranking, the Kokoro voice catalog
  and query encoding, voice settings and chime presets.
- `text`, `pattern`, `model` — text helpers, the regex calls, the data model.

`app/` is the command-line program around it: settings and `triggers.json` on disk,
finding and following the log, reading pack files, talking to a running Kokoro
daemon, and playing chimes through the platform helper.
