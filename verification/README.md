# tracker

A local-first time tracker with private device-to-device sync over a
Tailscale tailnet. The library in `src/` holds the tracker's rules, each with
a contract proved by Verus; `app/` is the command line around it (SQLite
storage, the clock, HTTP sync, running the Tailscale CLI).

## Layout

- `src/model.rs` – tasks, time entries, peers, sync bodies, merge summaries;
  elapsed time of an entry.
- `src/time.rs` – UTC instants and the chrono calls that format, read and
  subtract them.
- `src/records.rs` – cleaned input, stored tags, task ids, starting and
  stopping timers.
- `src/merge.rs` – last-writer-wins merging, with the proofs that repeating a
  merge changes nothing, that the order of merges does not matter, and that
  two stores that exchange their records converge.
- `src/urls.rs` – peer URLs and the sync endpoint.
- `src/payload.rs` – the rules that synced records must meet (UUIDs, texts,
  tags, timestamps, unique ids, references), checked on what is sent, taken
  and answered.
- `src/sync.rs` – token checks, authorization, body limits, peer probing.
- `src/tailscale.rs` – what is read from `tailscale status --json`.
- `src/cli.rs` – durations, tag shortcuts, report starts and report totals.
- `src/text.rs`, `src/sorting.rs` – text and ordering helpers.

