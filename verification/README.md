# docker-compose-updater

A service that keeps the image tags of Docker Compose files up to date, on a
cron schedule, while leaving every comment, quote and blank of the files as it
was. The decisions it makes are written in Verus and proved against their
contracts.

## Layout

- `src/` — the verified library:
  - `text.rs` — character-level helpers (`str::lines`, trimming, splitting)
    and their models;
  - `version.rs` — reading a version (`1.2.3`, `v1.2-alpine`) out of a tag;
  - `strategy.rs` — choosing a target version (`Latest`,
    `LatestPatchOfPreviousMinor`) among those with the same prefix and suffix;
  - `config.rs` — the configuration, its registry table, `${VAR}` expansion
    and the defaults restored after loading;
  - `registry.rs` — image references, the registry API's pages, links,
    authentication challenges, token requests and the retry budget;
  - `compose/` — finding `image:` lines in a compose file and rewriting them;
  - `health.rs` — the health status and its HTTP answer;
  - `scheduler.rs` — the schedule and the verdict on an update cycle.
- `tests/` — tests of the library.
- `app/` — the program: command line, reading the configuration file, HTTP
  requests, walking directories, writing files, the schedule loop and the
  health endpoint.
