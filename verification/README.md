# wsl-devctl

A terminal dashboard for development servers under WSL: PM2 processes, the
static roots that Caddy serves, and ports that more than one of them claims.

The logic of the dashboard is a library verified with Verus (`src/`); the
terminal program around it (`app/`) does the I/O: it runs `pm2`, asks Caddy's
admin API, reads the Caddyfile, probes ports, reads keys and mouse clicks, and
draws with ratatui.

## Layout

- `src/text.rs` — characters, whitespace trimming, splitting, decimal numbers,
  and the `u16` grammar of `str::parse`.
- `src/sort.rs` — a stable insertion sort, with the proof that its output is
  sorted and holds the same elements.
- `src/json.rs` — a JSON document as plain values, parsed from bytes by serde_json
  behind a trusted wrapper, and the lookups made in it.
- `src/data.rs` — process and site records; reading them from `pm2 jlist`, from
  Caddy's admin configuration and from a Caddyfile; which ports are claimed by
  whom, and which claims are conflicts.
- `src/fuzzy.rs` — the skim fuzzy matcher, behind a trusted wrapper.
- `src/rank.rs` — ranking of filter matches.
- `src/app.rs` — the dashboard's state: filter, selection, commands, clicks, refresh.
- `src/actions.rs` — PM2 commands on the selected process, their arguments, the
  browser launchers, and their status messages.
- `src/keys.rs` — key and mouse bindings.
- `src/ui.rs` — the text of the panels, and where process rows and their buttons
  lie on screen (the process panel draws one text line per screen line).
- `src/cli.rs` — the list of ports to watch.
- `src/clock.rs` — the monotonic clock, behind trusted wrappers.

## Usage

```bash
wsl-devctl                              # refresh every 2 s
wsl-devctl --refresh 5                  # slower refresh
wsl-devctl --manual-ports 3000,5173,8080
```

Keys: `↑/↓` or `j/k` move, Enter opens the selected process in a browser, `r`
restarts it, `s` stops or starts it, `l` shows the first line of its recent
logs, `/` or `f` filters, `R` refreshes, `q` or Esc quits. The buttons of a row
(`[r:restart]`, `[s:stop]` or `[s:start]`, `[l:logs]`) can be clicked where
they are drawn.
