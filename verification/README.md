# astrill_split_proxy

Verified core of a macOS menu-bar controller for a local split proxy in front
of the Astrill OpenWeb tunnel.

- `src/` holds the logic, proved with Verus: text primitives with `str`
  semantics (`text`), data and start-up file paths (`paths`), the managed
  shell proxy block (`shell`), traffic-log statistics (`traffic`), OpenWeb
  port detection (`detect`), the login LaunchAgent (`login`), status and
  system-proxy commands (`status`), the application list and launch settings
  (`apps`), the activity log (`logs`), and the JSON reads (`json`).
- `app/` is the Tauri shell: commands, processes, files and the tray.
- `tests/` runs the library on concrete inputs.
