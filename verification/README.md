# RustyPlot

A graphical traceroute and ping monitor. The logic is a library verified with Verus; a thin
program around it talks to the network and draws the window.

- `src/` is the library: echo requests and responses (`packet`, `traceroute`), the walk along the
  path (`trace`), the engine and its pinging (`network_engine`), the state of a session
  (`app_state`, `session`), and what is shown of it (`ui_renderer`, `sorting`, `console`, `cli`).
  Times are whole nanoseconds; averages and percentages are exact quotients (`ratio`). The calls
  that are believed without proof are in `clock` (readings of the clocks) and `random`.
- `app/` is the program: sockets, name lookup, pings, the window, and the terminal output. Floating
  point appears here only, for display.
- `tests/` runs the library on concrete values.

```text
rustyplot google.com              # window
rustyplot --console google.com    # traceroute on the console
rustyplot-cli 8.8.8.8 -c          # terminal tool, continuous ping
```
