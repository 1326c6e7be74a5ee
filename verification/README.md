# runlatch

The verified core of runlatch, a Linux autostart manager that lists, enables and
disables entries across XDG `.desktop` files and systemd units.

- `src/` is the library, each function with a machine-checked contract: the `.desktop`
  reader/writer and what editing it promises, the XDG and systemd providers' decisions,
  aggregation across providers, and the command-line tool's decisions.
- `app/` is the program around it: the command line, the async providers that read
  directories and talk to systemd over D-Bus, and the printing of tables and JSON.
- `tests/` runs the library on concrete values.
