# downtime

The counterpart to `uptime`: how long was this machine *not* running since a
given time?

The logic is a library verified with [Verus](https://github.com/verus-lang/verus).
A small program around it runs the platform's own tools and prints the report.

## Usage

```
Usage:
  downtime [options]

Options:
  -p, --pretty   show downtime in pretty format
  -h, --help     display this help and exit
  -s, --since    system down since
  -V, --version  output version information and exit
```

The time behind `--since` is whatever the system's `date` understands, such as
`2026-04-01`, `yesterday` or `2 weeks ago`.

## Layout

- `src/` is the verified library.
  - `boots` reads the boots that `journalctl` lists; the gaps between them are
    the downtime on Linux.
  - `pmset` and `last` read the power log and the login records of macOS.
  - `windows` coalesces downtime windows, `backend` chooses between the sources,
    and `downtime` clips the windows to the requested range and adds them up.
  - `cli` reads the command line, `report` words the answer, and `ending` says what
    goes where and with which status the program exits.
  - `dates` says how `date` is to be asked about times, and `command` describes
    commands and their outcomes.
  - `text`, `number`, `calendar`, `sort` and `clock` are the groundwork.
- `app/` is the program: it runs commands, reads the clock and prints.
- `tests/` runs the library on concrete values.

Each function states in its contract what it returns, over spec functions on
sequences of characters and integers. The proof functions named `law_..` state
what holds of the library as a whole: that coalescing neither adds nor loses
downtime, that a listing of boots reads back, that all forms of an option mean
the same, and the like. Where windows do not overlap, the total counts every
instant of downtime once and never exceeds the range it is measured in.
Coalesced windows never overlap; windows between boots and sleep windows do not
if the log they come from runs forward.

What is not proved is marked where it stands: `String::push` and
`String::from_utf8_lossy` of the standard library, and its clock.
