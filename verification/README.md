# btwattch2

Toolkit for controlling the RATOC Systems RS-BTWATTCH2 Bluetooth watt checker
from Linux: it measures voltage, current and power, operates the power switch,
and synchronizes the clock of the main unit. An agent can hold the connection,
so that commands need not wait for it.

The library in `src/` is written in Verus: what each function does is stated in
its contract and proved. The program in `app/` is ordinary Rust around it.

## The library

| Module | What it holds |
| --- | --- |
| `crc8`, `payload` | the frames that are sent to the device |
| `connection` | frames put together from notifications, measurements, the retries of connecting and writing, scans, sessions on the link |
| `time`, `wall_clock` | the device's clock, the system's clock, and times as `--set-rtc` takes them |
| `interval`, `addr`, `path`, `text` | how intervals, addresses and paths are read and written, and the text functions below them |
| `config` | the config file and its device profiles |
| `cli` | what a command line asks for |
| `output` | output formats, session energy, the summary of a run, the metrics exposition |
| `report` | what is printed of scans, clocks and agents, and who carries a command out |
| `agent` | the agent: its protocol, counters, clients, HTTP endpoint, and its course from start to stop |
| `log`, `signal` | verbosity, and the reaction to a closed pipe |

A measurement is kept as the device sends it: counts of 2^-24 V, 2^-30 A and
2^-24 W. Session energy is a count of 2^-24 W times nanoseconds. Floating point
appears only in `app/`, where numbers are printed.

What the library takes on trust of `chrono`, `tokio` and the standard library
is declared in `time`, `wall_clock`, `agent::outbox` and `text`, each with a comment that says
what is believed.

## The program

`app/` reads the command line, the config file and the environment, talks to
BlueZ, and moves bytes over sockets. Every decision is a call into the library:
the agent's loop, for one, hands each event to `agent::server::Actor` and carries
out the action that comes back.

## Tests

`tests/` runs the library from outside, on concrete values.
