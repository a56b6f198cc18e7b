# nix-process

A small, TUI-less process manager for services defined in a `flake.nix`. It starts each service
in its own process group, in dependency order and gated on readiness, streams name-prefixed
logs, and tears every process down on exit.

The crate is split in two.

- `src/` is a library verified with [Verus](https://github.com/verus-lang/verus). It decides: it
  holds the rules, the parsers and the state machines, each with a contract that says exactly
  what comes out. It does no input or output.
- `app/` is the program around it. It starts processes, sends signals, reads files and sockets,
  and tells the library what came of it.

## The library

| module          | what it holds                                                               |
|-----------------|-----------------------------------------------------------------------------|
| `text`          | comparison, trimming, words and lines of text                               |
| `number`        | decimal numbers, printed and read                                           |
| `names`         | maps and sets keyed by name, in ascending order                             |
| `graph`         | dependency graphs: start orders, and when there is one                      |
| `config`        | process and test definitions, their validation, their start order           |
| `flake`         | what the evaluation of a flake came to, and the choice of a test            |
| `cli`           | the command line                                                            |
| `signals`       | signal names and numbers, repeated termination signals                      |
| `run`           | the model of a supervised run                                               |
| `run_laws`      | what holds of every run                                                     |
| `supervisor`    | the supervisor that carries a run out                                       |
| `child`         | how a child process has ended                                               |
| `health`        | readiness probes: which, when, and what their answers mean                  |
| `log`           | the layout of log lines                                                     |
| `state`         | the record of running children, and the recovery of orphaned ones           |
| `recovery_laws` | what holds of every recovery                                                |

A supervisor is driven from outside. `Supervisor::run` takes one input, such as an event or the
process id of a child that was just started, and answers with effects to be done in order and
with a request: what to come back with. A recovery of orphaned processes works in the same way.

## What is proved

- The start order holds every process once, behind all that it depends on; it exists exactly
  where every dependency is defined and none is circular.
- A process is started only when everything that it depends on has been reported ready.
- When a run is over, every group that it started, but for those of completed oneshots, is gone
  or has been sent its own shutdown signal and then `SIGKILL`. That the process which leads a
  group has exited does not count: whatever of the group still exists at the end of the grace
  period is killed. Nothing else is ever signalled.
- A termination signal, or the failure of a service, brings everything down at any time, a
  running test command included.
- A second termination signal kills every group at once, deletes the state file and exits 130.
- A run of all processes exits with 0 exactly where a termination signal ended it.
- A recovery reaps every recorded group that still exists and nothing else, leaves alone every
  process whose id has been reused, and deletes the state file last.
- The prefix of every log line is twelve characters wide, whatever the name.

Taken on trust are the numbers of five signals, what `{:?}` prints of a string, and what
`String::from_utf8_lossy` reads out of bytes.

## Usage

```
nix-process up [flags]           start all processes and supervise them
nix-process test <name> [flags]  bring up a test's services, run it, tear down
nix-process down [flags]         clean up orphaned processes from a prior run
```
