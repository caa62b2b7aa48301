# prux

`prux` runs interactive programs inside a PTY on Linux, with the process
semantics of a terminal multiplexer: signal masking around the fork, child
reaping with stopped/exited handling, interrupts delivered through the
terminal, and cleanup of process groups that an interrupt leaves behind.

## Layout

- `src/` is the library, verified with Verus. It holds the decisions the
  session makes, each with a contract:
  - `os/linux.rs`: wait statuses, signal requests, `/proc` parsing
    (`stat` lines, `children` files, descriptor names), the walk over a
    process's descendants, terminal settings for the child, shell names.
  - `reaper.rs`: child states, the table of reaped states, and the tracker of
    one child.
  - `pty.rs`: the steps of writing a whole buffer and of draining a
    nonblocking PTY.
  - `session.rs`: session configuration, termination (`SIGTERM`, then
    `SIGKILL`), and the cleanup after an interrupt.
  - `spawn.rs`: argument vectors, the child's environment, its working
    directory, and what it executes.
  - `introspection.rs`: which `/proc/<pid>/cwd` links to read to find the
    working directory of the terminal's foreground workload.
  - `paths.rs`: comparing paths component by component.
  - `text.rs`: whitespace-separated fields and decimal integers.
  - `error.rs`: the error type and its messages.
- `app/` is ordinary Rust around the library: the system calls, the loops
  that perform the library's actions and feed back what happened (the
  order of calls in a spawn, reading `/proc`, sleeping until deadlines), and
  the `ProcessSession` type that owns the PTY.
- `tests/` exercises the library's decisions on concrete values.

Paths are byte strings (`Vec<u8>`), as the kernel takes them.
