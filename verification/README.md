# aether_optext

A daemon for Android (run as a Magisk/KernelSU module) that binds the
threads of configured apps and games to CPU clusters, by package and by
thread name.

## Layout

- `src/` — the library, verified with Verus:
  - `rule_match` — which CPUs a thread gets: the union of the matching
    thread rules of its package, else the package's fallback rules;
  - `proccache`, `events`, `procsync` — the process/thread cache, what each
    kernel process event does to it, and the polling mode's rebuilds;
  - `config`, `fnmatch` — the loaded rules and package patterns;
  - `cpuset`, `cpulist`, `cpu` — CPU masks, CPU list text, cluster layout;
  - `procfs`, `bind`, `inotify`, `logline`, `daemon`, `common`, `text` —
    reading `/proc` texts, the steps of one binding, configuration-file
    events, log lines, the main loop's schedule and command line.
- `app/` — the program around it: file and `/proc` I/O, system calls,
  the JSON configuration file, and the main loop.
- `tests/` — tests of the library on concrete values.

## What the program runs

The program runs the `/proc` polling mode: each round it brings the cache
up to date (`ProcState::sync`) and binds the cached threads
(`ProcCache::affinity_pass`, each thread through `bind::bind_thread`).

The event-driven mode's steps are in the library (`events::event_dispatch`,
`events::full_scan`), but the program carries no eBPF loader to deliver the
kernel's process events, so it does not run that mode. Running apps that no
rule covers are found (`procfs::unknown_apps`) and reported in the log; the
program keeps no cache of automatic assignments, so they are not bound.
