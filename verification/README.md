# terax_workspace

The workspace rules of a terminal application, verified with Verus:
which directories a terminal may be spawned in, how the launch directory is
chosen, how paths inside a WSL distro map to the Windows host, how the output
of `wsl.exe` is read, and which environment variables undo an AppImage
runtime.

- `src/` is the library. Every decision is a verified function with a
  contract; the file system, the clock, the environment and the host
  platform are asked by the caller, who hands the answers in (a `DirProbe`, a
  time in nanoseconds, a list of variables, whether the host is Windows).
  - `registry`: authorized roots and the canonicalization cache.
  - `spawn`: spawn-directory decisions.
  - `launch`: launch-directory choice.
  - `env`, `wsl`: workspace environments and WSL path mapping.
  - `wsl_cli`, `decode`: `wsl.exe` arguments and output.
  - `appimage`: AppImage environment overrides.
  - `text`, `split`, `paths`: strings, lines and words, and the
    `std::path` questions (trusted wrappers).
- `app/` is the command layer around it: locking, canonicalization, process
  spawning, environment reads, and the serde forms of the types.
- `tests/` exercises the library.
