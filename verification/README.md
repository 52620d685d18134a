# Qomicex Updater

The self-updater of the Qomicex launcher: a command without a user interface,
which the launcher starts once an update package has been downloaded.

```text
qomicex-updater \
  --package <zip>         # the update package, in the layout of its files
  --signature <file>      # the minisign signature over the package
  --strategy <s>          # dir | appimage | app | system
  --install-dir <path>    # dir: the launcher's directory
  --appimage <path>       # appimage: the AppImage to replace
  --app-bundle <path>     # app: the .app directory
  --wait-pid <pid>        # the process that has to exit first (for up to 30 s)
  --launch <exe>          # what to start after the installation
```

Exit codes: 0 done, 1 wrong command line, 2 files or launch failed, 3 signature
invalid, 4 strategy failed, 5 the launcher did not exit in time.

| Strategy | Platform | What it does | Elevated rights |
|---|---|---|---|
| dir | Windows | merges the package into the directory | no |
| appimage | Linux | replaces the file and makes it executable | no |
| app | macOS | as `dir`; where the bundle is not writable, copies through `osascript` | if needed |
| system | Linux | copies the package over `/` through `pkexec` | yes |

## Layout

- `src/` is the library, verified with Verus. `run` is the update as a state
  machine that asks for actions; `args`, `verify`, `wait`, `install`, `archive`,
  `merge`, `appimage`, `elevate` and `staging` decide what those actions are;
  `path`, `text`, `quoting`, `encoding`, `files` and `host` are what they build on. `course`
  proves what holds of whole updates, `overlay` what an update does to files.
- `app/` performs the actions: it reads and writes files, runs commands, and
  hands the outcomes back to the library.
- `tests/` runs the library on concrete values.
