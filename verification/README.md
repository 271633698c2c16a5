# build_script_runner

Runs a Cargo build script as one step of a larger build and hands what it says
to the steps that follow.

- `src/` is the library: the decisions of the runner as verified functions from
  plain values to plain values.
  - `args`: the command line.
  - `rustc_cfg`, `env_vars`: `rustc --print=cfg` as `CARGO_CFG_*` variables.
  - `host`: the path syntax of the host.
  - `paths`: joined paths, the working directory, the way back to the
    execution root.
  - `script`: the program, the working directory and the environment of the
    script.
  - `out_dir`: which files of the output directory are removed, and how paths
    in them are made relative.
  - `outcome`: what the outcome of a link or of the script means.
  - `text`: the operations on text that the rest is built on.
  - `path_laws`, `script_laws`, `cfg_laws`, `text_laws`: what holds across
    functions.
- `tests/` runs the library on concrete values.
- `app/` reads the environment and the files, runs the script and writes the
  results.

Paths follow the host. On a Unix host the library's own path functions are
proved against what a path means there; on any other host `std::path` answers.
