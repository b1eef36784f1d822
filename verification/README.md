# vanadis

Build the config files of command line tools from one palette: templates in, themed configs
out. `vanadis apply nord` renders every target's template against the theme's tokens and
writes the outputs; `vanadis check` says which outputs no longer match; `vanadis init` turns a
config file somebody already wrote into a template, a theme and a target; `vanadis import`
converts a tinted-theming scheme into a theme.

## Layout

- `src/` is the library, written in Verus. Every function in it carries a contract and is
  verified: theme loading and token resolution, template rendering, the config and state
  files, target selection and the apply plan, drift checking, the `init` scan, weave and
  plan, scheme conversion, the scheme cache, the archive whitelist and the shell hooks.
  The few calls into `toml_edit`, `saphyr`, `similar`, `tar`/`flate2` and `std` that the
  library cannot verify sit behind small trusted wrappers whose contracts name what they
  return.
- `app/` is the command line around it: argument parsing, reading and writing files,
  downloading the collection, running reload commands, and the questions `init` asks.
- `tests/` exercises the library through its public interface.
