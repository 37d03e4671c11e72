# philiprehberger_dotenv

A `.env` file parser with variable interpolation, multi-file layering and
typed accessors, written in Verus: the parser, the interpolation and the
accessors are proved against mathematical specifications.

## Layout

- `src/text.rs` — characters: Unicode whitespace, trimming, searching, splitting,
  conversions between strings and character vectors.
- `src/parse.rs` — the `.env` format: `parse_content` specifies what content
  means line by line; `parse_env_content` implements it.
- `src/interp.rs` — `${NAME}` references: `resolve`/`expand`/`interpolation`
  specify resolution with cycle detection; `interpolate` implements it with a
  memo of resolved keys, proved equal to the specification.
- `src/dotenv.rs` — `DotEnv`, a map from keys to values (its view), built from
  content, pairs, or the pairs of several files in order, with `get`,
  `get_or`, `get_as`, `get_bool`, `get_or_default`, `get_list`, `require`,
  `keys` and `iter`. `get_as` and `get_or_default` take the parser of the
  target type as an argument; `app/` passes `str::parse`.
- `src/error.rs` — `DotEnvError`, its view, and its message text.
- `src/laws.rs`, `src/parse_laws.rs` — properties of the whole library, proved.
- `app/lib.rs` — file reading (`load`, `load_from`, `load_layered`), the
  process environment (`process_env`, `apply`, `load_and_apply`), and error
  display.

References to variables that the content does not define are looked up in a
snapshot of the process environment, passed to the library as pairs.
