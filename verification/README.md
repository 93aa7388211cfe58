# renvsubst

Substitutes bash-like variables (`$VAR`, `${VAR}`, `${VAR:-DEFAULT}` and the string
functions of braced variables such as `${VAR#prefix}`, `${VAR/a/b}`, `${VAR^^}` or
`${VAR:1:3}`) in a text with values from the environment.

The library in `src/` is verified with Verus: each public function has a contract that
states its result over mathematical models (`Seq<char>`, `Set`, `Map`), and the properties
that span several functions are stated and proved as `law_*` proof functions.

- `args`, `flags`, `filters`, `io`, `completion`, `errors`, `help`: the command line.
- `env_subst`: the substitution of a line and the splitting of an input into lines.
- `variable_expansion`: the string functions of braced variables.
- `substitute`: the substitution of `$VAR`, `${VAR}` and `${VAR:-DEFAULT}` alone.
- `environment`, `string_set`, `text`, `utils`: the values the substitution works on.

`app/main.rs` is the command line tool around the library: it reads the arguments, the
environment and the input, and writes the output.
