# crunchy_vdf

A parser for Valve's keyvalues (VDF) text format, verified with Verus.

- `src/scan.rs`: blanks, `//` and `/* */` comments, quoted strings (with
  escapes) and unquoted strings, conditionals, and brace skipping that reads
  the input in the parser's tokens.
- `src/parse.rs`: values, pairs, blocks and whole files, and a walk over the
  top-level entries of a file for parsing them apart.
- `src/render.rs`: the debug text of parsed items.
- `src/suffix.rs`: parsing a suffix of the input agrees with parsing the whole
  input at that position, and the laws built on that.
- `app/`: the benchmark program; it reads a file, parses it many times, and
  can parse the top-level blocks on rayon's threads.

Each parser is a spec function over the input bytes and a start position;
the executable code is proved to compute it exactly, errors included.
