# trinculo

Rendering the programs of Matt Keeter's Prospero challenge: a program is a header and a list
of expressions (`var-x`, `var-y`, constants, and dyadic and monadic operations on earlier
expressions), and the rendered image marks the pixels where the last expression is negative.

`src/` is the verified library (Verus):

- `expr`: expressions, their packing into a `u64`, their text, and the program parser;
- `text`: lines and tokens of the program text;
- `roundtrip`: writing a program as text and reading it back gives the program;
- `reuse`, `unused`, `reclaim`: the translations of programs (reusing expressions, dropping
  unused ones, releasing expressions after their last use), with their laws;
- `baseline`, `simd_par`: which pixel samples which point, alone or by chunks of lanes;
- `utils`: grey images and their encoding in a file format, through the `image` crate;
- `options`: the image sizes offered, and the translations applied in turn.

`app/` is the program around it: command line, reading and writing files, and the
interpreters, which compute in floating point.
