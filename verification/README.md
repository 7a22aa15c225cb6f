# openscad_rs

A modeller for an OpenSCAD-like language: it parses a `.scad` source,
evaluates it to a solid with the Manifold geometry kernel, and writes the
solid as a binary STL file.

The library in `src/` carries machine-checked proofs of its contracts:

- `syntax` states the grammar as spec functions over the source bytes:
  what each construct consumes and the tree it stands for, or the error it
  reports, with its line, column and source line.
- `parser` is the recursive-descent parser; every method is proved to do
  what `syntax` says, on every input, and `parse` returns exactly the
  program that `syntax::sp_program` describes.
- `laws` holds properties of the grammar proved for all inputs (layout
  skipping is idempotent, layout before an expression or a statement changes
  nothing, identifiers are read maximally, modifiers, `include`, `use` and
  `assert` change nothing, a modifier and layout before a statement are
  dropped, how locations advance); `parse` also ensures that every numeral
  of a parsed program is a floating-point literal.
- `shift` proves that the grammar reads forward only: what a construct
  parses to depends on the text from its position on, not on what precedes
  it.
- `message` renders a parse error's report: its message, the line and
  column, the source line without trailing whitespace, and a caret.
- `copy` gives the syntax tree its copies, each with its original's view.
- `bind` decides which argument of a call supplies each parameter of a
  user-defined module or function.
- `lists` resolves list indices (negative ones count from the end), `rng`
  is the generator behind `rands`, `stl` lays out the bytes of a binary
  STL file.
- `ast`, `error`, `text` and `numeral` hold the syntax tree, the errors and
  the UTF-8 and numeral facts these rest on.

`app/` is the command-line program around the library: reading files,
evaluating the program with `f64` values and Manifold solids, computing the
STL coordinates, and choosing each error's message.

```
openscad_rs model.scad -o model.stl
openscad_rs --demo tree -o tree.stl
openscad_rs --gui
```
