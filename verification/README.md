# rampeditor

A structured color palette library. A palette holds cells identified by
page, line and column addresses; each cell holds an expression that
generates its color. Operations change the cells and record the changes
that undo them, so that a palette with a history can undo and redo them.
Palette formats (the default one and ZPL) decide how many pages, lines and
columns a palette has and label its pages and lines.

The library in `src/` is written in Verus. Its functions are verified
against their contracts; nothing in it is trusted:

- `address`, `interval`, `address_map`: addresses and their wrapping order,
  intervals over any partially ordered type, and an ordered map keyed by
  address.
- `data`: the cells and metadata of a palette, the search for free
  addresses and for the targets of an operation.
- `walk`: the model of that target search, with what it gathers: the
  addresses in cyclic order from the start address, within one lap.
- `data_text`: the text of palette data, by page and line.
- `text`, `render`: decimal and hexadecimal digits, the texts of
  addresses, references and colors, and the `Debug` texts that name
  operations in the history.
- `format`: the default and ZPL formats.
- `expression`: what a cell holds: nothing, a fixed color, a watcher,
  which has the color of another cell, or a step of a ramp, which blends
  the colors of two other cells.
- `operation`: inserting cells, colors, watchers and ramps, deleting cells,
  and undoing recorded changes; each history entry names the operation it
  undoes.
- `lib.rs`: the palette, with the laws that undoing an applied operation,
  redoing an undo, and undoing a redo each restore the cells.
- `color`: the RGB and CMYK encodings.

`app/` holds a small program that applies an operation, prints the palette
and undoes it, together with what the library cannot hold: the floating
point color spaces (HSL, HSV, XYZ) and the blended colors of ramp steps.
