# xschem_viewer

Parsing, netlist extraction, structural diff and SVG rendering of
[Xschem](https://xschem.sourceforge.io/) schematics (`.sch` / `.sym`).

The library (`src/`) is written in Verus: each public function carries a
contract over a mathematical model of its data, and Verus proves the code
against it.

- `grammar` / `parser` — the file format as a specification over characters,
  and a parser proved to accept exactly what it describes.
- `models` — the objects of a file; numbers are kept as the text the file
  holds.
- `strmap` — a string-keyed map kept in key order, viewed as a `Map`.
- `netlist` — instances and label-named nets of a schematic.
- `walk` — the walk of a schematic and its placed symbols as a list of
  drawing events; wires outside any component are exactly the top-level ones.
- `semantic` — the semantic view (components, wires, nets) and the diff
  between two views, with its laws (a schematic without `NaN` coordinates
  compared with itself gives an empty report; renames are one-to-one, most
  similar first, and leave no similar pair unpaired; the diff sorts every
  component into exactly one kind of entry; nets come in increasing order;
  similarity is symmetric and between zero and one).
- `scene` — the rules that turn objects into drawing elements (symbol naming
  and lookup, fills, layers, inherited attributes, wire junctions).
- `renderer`, `theme`, `text_layout`, `xschemrc` — render options and
  palettes, text placement, escaping, and the reading of `xschemrc` files.

`app/` holds the command-line program and what floating point or I/O needs:
the placement arithmetic, SVG output, the viewport, reading files and the
environment, and serialisable copies of the diff types.
