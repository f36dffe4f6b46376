# pf_vis

Reads PSS/E raw (`.RAW`) power-flow cases and lays out one-line diagrams of them.

The library under `src/` is written in Verus: each public function states what it returns in
its contract, and the contracts are proved.

- `text`, `number`: character-level helpers and the grammar of a numeric field.
- `psse::scan`: decoding, splitting records into fields, and walking the sections of a file.
- `psse::raw`: turning records into buses, loads, shunts, generators, branches and
  transformers. Numeric fields are kept as the text the file holds, checked to be numbers.
- `model`: the network indexed for drawing: what connects to each bus, what equipment hangs
  off it, and which bus pairs carry parallel circuits.
- `diagram`: the drawing (which buses are placed, where, and which elements are suppressed),
  what that makes visible, growing the drawing along a connection, and where a new bus goes.
- `inspect`, `summary`: the text the inspector tables, the filter box and the headless summary
  show.

`app/` is the desktop program around the library: file and window handling, the floating
point geometry and painting, and the JSON file a drawing is saved in.
