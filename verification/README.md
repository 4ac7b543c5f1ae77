# nadi_cairo

A plugin for the nadi system that draws river networks as SVG files with
cairo. It draws network plots, table plots and series plots.

## Layout

- `src/` is the verified library (Verus).
  - `config.rs` recognises the keys of the plot configuration and writes
    the message that rejects an unknown key.
  - `plan.rs` holds a plain model of the network: each node's level and how
    many outputs it has. From that model it works out the extent of the
    node grid, and it builds the order in which each kind of plot draws
    column titles, connections, node markers, labels, table cells and
    series. Laws about that order are proved there: each marker is drawn
    once, from the last node to the first; which connections are drawn;
    and which table row goes with which node.
- `tests/` runs the library on concrete networks and keys.
- `app/` is the plugin itself: the nadi entry points, reading the network
  into the model, measuring text, the floating-point geometry, and the
  cairo drawing that carries out the library's plans.

Coordinates, sizes, colours and text widths are floating point, so they stay
in `app/`; the verified library decides only the discrete part of each plot.
`Cargo.toml` lists `nadi_core` and `cairo-rs` for `app/`, which shares the
package's dependencies.
