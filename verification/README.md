# gol

A Game of Life viewer whose logic is verified with Verus.

- `src/` is the verified library: rule parsing and formatting (`rules`),
  start patterns and RLE reading (`patterns`), Bresenham lines (`geometry`),
  selections (`selection`), the CPU cell grid and GPU transfer layout
  (`grid`), script requests (`script`), control arithmetic (`controls`) and
  the character helpers they share (`text`).
- `app/` is the program around it: the egui/eframe window, the wgpu
  simulation and its WGSL shaders, floating-point palettes and camera, the
  QuickJS script engine, PNG export and the clipboard.
