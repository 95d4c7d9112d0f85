# graphics

A terminal and window renderer for 3D meshes, with its core verified by Verus.

`src/` is the verified library:

- `buffer` — a double-buffered 2D grid: filling, clipped rectangles, Bresenham
  lines and triangle outlines, resizing and swapping.
- `terminal` — character cells, writing text, drawing a frame buffer with
  half-block characters, and planning the terminal commands that show a grid.
- `surface` — pixel words and nearest-neighbour scaling of a frame buffer onto
  a window surface.
- `scene` — the scene tree held in a slot map: insertion, deletion, ancestry
  chains and the order in which meshes and lights are met.
- `obj`, `stl`, `mesh` — the layouts of OBJ and STL files.
- `texture` — constant colours and clamped texel lookup.
- `input` — what a key press asks of the viewer.

`app/` is the program around it: the command line, terminal and window event
loops, and the floating-point maths, lighting and rasterisation.
