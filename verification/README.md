# gloom_rs

A small OpenGL scene (a lunar terrain with helicopters flying over it and a
free camera) whose decisions are proved with Verus.

- `src/` is the verified library:
  - `layout`: byte sizes and offsets of vertex data, and the vertex
    attribute layout (positions, colours, normals);
  - `keys`: the set of held keys and the camera move bound to each key;
  - `window`: what the event loop does after each window event, and the
    window size handed from the event loop to the render thread;
  - `scene`: the scene graph and the order in which drawing visits its
    nodes, with the laws that make that order usable for drawing;
  - `world`: the scene that the program shows.
- `app/main.rs` opens the window, talks to OpenGL and does the
  floating-point placement and camera math. It uses the modules `mesh`,
  `shader`, `toolbox` and `util`, which are not part of this tree.
- `tests/` runs the library on concrete values.
