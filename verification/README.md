# nitro

The logic of a retained widget toolkit and of the text engine behind it,
written in Verus: executable Rust whose behaviour is stated in contracts and
proved.

- `src/` is the library. `ui` is the widget tree: what is dirty, what the
  scene is told, where the focus is and who is offered which event. `window`,
  `shell`, `hooks` and `event_loop` decide what an app does with the server's
  messages, its timers and its descriptors. `introspect` is the line protocol
  by which a script reads and drives an app. `list`, `split` and `theme` are
  widgets and their looks. `text` is font discovery and its index, the byte
  cache, the choice of faces, runs and lines, and the glyph atlas.
- `app/` is what stands around it: files, sockets, the epoll loop, the flex
  solver, shaping and rasterising. Lengths there are floating point; the
  library sees them as type parameters or as answers to questions such as
  whether something moved.
- `tests/` runs the library on concrete values.

What the library takes from outside is declared where it is used: the font
reader `swash` in `text/sfnt.rs` and `text/wrap.rs`, and a few functions on
strings.
