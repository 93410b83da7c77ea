# imageviewer

A single-window image viewer for PNG and JPEG files. Arrow keys move through
the images of a folder (left / right) and between sibling folders that hold
images (up / down); Enter toggles fullscreen. A second launch hands its file
to the running window instead of opening another one.

## Layout

- `src/` is the library, verified with Verus: natural ordering of names
  (`natural_sort`, with its order laws in `natural_sort_laws`), the
  `config.toml` model and writer (`config`), formats, decoding and pixel
  layout (`media`), listings and folder navigation (`library`), the choice of
  image and startup content (`viewer`), the instance names and request
  framing between processes (`ipc`), the log filter and line format
  (`logging`), user-facing error texts (`report`) and click areas
  (`pointer`). Decoding calls the `image` crate behind a trusted wrapper.
- `app/` is the program around it: file and directory access, the GUI, the
  single-instance sockets, pipes and locks, the log file, and the mouse
  wheel's floating-point accumulation.
- `tests/` exercises the library on concrete values.
