# notepadmd_plus

The Markdown highlighting of the NotepadMD+ editor, with its contracts proved.

- `src/` is the verified library. `highlight::layout_job(text, dark)` returns
  the formatted sections of `text`; its contract gives them exactly, and the
  proof functions in `src/laws.rs` and `src/compose.rs` show that the sections
  reproduce the text byte for byte, cut it only at character boundaries, never
  run across a line break, differ between the themes in color alone, and that
  joining two texts with a line break joins their layouts.
- `app/` is the egui program around it: it turns the library's sections into
  an egui `LayoutJob` and runs a small editor window.
- `tests/` runs the library on concrete texts.
