# cube

Glyph atlases, PPM textures and cube geometry for a small Vulkan renderer,
written as a Verus library with proved contracts.

- `src/` is the verified library: glyph packing (`packer`, `glyph_atlas`,
  `atlas_buffer`), bitmaps over `image::GrayImage` (`raster`, `glyph`), the
  P5 image format (`ppm`), the two cube meshes (`proc_cube`,
  `cube_geometry`), frame timing (`counter`), renderer selection
  (`renderer_pool`), window-event and frame-loop decisions (`window_events`,
  `frame`), device selection (`device`), text quad indices
  (`text_geometry`) and settings (`config`).
- `app/` is the command-line front end: it reads fonts with `ab_glyph`,
  does the floating-point work (UV coordinates, transforms with `glam`,
  text layout) and the file I/O, and calls the library for the rest.
- `tests/` exercises the library on concrete values.
