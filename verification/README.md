# tile_sight

A small top-down game: an actor walks over a grid of tiles and uncovers them
by casting rays around itself; walls block the view, a goal tile can be
placed with the mouse, and the grid can be edited by clicking and dragging.

- `src/` is the verified library (Verus): the tile grid and its lookups
  (`map`), the editing, key and drawing decisions of a frame (`game`), the
  pixels of the tile sheet (`img_tile`) and the save bookkeeping
  (`save_manager`: when a save may happen, and a free file name for it).
- `app/` is the program around it (ggez window, floating-point geometry of
  the actor and its rays, file I/O and JSON).
- `tests/` exercises the library on concrete values.
