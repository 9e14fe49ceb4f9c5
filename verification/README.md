# dmmt

A map renderer for Minecraft worlds: region files are read chunk by chunk,
each column's top block, height and water depth are found, the columns are
assembled into a colour map and a height map of each dimension, and both are
cut into a pyramid of 256x256 tiles for a web map.

`src/` is the verified library:

- `block_to_rgb` – blocks, block colours, block-state names, the colour table
  and the record of names without a colour.
- `section` – reading a block out of a section's bit-packed palette indices.
- `chunk` – section order, name resolution and the column scan of a chunk.
- `region` – the region file header and chunk records (zlib via flate2).
- `map` – bounding box, the assembled map, land range, height shades and the
  water colour scale.
- `canvas` – RGB pixel buffers.
- `tiles` – zoom levels (resized with the image crate) and tile cutting.
- `text` – file and folder names, decimal numbers.

`app/` is the program around it: file system walk, NBT decoding (fastnbt and
serde), the land gradient (floating point), parallelism, writing WebP tiles
and the HTTP server with server-sent update events.
