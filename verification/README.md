# massif

Terrain-RGB tiles from elevation rasters, packaged as PMTiles or MBTiles.

The work starts from the tiles that cover the input at the first zoom. A tile with data goes on to
its four children, as far as they lie within the bounds of their zoom. An empty tile rules out
everything below it. A tile of one colour can stand for everything below it. Interrupted runs are
taken up again where they stood.

## Layout

`src/` is the library. It decides; it reads and writes nothing. Every function states what it
returns or changes, and Verus proves it.

| Module | What it holds |
|---|---|
| `frontier` | tiles, bounds, children, descendants, file names |
| `pyramid` | how descendants divide among children, and how many tiles a run has |
| `tile_id` | the ids by which an archive orders its tiles |
| `generation` | what each tile adds to the tally, the progress and the next frontier |
| `coverage` | no candidate tile is missed or done twice; what an archive holds |
| `mbtiles_coverage` | what an MBTiles file holds, wherever its run was interrupted |
| `pipeline` | outcomes of tiles, tallies, chunks |
| `pmtiles_flow` | PMTiles runs: start, resume, zoom by zoom, repair |
| `mbtiles_flow`, `mbtiles` | MBTiles runs, and what stands in the file |
| `spool` | the staging directory: paths, and the text of its files |
| `archive` | which tiles an archive gets, from where, in which order |
| `progress` | one bar over both stages of a run |
| `raster`, `image_format` | read windows, samples, colours, pixels, images |
| `options`, `text` | the command line; numbers, lines and words |

Proof functions whose names begin with `law_` state what holds of the library as a whole.

`app/` is the program around it: GDAL, SQLite, files, threads, the progress bar, and whatever is
computed in floating point. `tests/` runs the library.

## What is trusted

Five functions stand for outside code, and their contracts are believed:

- `archive_tile_id` (`tile_id`): the ids of the `pmtiles` crate, as places on the Hilbert curve,
- `sort_by_id` (`archive`): `sort_by_key` of the standard library,
- `encode_png` and `encode_webp` (`image_format`): the encoders of the `image` crate,
- `encode_libwebp` (`image_format`): libwebp, for WebP with a level of compression.

## Limits

A tile's key has 29 bits each for its column and its row. Two tiles of zoom 30 or 31 can share a
key, so what is stated of sets of keys is stated of areas whose columns and rows fit: all of them up
to zoom 29, and deeper down those left of and above column and row 2^29.

Without `--compress`, images are made by encoders in Rust. With it, the level is that of the PNG
encoder or, for WebP, of libwebp's lossless presets. libwebp weighs its choices in floating point, so
its bytes can differ from machine to machine; the pixels are the same.
