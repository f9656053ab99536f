# zarr_tui

A terminal viewer for Zarr geospatial datasets, whose core is verified with
Verus.

- `src/` is the verified library:
  - `cache.rs`: chunk values (`ChunkData`, an `ndarray` array of `f32` bit
    patterns) and the least-recently-used chunk cache (`lru`), behind trusted
    wrappers whose contracts state what the two crates do;
  - `chunk_manager.rs`: chunk geometry, cached reads, block-averaging samples,
    the load schedule (which chunk to read next, what stays pending) and the
    chunks a view covers, with the laws that tie them together;
  - `colormap.rs`: the colormaps and their cycling order;
  - `dataset.rs`: coordinate arrays, data variables and latitude/longitude axes;
  - `storage.rs`: store locations (`url`), array names found in listings, their
    sorted order, and the AWS credentials file format;
  - `viewer.rs`: what each key does, the help overlay's text and layout, and the
    index ranges a screen cell covers.
- `app/` is the program around it: terminal I/O (`crossterm`, `ratatui`),
  reading stores (`zarrs`, `object_store`, `tokio`), and the floating-point
  parts (camera, colour interpolation, averaging) that the library leaves out.
- `tests/` exercises the library on concrete values.
