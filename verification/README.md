# isomfolio-core

The catalog logic of IsomFolio, a photo library manager, written in Verus:
every function in `src/` carries a contract. The verifier proves each one,
except the small wrappers around outside crates and std (marked
`#[verifier::external_body]`), whose contracts are trusted.

## Layout

- `src/` – the verified library
  - `folder_tree` – the sidebar forest: trie of folders, compaction of
    pass-through folders, photo totals, library anchors, expansion paths
  - `query_sql` – the SQL statement and parameters behind a catalog search
  - `search` – full-text query sanitising and planning
  - `models` – flags, flag selections, rating filters, search queries, errors
  - `xml`, `xmp`, `xmp_read`, `xmp_doc` – reading, merging and writing XMP
    sidecars and embedded packets
  - `exif`, `exif_read`, `apple` – EXIF dates, the EXIF fields of an image, Finder tags
  - `phash`, `grouping_score` – near-duplicate stacks and grouping scores
  - `thumbnail_queue` – the thumbnail job queue and its coordinator/worker steps
  - `watch`, `sync_plan` – watcher event classification and debounce, folder
    sync bookkeeping
  - `clusters` – grouping faces by cluster label
  - `paths`, `fileops`, `text`, `layout`, `addon`, `events` – paths and names,
    text helpers, grid layout, add-on and event types
- `tests/` – tests of the library
- `app/` – the I/O around it: files, threads, the SQLite connection, the
  folder watcher, image decoding, and the floating-point parts of EXIF
  values, face clustering and image features
