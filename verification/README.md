# dupwalker

Finds near-duplicate images. A server walks directories, hashes every image
it finds with two perceptual hashes (the average hash and the difference
hash), keeps the hashes in a JSON cache file, reports images whose hashes
are near each other, and serves its progress to a web front end.

- `src/` is the verified library:
  - `bits`: counting set bits (`count_bits`), with the laws on complements.
  - `hasher`: the average and difference hashes of a grid of gray levels,
    the reduction of an image to that grid through the `image` crate, and
    the `Hasher` trait with `AHasher` and `DHasher`.
  - `dupfinder`: `DupFinderMap`, hashes bucketed by their count of set
    bits, its search, and the report of near duplicates.
  - `status_mgr`: `StatusMgr`, the data kept per image path and the state
    of the scan, over `assoc` (pair lists read as maps).
  - `status` and `summary`: the status the front end is sent and the texts
    it shows.
  - `file_walker`: which walked entries are images to scan.
- `app/` is the server program: argument handling, the threads and channels
  of the pipeline, file and image I/O, JSON, and the HTTP routes.
