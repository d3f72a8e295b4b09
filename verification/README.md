# copycat

Finds look-alike images in a directory. Each image file gets a perceptual
hash (`image_hasher`); the hashes are kept in a cache file `./.x3c` inside the
directory, one line `<hash> // <path>` per file, so that a later run only
hashes new files; files whose hashes lie within a Hamming distance of each
other are reported in groups.

- `src/` is the library, verified with Verus: the cache format and its
  read-back laws (`cookiejar`, `kitty::cheetah`), the walk over a directory
  listing (`lynx`), the choice of the files to hash (`cheetah`), the grouping
  of look-alike files (`kitty`), the hashing of an image file's contents
  and the Hamming distance (`imagehash`), and paths compared by components
  (`path`).
- `app/` is the program around it: arguments, the file system, threads and
  progress bars.
- `tests/` runs the library on concrete values.
