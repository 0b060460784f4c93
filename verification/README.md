# cozip

The archive core of CoZip, verified with Verus: ZIP archives with ZIP64 and
chunk indexes, CoZip directory streams, entry names and paths, progress, the
order and scheduling of files, and the decisions of the Windows installer.

* `src/` is the library. It works on bytes and plain values and reads or writes
  no file. Each function states what it returns; laws that span functions stand
  in public proof functions whose names start with `law_`.
  * `zip_write`, `zip_read`, `zip_entry`, `extra`, `czdi`, `le`: the ZIP format.
  * `zip_file`, `zip_dir`, `zip_single`, `pipeline`, `extract_dir`: whole archives.
  * `zip_laws`, `single_laws`: what is written is read back.
  * `dir_encode`, `dir_stream`, `dir_prefetch`, `dir_read`, `dispatch`: directories
    as streams.
  * `names`, `paths`, `order`: names and where they lead. Whether a system knows
    drives is told by a `PathStyle`.
  * `formats`, `routes`, `foreign`, `options`, `progress`, `types`, `error`.
  * `installer`: the installer's screens and steps.
  * `trusted`: the functions of other crates and of the standard library whose
    behaviour is taken as given.
* `tests/` holds the tests.
* `app/` is the program around the library: files, threads, compressors, the
  installer's window.
