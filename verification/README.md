# vecls

Verified decisions for `ls`, `cp` and `rm` on NFS mounts that a vectorized
backend serves: many operations in one request instead of one by one.

* `src/` is the library. Every function in it has a contract, and Verus proves
  all of them but those of the few functions named under "What is trusted".
  It does no input or output: facts come in as plain values, and decisions go
  out. Where the two alternate (a recursive listing, the copy of a file) there is
  a machine with two methods: `step` says what is to be done next, `advance`
  takes in what came of it.
* `tests/` runs the library on concrete values, and holds its paths, lines and
  numbers against those of the standard library.
* `app/` is the ordinary Rust around it: command line, file system, backends,
  standard output.

## What is proved

Each function's contract says what it returns for every input. Public proof
functions whose names start with `law_` say what holds across functions:

* The order of a listing is determined; it shows every entry once, directories
  first where asked for; and entries that a backend reports are put in exactly
  the order in which local entries are, in every sort mode and with every setting.
  Names that only other rules can compare, those of a locale or of versions, come
  in the order of these comparisons.
* A recursive listing takes up no directory twice, goes through subdirectories in
  the order in which they are shown, fails exactly where a tree cannot be walked
  or a directory cannot be told from others, and ends, whatever links there are.
* In a tree that was walked whole, a directory is listed exactly where every name
  that leads to it is displayed, and told by the root as it was given.
* Names on a mount and names on its server stand for each other; the mount point
  that is found lies over the path, and none that does is longer; what is removed
  lies strictly below its mount point.
* Of directories that are listed together each is asked for once, and each place
  gets exactly the reports on its directory.
* What is read ahead is bounded in files and bytes, and a failure ends it without
  an error and without losing what was read; copies of one batch do not get in
  each other's way; a file that is read from the server is copied whole, and its
  source is closed whatever goes wrong while it is read.

## What is trusted

A few functions marked `#[verifier::external_body]` call code that Verus does not
see: UTF-8 decoding of the standard library, the permission bits and the
read-only flag of `libc`, and insertion into the hash set of `rustc-hash`. Their doc comments say what is
believed of each.
