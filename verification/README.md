# peergos_fs

The logic of a private, end-to-end encrypted filesystem, verified with Verus: capabilities
and secret links, cryptree nodes, files and directories in chunks, zip archives that are
changed in place, what friends share, the social feed, email, login and quotas.

- `src/` is the verified library. It does no I/O. What comes from the network, from a
  key, from chance or from the clock is an argument; where such work alternates with
  decisions, a type says at each step what is to be done next and takes in what came of it.
- `tests/` runs the library on concrete values, with the real `crc32fast` and `flate2`.
- `app/` is ordinary Rust around the library: it fetches blocks, encrypts, signs and posts.

Every public function states its result over mathematical models: views of the data types,
the CBOR that a value is written as, and what a value of CBOR is read as. The functions
named `law_…` state what holds across functions: what is written is read back, an archive
keeps what is not touched, a path leads to one place, every link is listed once.
