# deflate

A DEFLATE (RFC 1951) decompressor with gzip (RFC 1952), zlib (RFC 1950) and
ustar archive readers, written in Verus.

- `src/bit_reader.rs`: reading a byte slice bit by bit, with `lsb_value` and
  `msb_value` as the model of what a read returns.
- `src/deflate/`: canonical Huffman tables, length/distance codes, the three
  block types and `read_deflate`, each specified by a spec function over the
  input bytes (`inflate_spec` for a whole stream).
- `src/gzip.rs`, `src/zlib.rs`: the container formats; checksums are computed
  by `crc32fast` and `adler` and specified by `crc32_spec` and `adler32_spec`.
- `src/tar.rs`, `src/tar/header.rs`: ustar headers and the decision of what
  each entry asks for (`tar_entry`, `tar_advance`).
- Each reader has a `try_` form that takes any input and reports each fault
  as an error, and a plain form that requires input that is not broken and
  returns the decoded value.
- `app/main.rs`: the command line program: file I/O and extraction.
- `tests/`: executable tests of the library.
