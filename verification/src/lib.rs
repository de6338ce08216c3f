//! A DEFLATE (RFC 1951) decompressor with gzip (RFC 1952), zlib (RFC 1950)
//! and ustar archive readers on top of it.
//!
//! Every decoder is specified by a mathematical model over the input bytes:
//! the executable functions are proved to return exactly what the model
//! gives, and to report an error exactly where the model has one.
//!
//! Each reader comes in two forms. The `try_` form takes any input and
//! reports every fault of it as an error. The plain form takes only input
//! that is not broken (its `requires` rules the faults out) and returns the
//! decoded value itself; where it still returns a `Result`, the errors left
//! are those of input that is cut short or does not start with the format's
//! magic bytes.

pub mod bit_reader;
pub mod deflate;
pub mod gzip;
pub mod tar;
pub mod text;
pub mod zlib;
