//! An embeddable, single-file persistent key-value store with 32-byte keys,
//! variable-length values and time-bounded lookups.
//!
//! The store works on a file image held as bytes: a fixed header, a root table
//! of per-bucket head pointers, and an append-only region of prefixed value
//! records chained newest-to-oldest per bucket. Every operation on the image
//! is verified against a ghost model of the bucket chains; reading and writing
//! the image to disk is left to the embedding program.
#![verifier::loop_isolation(false)]

pub mod bytes;
pub mod hashstore;
pub mod io;
pub mod header;
pub mod model;
pub mod values;

pub use hashstore::get_root_index;
pub use hashstore::HashStore;
pub use hashstore::HashStoreError;
pub use hashstore::HashStoreSetResult;
pub use hashstore::SearchDepth;
pub use header::Header;
pub use header::MAGIC_FILE_ID;
pub use io::read_value_finish;
pub use io::read_value_start;
pub use io::write_value;
pub use values::ptr_file_pos;
pub use values::ptr_new;
pub use values::ptr_size_est;
pub use values::ValuePrefix;
pub use values::ValuePtr;
