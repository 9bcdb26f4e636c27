//! Fixed-capacity key/value tables with two collision-resolution strategies
//! (linear-probing open addressing and separate chaining) and two
//! slot-assignment policies (key-modulo-capacity and mid-square).

pub mod chaining;
pub mod entry;
pub mod hashing;
pub mod open_addressing;
pub mod table;

pub use crate::chaining::SCHashTable;
pub use crate::entry::HashEntry;
pub use crate::hashing::HashType;
pub use crate::open_addressing::OAHashTable;
pub use crate::table::HashTable;
