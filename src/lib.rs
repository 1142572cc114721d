pub mod error;
pub mod leb128;
pub mod table;
pub mod detect;
pub mod mutator;
pub mod convert;
pub mod compat;
pub mod net;
pub mod cli;
pub mod deps;
pub mod types;
pub mod extract;
pub mod analyse;

pub use compat::{adapt, Adaptation, BinVersion};
pub use convert::{expand_addr, expand_addr_table};
pub use detect::{address_length, NATIVE_ADDR_LEN};
pub use error::AdaptError;
pub use mutator::{Diff, Mutator};
