pub mod arg;
pub mod binarch;
pub mod magic;

pub use crate::arg::Level;
pub use crate::binarch::Binarch;
pub use crate::magic::Arch;
pub use crate::magic::Endian;
pub use crate::magic::Kind;
