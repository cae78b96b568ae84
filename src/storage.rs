pub mod codec;
pub mod diskseg;
pub mod files;
pub mod keys;
pub mod lsm;
pub mod tree;
