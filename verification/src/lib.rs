//! Fixed-layout codec for validator stake records and an append-only list of
//! such records kept inside one fixed-capacity byte buffer.

pub mod list;
pub mod validator;

pub use list::{CapacityError, ValidatorList, HEADER_SIZE};
pub use validator::{DecodeError, Validator, RECORD_SIZE};
