//! The tags that the header byte of an encoded value carries.

pub mod data_type;
pub mod special_type;
