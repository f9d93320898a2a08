//! The tag in the three high bits of a header byte.

use vstd::prelude::*;

verus! {

pub const SPECIAL: u8 = 0;

pub const INTEGER: u8 = 1;

pub const FLOAT: u8 = 2;

pub const STRING: u8 = 3;

pub const ARRAY: u8 = 4;

pub const OBJECT: u8 = 5;

pub const ALIAS: u8 = 6;

#[derive(Debug, PartialEq, Eq, Clone, Copy)]
pub enum DataType {
    Special,
    Integer,
    Float,
    String,
    Array,
    Object,
    Alias,
}

impl DataType {
    /// The tag that stands for this family.
    pub open spec fn tag(self) -> u8 {
        match self {
            DataType::Special => SPECIAL,
            DataType::Integer => INTEGER,
            DataType::Float => FLOAT,
            DataType::String => STRING,
            DataType::Array => ARRAY,
            DataType::Object => OBJECT,
            DataType::Alias => ALIAS,
        }
    }

    /// The family that the tag `n` stands for, if it stands for one.
    pub fn from(n: u8) -> (r: Option<Self>)
        ensures
            n > ALIAS <==> r is None,
            r matches Some(t) ==> t.tag() == n,
    {
        if n == SPECIAL {
            Some(DataType::Special)
        } else if n == INTEGER {
            Some(DataType::Integer)
        } else if n == FLOAT {
            Some(DataType::Float)
        } else if n == STRING {
            Some(DataType::String)
        } else if n == ARRAY {
            Some(DataType::Array)
        } else if n == OBJECT {
            Some(DataType::Object)
        } else if n == ALIAS {
            Some(DataType::Alias)
        } else {
            None
        }
    }
}

} // verus!
