//! The tag in the five low bits of the header byte of a special value.

use vstd::prelude::*;

verus! {

pub const NONE: u8 = 0;

pub const NULL: u8 = 1;

pub const DEFINE: u8 = 2;

pub const FORGET: u8 = 3;

#[derive(Debug, PartialEq, Eq, Clone, Copy)]
pub enum SpecialType {
    Absent,
    Null,
    Define,
    Forget,
}

impl SpecialType {
    /// The tag that stands for this kind of special value.
    pub open spec fn tag(self) -> u8 {
        match self {
            SpecialType::Absent => NONE,
            SpecialType::Null => NULL,
            SpecialType::Define => DEFINE,
            SpecialType::Forget => FORGET,
        }
    }

    /// The kind that the tag `n` stands for, if it stands for one.
    pub fn from(n: u8) -> (r: Option<Self>)
        ensures
            n > FORGET <==> r is None,
            r matches Some(t) ==> t.tag() == n,
    {
        if n == NONE {
            Some(SpecialType::Absent)
        } else if n == NULL {
            Some(SpecialType::Null)
        } else if n == DEFINE {
            Some(SpecialType::Define)
        } else if n == FORGET {
            Some(SpecialType::Forget)
        } else {
            None
        }
    }
}

} // verus!
