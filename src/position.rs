use vstd::prelude::*;

verus! {

/// Where a new record goes: a global index, or an offset from the cursor.
pub enum ScrollPosition {
    Absolute { index: u32 },
    Relative { index: i32 },
}

/// The global index a position stands for when `cursor` positions exist: never past the
/// cursor, and a relative offset below zero stops at zero.
pub open spec fn resolve(position: ScrollPosition, cursor: nat) -> nat {
    let wanted: int = match position {
        ScrollPosition::Absolute { index } => index as int,
        ScrollPosition::Relative { index } => if cursor + index < 0 {
            0
        } else {
            cursor + index
        },
    };
    if wanted < cursor {
        wanted as nat
    } else {
        cursor
    }
}

impl ScrollPosition {
    /// The global index this position resolves to when `cursor` positions exist.
    pub fn eval(&self, cursor: u32) -> (r: u32)
        ensures
            r == resolve(*self, cursor as nat),
    {
        let wanted: i64 = match self {
            ScrollPosition::Absolute { index } => *index as i64,
            ScrollPosition::Relative { index } => {
                let sum: i64 = cursor as i64 + *index as i64;
                if sum < 0 {
                    0
                } else {
                    sum
                }
            },
        };
        if wanted < cursor as i64 {
            wanted as u32
        } else {
            cursor
        }
    }
}

} // verus!
