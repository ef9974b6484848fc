//! How the indentation of one line stands to that of the next.

use vstd::prelude::*;

verus! {

/// The width of the indentation steps that `Indentation::check` accepts.
pub const STEP: usize = 4;

/// How the indentation of a line stands to that of the line behind it.
#[derive(Debug, Clone, Copy, PartialEq, Eq, PartialOrd, Ord, Hash)]
pub enum Indentation {
    /// The current indentation is the smaller one.
    Smaller,
    /// Both are the same.
    Same,
    /// The current indentation is the larger one.
    Larger,
}

impl Indentation {
    /// How `current_indentation` stands to `next_indentation`.
    pub open spec fn compare(current_indentation: nat, next_indentation: nat) -> Indentation {
        if current_indentation < next_indentation {
            Indentation::Smaller
        } else if current_indentation == next_indentation {
            Indentation::Same
        } else {
            Indentation::Larger
        }
    }

    /// Compares the indentation of a line with that of the next line, which
    /// must be a multiple of four spaces.
    pub fn check(current_indentation: usize, next_indentation: usize) -> (relation: Option<Self>)
        ensures
            next_indentation % STEP != 0 ==> relation is None,
            next_indentation % STEP == 0 ==> relation == Some(
                Self::compare(current_indentation as nat, next_indentation as nat),
            ),
    {
        if next_indentation % STEP != 0 {
            return None;
        }
        if current_indentation < next_indentation {
            Some(Self::Smaller)
        } else if current_indentation == next_indentation {
            Some(Self::Same)
        } else {
            Some(Self::Larger)
        }
    }
}

} // verus!
