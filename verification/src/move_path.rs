use vstd::prelude::*;
use vstd::string::StringExecFns;
use crate::direction::Direction;

verus! {

/// How a piece was moved in one step: not at all (the start), one cell, or two cells one
/// after the other.
#[derive(Clone, Copy, PartialEq, Eq, Debug, Structural)]
pub enum MovePath {
    Start,
    One(Direction),
    Two(Direction, Direction),
}

impl MovePath {
    /// The move as it is shown to a reader.
    pub open spec fn spec_text(self) -> Seq<char> {
        match self {
            MovePath::Start => seq!['N', 'o', 'n', 'e'],
            MovePath::One(d) => d.spec_name(),
            MovePath::Two(d1, d2) => d1.spec_name() + seq![' ', 'a', 'n', 'd', ' '] + d2.spec_name(),
        }
    }

    /// Writes the move: `None`, the name of the direction, or the two names joined by
    /// ` and `.
    pub fn render(&self) -> (r: String)
        ensures
            r@ == self.spec_text(),
    {
        match self {
            MovePath::Start => {
                proof {
                    reveal_strlit("None");
                }
                let r = String::from_str("None");
                assert(r@ =~= self.spec_text());
                r
            },
            MovePath::One(d) => String::from_str(d.name()),
            MovePath::Two(d1, d2) => {
                proof {
                    reveal_strlit(" and ");
                }
                let mut r = String::from_str(d1.name());
                r.append(" and ");
                r.append(d2.name());
                assert(r@ =~= self.spec_text());
                r
            },
        }
    }
}

} // verus!
