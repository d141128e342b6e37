//! Conflicts between a requested permission and one that is already out.
use vstd::prelude::*;
use vstd::string::*;

use crate::text::{append_decimal, append_path, decimal, path_text};

verus! {

/// What holds the path of a conflict.
#[derive(Debug, Clone, Copy, PartialEq, Eq, Structural)]
pub enum IsTracking {
    /// A writer
    WriteZipper,
    /// So many readers
    ReadZipper(u32),
}

/// An existing permission that stands in the way of a requested one.
#[derive(Debug)]
pub struct Conflict {
    with: IsTracking,
    at: Vec<u8>,
}

/// What a [`Conflict`] tells.
pub struct ConflictView {
    pub with: IsTracking,
    pub at: Seq<u8>,
}

impl View for Conflict {
    type V = ConflictView;

    closed spec fn view(&self) -> ConflictView {
        ConflictView { with: self.with, at: self.at@ }
    }
}

/// The text of a conflict.
pub open spec fn conflict_text(conflict: ConflictView) -> Seq<char> {
    let holder = match conflict.with {
        IsTracking::WriteZipper => "write zipper"@,
        IsTracking::ReadZipper(count) => "read zipper (arity: "@ + decimal(count as nat) + ")"@,
    };
    "conflicts with existing zipper: "@ + holder + " @ "@ + path_text(conflict.at) + "\n"@
}

impl Conflict {
    /// A conflict with what holds the path `at`.
    pub fn new(with: IsTracking, at: Vec<u8>) -> (conflict: Self)
        ensures
            conflict@ == (ConflictView { with, at: at@ }),
    {
        Conflict { with, at }
    }

    /// The path that is already taken.
    pub fn path(&self) -> (path: &[u8])
        ensures
            path@ == self@.at,
    {
        self.at.as_slice()
    }

    /// The text of the conflict.
    pub fn text(&self) -> (text: String)
        ensures
            text@ == conflict_text(self@),
    {
        let mut text = String::new();
        text.append("conflicts with existing zipper: ");
        match self.with {
            IsTracking::WriteZipper => {
                text.append("write zipper");
            },
            IsTracking::ReadZipper(count) => {
                text.append("read zipper (arity: ");
                append_decimal(&mut text, count);
                text.append(")");
            },
        }
        text.append(" @ ");
        append_path(&mut text, self.at.as_slice());
        text.append("\n");
        assert(text@ =~= conflict_text(self@));
        text
    }
}

}
