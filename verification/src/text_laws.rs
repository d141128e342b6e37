//! What the texts of messages say.
use vstd::prelude::*;

use crate::conflict::{conflict_text, ConflictView, IsTracking};
use crate::errors::{refusal, taken_message};
use crate::permissions::{read_refusal, write_refusal, Permissions};
use crate::space::{reader_refused, status_refusal, writer_refused};
use crate::text::{comma_list, decimal, path_text};

verus! {

/// A number in decimal digits reads back as that number, and starts with no needless zero.
pub proof fn law_decimals_read_back(n: nat)
    ensures
        decimal(n).fold_left(
            0int,
            |read: int, digit: char| 10 * read + (digit as int - '0' as int),
        ) == n,
        forall|i: int| 0 <= i < decimal(n).len() ==> '0' <= #[trigger] decimal(n)[i] <= '9',
        decimal(n).len() > 0,
        decimal(n)[0] == '0' ==> decimal(n).len() == 1,
    decreases n,
{
    let f = |read: int, digit: char| 10 * read + (digit as int - '0' as int);
    if n < 10 {
        reveal_with_fuel(Seq::fold_left, 2);
        assert(decimal(n).drop_last() =~= Seq::empty());
    } else {
        law_decimals_read_back(n / 10);
        assert(decimal(n).drop_last() =~= decimal(n / 10));
        assert(decimal(n).fold_left(0int, f) == f(
            decimal(n / 10).fold_left(0int, f),
            decimal(n).last(),
        ));
        if decimal(n)[0] == '0' {
            assert(decimal(n / 10)[0] == '0');
            assert(decimal(n / 10).drop_last() =~= Seq::empty());
            reveal_with_fuel(Seq::fold_left, 2);
        }
    }
}

/// Lists of bytes are joined with commas, each byte in decimal digits.
pub proof fn law_lists_are_joined_with_commas(a: Seq<u8>, b: Seq<u8>)
    ensures
        comma_list(Seq::empty()) == Seq::<char>::empty(),
        a.len() == 1 ==> comma_list(a) == decimal(a[0] as nat),
        a.len() > 0 && b.len() > 0 ==> comma_list(a + b) == comma_list(a) + ", "@ + comma_list(b),
    decreases b.len(),
{
    if a.len() > 0 && b.len() > 0 {
        let both = a + b;
        assert(both.drop_last() =~= a + b.drop_last());
        assert(both.last() == b.last());
        if b.len() == 1 {
            assert(a + b.drop_last() =~= a);
        } else {
            law_lists_are_joined_with_commas(a, b.drop_last());
            assert(comma_list(both) =~= comma_list(a) + ", "@ + comma_list(b));
        }
    }
}

/// A path is shown as the list of its bytes in square brackets.
pub proof fn law_paths_are_shown_in_brackets(path: Seq<u8>)
    ensures
        path_text(path) == "["@ + comma_list(path) + "]"@,
{
}

/// A conflict tells who holds which path.
pub proof fn law_conflicts_tell_who_holds_what(at: Seq<u8>, count: u32)
    ensures
        conflict_text(ConflictView { with: IsTracking::WriteZipper, at })
            == "conflicts with existing zipper: "@ + "write zipper"@ + " @ "@ + path_text(at)
            + "\n"@,
        conflict_text(ConflictView { with: IsTracking::ReadZipper(count), at })
            == "conflicts with existing zipper: "@ + ("read zipper (arity: "@ + decimal(
            count as nat,
        ) + ")"@) + " @ "@ + path_text(at) + "\n"@,
{
}

/// A refused reader or writer is told the path that it asked for, and the conflict.
pub proof fn law_refusals_tell_path_and_conflict(permissions: Permissions, path: Seq<u8>)
    ensures
        permissions.read_conflict(path) matches Some(conflict) ==> {
            let refused = reader_refused(permissions, path);
            &&& refused.path == path
            &&& refused.message == "Conflict trying to acquire read zipper at "@ + path_text(path)
                + ", "@ + conflict_text(conflict)
            &&& refused.message == read_refusal(path, conflict)
        },
        permissions.write_conflict(path) matches Some(conflict) ==> {
            let refused = writer_refused(permissions, path);
            &&& refused.path == path
            &&& refused.message == "Conflict trying to acquire write zipper at "@ + path_text(path)
                + ", "@ + conflict_text(conflict)
            &&& refused.message == write_refusal(path, conflict)
        },
{
}

/// The messages of errors name what they are about.
pub proof fn law_messages_name_what_they_are_about(
    conflict: ConflictView,
    nice_path: Seq<char>,
    nice_existing_path: Seq<char>,
    kind: Seq<char>,
    path: Seq<u8>,
    form: Seq<char>,
)
    ensures
        taken_message(conflict, nice_path, nice_existing_path) == conflict_text(conflict)
            + " trying to take path: `"@ + nice_path + "` while `"@ + nice_existing_path
            + "` was already taken"@,
        refusal(kind, path, form) == "Permission error accessing path: "@ + kind + " { path: "@
            + path_text(path) + ", message: "@ + form + " }"@,
        status_refusal(form, path) == "Conflicting status: "@ + form + " at path: "@ + path_text(
            path,
        ) + " when attempting to set new status"@,
{
}

}
