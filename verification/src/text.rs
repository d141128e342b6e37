//! The texts of messages: decimal numbers and lists of bytes.
use vstd::prelude::*;
use vstd::string::*;

verus! {

/// The decimal digit of a number below ten.
pub open spec fn digit(n: nat) -> char {
    ('0' as nat + n) as char
}

/// A natural number in decimal digits.
pub open spec fn decimal(n: nat) -> Seq<char>
    decreases n,
{
    if n < 10 {
        seq![digit(n)]
    } else {
        decimal(n / 10).push(digit(n % 10))
    }
}

/// Bytes in decimal digits, with commas between them.
pub open spec fn comma_list(bytes: Seq<u8>) -> Seq<char>
    decreases bytes.len(),
{
    if bytes.len() == 0 {
        Seq::empty()
    } else if bytes.len() == 1 {
        decimal(bytes[0] as nat)
    } else {
        comma_list(bytes.drop_last()) + ", "@ + decimal(bytes.last() as nat)
    }
}

/// A path as messages show it: the list of its bytes in square brackets.
pub open spec fn path_text(path: Seq<u8>) -> Seq<char> {
    "["@ + comma_list(path) + "]"@
}

fn digit_text(n: u32) -> (text: &'static str)
    requires
        n < 10,
    ensures
        text@ == seq![digit(n as nat)],
{
    proof {
        reveal_strlit("0");
        reveal_strlit("1");
        reveal_strlit("2");
        reveal_strlit("3");
        reveal_strlit("4");
        reveal_strlit("5");
        reveal_strlit("6");
        reveal_strlit("7");
        reveal_strlit("8");
        reveal_strlit("9");
    }
    if n == 0 {
        "0"
    } else if n == 1 {
        "1"
    } else if n == 2 {
        "2"
    } else if n == 3 {
        "3"
    } else if n == 4 {
        "4"
    } else if n == 5 {
        "5"
    } else if n == 6 {
        "6"
    } else if n == 7 {
        "7"
    } else if n == 8 {
        "8"
    } else {
        "9"
    }
}

/// Appends a number in decimal digits.
pub fn append_decimal(text: &mut String, n: u32)
    ensures
        final(text)@ == old(text)@ + decimal(n as nat),
    decreases n,
{
    if n >= 10 {
        append_decimal(text, n / 10);
    }
    text.append(digit_text(n % 10));
}

/// Appends a path as messages show it.
pub fn append_path(text: &mut String, path: &[u8])
    ensures
        final(text)@ == old(text)@ + path_text(path@),
{
    let ghost before = text@;
    text.append("[");
    let mut i: usize = 0;
    while i < path.len()
        invariant
            i <= path.len(),
            text@ == before + "["@ + comma_list(path@.take(i as int)),
        decreases path.len() - i,
    {
        proof {
            let shown = path@.take(i + 1);
            assert(shown.drop_last() =~= path@.take(i as int));
            assert(shown.last() == path@[i as int]);
        }
        if i > 0 {
            text.append(", ");
        }
        append_decimal(text, path[i] as u32);
        proof {
            assert(text@ =~= before + "["@ + comma_list(path@.take(i + 1)));
        }
        i = i + 1;
    }
    assert(path@.take(i as int) =~= path@);
    text.append("]");
    assert(text@ =~= before + path_text(path@));
}

}
