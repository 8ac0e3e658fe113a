//! Default display names: a deterministic human-readable nickname derived
//! from the user identifier, used until the player picks a name.

use crate::username::{allowed_char, valid_name};
use vstd::prelude::*;
use vstd::string::{StrSliceExecFns, StringExecFns};

verus! {

/// The decimal digit character for `n`.
pub open spec fn digit_char(n: nat) -> char {
    if n == 0 {
        '0'
    } else if n == 1 {
        '1'
    } else if n == 2 {
        '2'
    } else if n == 3 {
        '3'
    } else if n == 4 {
        '4'
    } else if n == 5 {
        '5'
    } else if n == 6 {
        '6'
    } else if n == 7 {
        '7'
    } else if n == 8 {
        '8'
    } else {
        '9'
    }
}

/// The decimal digits of `n`, most significant first.
pub open spec fn dec_seq(n: nat) -> Seq<char>
    decreases n,
{
    if n < 10 {
        seq![digit_char(n)]
    } else {
        dec_seq(n / 10).push(digit_char(n % 10))
    }
}

/// The nickname assigned to a user: a fixed stem followed by the last four
/// decimal digits of the identifier. It depends on the identifier alone.
pub open spec fn nickname_spec(uid: u128) -> Seq<char> {
    "Player"@ + dec_seq((uid % 10000) as nat)
}

/// Appends the decimal digits of `n` to `s`.
fn push_decimal(s: &mut String, n: u64)
    ensures
        final(s)@ == old(s)@ + dec_seq(n as nat),
    decreases n,
{
    if n >= 10 {
        push_decimal(s, n / 10);
    }
    let d = n % 10;
    let ds: &str = if d == 0 {
        "0"
    } else if d == 1 {
        "1"
    } else if d == 2 {
        "2"
    } else if d == 3 {
        "3"
    } else if d == 4 {
        "4"
    } else if d == 5 {
        "5"
    } else if d == 6 {
        "6"
    } else if d == 7 {
        "7"
    } else if d == 8 {
        "8"
    } else {
        "9"
    };
    proof {
        reveal_strlit("0");
        reveal_strlit("1");
        reveal_strlit("2");
        reveal_strlit("3");
        reveal_strlit("4");
        reveal_strlit("5");
        reveal_strlit("6");
        reveal_strlit("7");
        reveal_strlit("8");
        reveal_strlit("9");
        assert(ds@ =~= seq![digit_char((n % 10) as nat)]);
        if n < 10 {
            assert(dec_seq(n as nat) == seq![digit_char(n as nat)]);
        }
    }
    s.append(ds);
    proof {
        assert(s@ =~= old(s)@ + dec_seq(n as nat));
    }
}

/// The default nickname for a user identifier; the same identifier always
/// yields the same name.
pub fn gen_nickname(uid: u128) -> (r: String)
    ensures
        r@ == nickname_spec(uid),
{
    let mut s = String::from_str("Player");
    let tail: u64 = (uid % 10000) as u64;
    push_decimal(&mut s, tail);
    s
}

/// Every digit of a decimal rendering is a digit character.
proof fn lemma_dec_seq_digits(n: nat)
    ensures
        forall|i: int| 0 <= i < dec_seq(n).len() ==> allowed_char(#[trigger] dec_seq(n)[i]),
    decreases n,
{
    if n >= 10 {
        lemma_dec_seq_digits(n / 10);
        assert forall|i: int| 0 <= i < dec_seq(n).len() implies allowed_char(
            #[trigger] dec_seq(n)[i],
        ) by {
            if i < dec_seq(n / 10).len() {
                assert(dec_seq(n)[i] == dec_seq(n / 10)[i]);
            } else {
                assert(dec_seq(n)[i] == digit_char(n % 10));
            }
        }
    }
}

/// Generated nicknames always pass the display-name validation rule.
pub proof fn lemma_nickname_valid(uid: u128)
    ensures
        valid_name(nickname_spec(uid)),
{
    reveal_strlit("Player");
    lemma_dec_seq_digits((uid % 10000) as nat);
    assert(forall|i: int|
        0 <= i < nickname_spec(uid).len() ==> allowed_char(#[trigger] nickname_spec(uid)[i]))
        by {
        assert(forall|i: int| 0 <= i < 6 ==> allowed_char(#[trigger] "Player"@[i]));
    }
}

} // verus!
