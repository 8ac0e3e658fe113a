//! Display-name validation: a name is accepted iff it is non-empty and
//! every character is an ASCII letter, digit, underscore or hyphen.

use vstd::prelude::*;
use vstd::string::StrSliceExecFns;

verus! {

/// A character a display name may contain.
pub open spec fn allowed_char(c: char) -> bool {
    ('0' <= c && c <= '9') || ('a' <= c && c <= 'z') || ('A' <= c && c <= 'Z') || c == '-' || c
        == '_'
}

/// A valid display name: non-empty, every character from the allowed set.
pub open spec fn valid_name(s: Seq<char>) -> bool {
    s.len() > 0 && forall|i: int| 0 <= i < s.len() ==> allowed_char(#[trigger] s[i])
}

/// Accepts exactly the valid display names; the error text names the rule
/// that failed.
pub fn check_username(s: &str) -> (r: Result<(), String>)
    ensures
        r is Ok <==> valid_name(s@),
        s@.len() == 0 ==> (r matches Err(m) && m@ == "Has to be non-empty"@),
        s@.len() > 0 && !valid_name(s@) ==> (r matches Err(m) && m@
            == "Allowed characters: a-z A-Z 0-9 _-"@),
{
    let n = s.unicode_len();
    if n == 0 {
        return Err("Has to be non-empty".to_owned());
    }
    let mut i: usize = 0;
    while i < n
        invariant
            n == s@.len(),
            i <= n,
            forall|j: int| 0 <= j < i ==> allowed_char(#[trigger] s@[j]),
        decreases n - i,
    {
        let c = s.get_char(i);
        let ok = ('0' <= c && c <= '9') || ('a' <= c && c <= 'z') || ('A' <= c && c <= 'Z') || c
            == '-' || c == '_';
        if !ok {
            return Err("Allowed characters: a-z A-Z 0-9 _-".to_owned());
        }
        i += 1;
    }
    Ok(())
}

} // verus!
