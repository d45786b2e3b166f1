//! Instance and destination names.
use vstd::prelude::*;
use crate::text::{same_text, to_chars};

verus! {

/// A character allowed in a name: lowercase ASCII letter, digit, `-` or `_`.
pub open spec fn name_char(c: char) -> bool {
    ('a' <= c <= 'z') || ('0' <= c <= '9') || c == '-' || c == '_'
}

/// Names that some file systems reserve.
pub open spec fn reserved_name(s: Seq<char>) -> bool {
    s == seq!['c', 'o', 'n'] || s == seq!['p', 'r', 'n'] || s == seq!['a', 'u', 'x'] || s
        == seq!['n', 'u', 'l'] || s == seq!['c', 'o', 'm', '1'] || s == seq!['l', 'p', 't', '1']
}

/// A valid instance or destination name: 1 to 64 allowed characters (all of them
/// ASCII, so also 1 to 64 bytes), and not a reserved device name.
pub open spec fn spec_valid_name(s: Seq<char>) -> bool {
    &&& 0 < s.len() <= 64
    &&& forall|i: int| 0 <= i < s.len() ==> name_char(#[trigger] s[i])
    &&& !reserved_name(s)
}

fn is_name_char(c: char) -> (r: bool)
    ensures
        r == name_char(c),
{
    (c >= 'a' && c <= 'z') || (c >= '0' && c <= '9') || c == '-' || c == '_'
}

fn is_reserved(s: &[char]) -> (r: bool)
    ensures
        r == reserved_name(s@),
{
    let con = ['c', 'o', 'n'];
    let prn = ['p', 'r', 'n'];
    let aux = ['a', 'u', 'x'];
    let nul = ['n', 'u', 'l'];
    let com1 = ['c', 'o', 'm', '1'];
    let lpt1 = ['l', 'p', 't', '1'];
    assert(con@ =~= seq!['c', 'o', 'n']);
    assert(prn@ =~= seq!['p', 'r', 'n']);
    assert(aux@ =~= seq!['a', 'u', 'x']);
    assert(nul@ =~= seq!['n', 'u', 'l']);
    assert(com1@ =~= seq!['c', 'o', 'm', '1']);
    assert(lpt1@ =~= seq!['l', 'p', 't', '1']);
    same_text(s, &con) || same_text(s, &prn) || same_text(s, &aux) || same_text(s, &nul)
        || same_text(s, &com1) || same_text(s, &lpt1)
}

/// Whether `s` is a valid name (on its characters).
pub fn valid_name_chars(s: &[char]) -> (r: bool)
    ensures
        r == spec_valid_name(s@),
{
    if s.len() == 0 || s.len() > 64 {
        return false;
    }
    let mut i: usize = 0;
    while i < s.len()
        invariant
            i <= s@.len(),
            forall|k: int| 0 <= k < i ==> name_char(#[trigger] s@[k]),
        decreases s@.len() - i,
    {
        if !is_name_char(s[i]) {
            return false;
        }
        i = i + 1;
    }
    !is_reserved(s)
}

/// Whether `name` may name an instance or a destination.
pub fn valid_name(name: &str) -> (r: bool)
    ensures
        r == spec_valid_name(name@),
{
    let cs = to_chars(name);
    valid_name_chars(&cs)
}

} // verus!
