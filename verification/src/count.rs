//! Pluralizing a noun according to a count.
use crate::text::{decimal, decimal_string};
use vstd::prelude::*;

verus! {

/// The noun with its multiplicity: `"1 cow"`, `"3 cows"`.
pub open spec fn spec_count(n: nat, noun: Seq<char>) -> Seq<char> {
    if n == 1 {
        decimal(n) + seq![' '] + noun
    } else {
        decimal(n) + seq![' '] + noun + seq!['s']
    }
}

/// Takes a number and a noun and returns the noun with the given multiplicity,
/// pluralizing it if necessary. For example, `(3, "cow")` becomes `"3 cows"`.
pub fn count(n: usize, noun: &str) -> (res: String)
    ensures
        res@ == spec_count(n as nat, noun@),
{
    let mut res = decimal_string(n);
    proof { reveal_strlit(" "); }
    res.append(" ");
    res.append(noun);
    if n != 1 {
        proof { reveal_strlit("s"); }
        res.append("s");
    }
    res
}

} // verus!
