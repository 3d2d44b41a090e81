use vstd::prelude::*;
use crate::decimal::{append_decimal, decimal_chars, lemma_decimal_chars_injective};

verus! {

/// A test case kept by the fuzzer, known by the path of its file.
#[derive(Clone, Debug)]
pub struct Seed {
    pub filepath: String,
}

/// The file name of test case number `n`: `"tc-<n>"`.
pub fn test_case_name(n: u32) -> (r: String)
    ensures
        r@ == "tc-"@ + decimal_chars(n as nat),
{
    let mut out = String::from_str("tc-");
    append_decimal(&mut out, n as u64);
    out
}

/// Distinct test case numbers give distinct file names.
pub proof fn lemma_test_case_name_injective(a: u32, b: u32)
    ensures
        "tc-"@ + decimal_chars(a as nat) == "tc-"@ + decimal_chars(b as nat) ==> a == b,
{
    let p = "tc-"@;
    let x = p + decimal_chars(a as nat);
    let y = p + decimal_chars(b as nat);
    if x == y {
        assert(x.subrange(p.len() as int, x.len() as int) =~= decimal_chars(a as nat));
        assert(y.subrange(p.len() as int, y.len() as int) =~= decimal_chars(b as nat));
        lemma_decimal_chars_injective(a as nat, b as nat);
    }
}

} // verus!
