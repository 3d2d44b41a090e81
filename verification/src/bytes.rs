use vstd::prelude::*;

verus! {

/// Value of a byte sequence read least significant byte first.
pub open spec fn le_value(s: Seq<u8>) -> nat
    decreases s.len(),
{
    if s.len() == 0 {
        0
    } else {
        s[0] as nat + 256 * le_value(s.drop_first())
    }
}

/// Value of a byte sequence read most significant byte first.
pub open spec fn be_value(s: Seq<u8>) -> nat
    decreases s.len(),
{
    if s.len() == 0 {
        0
    } else {
        be_value(s.drop_last()) * 256 + s.last() as nat
    }
}


/// `256` to the power `n`.
pub open spec fn pow256(n: nat) -> nat
    decreases n,
{
    if n == 0 {
        1
    } else {
        256 * pow256((n - 1) as nat)
    }
}

/// The `n` low bytes of `x`, most significant first.
pub open spec fn be_bytes(x: nat, n: nat) -> Seq<u8>
    decreases n,
{
    if n == 0 {
        Seq::empty()
    } else {
        be_bytes(x / 256, (n - 1) as nat).push((x % 256) as u8)
    }
}

/// The `n` low bytes of `x`, least significant first.
pub open spec fn le_bytes(x: nat, n: nat) -> Seq<u8>
    decreases n,
{
    if n == 0 {
        Seq::empty()
    } else {
        seq![(x % 256) as u8] + le_bytes(x / 256, (n - 1) as nat)
    }
}

/// The signed 64-bit integer whose two's complement bits are `raw`.
pub open spec fn signed_of(raw: nat) -> int {
    if raw >= 0x8000_0000_0000_0000 {
        raw - 0x1_0000_0000_0000_0000
    } else {
        raw as int
    }
}

/// The two's complement bits of `v`, read as an unsigned number.
pub open spec fn unsigned_of(v: i64) -> nat {
    if v >= 0 {
        v as nat
    } else {
        (v + 0x1_0000_0000_0000_0000) as nat
    }
}

pub proof fn lemma_pow256_positive(n: nat)
    ensures
        pow256(n) > 0,
    decreases n,
{
    if n > 0 {
        lemma_pow256_positive((n - 1) as nat);
    }
}

/// `256` to a power of at most 7 is at most `2^56`.
pub proof fn lemma_pow256_small(n: nat)
    requires
        n <= 7,
    ensures
        pow256(n) <= 0x100_0000_0000_0000,
{
    lemma_pow256_monotone(n, 7);
    reveal_with_fuel(pow256, 8);
}

/// Powers of 256 grow with the exponent.
pub proof fn lemma_pow256_monotone(n: nat, m: nat)
    requires
        n <= m,
    ensures
        pow256(n) <= pow256(m),
    decreases m,
{
    if n < m {
        lemma_pow256_monotone(n, (m - 1) as nat);
        lemma_pow256_positive((m - 1) as nat);
    }
}

/// A value read from `n` bytes is below `256^n`.
pub proof fn lemma_be_value_bound(s: Seq<u8>)
    ensures
        be_value(s) < pow256(s.len()),
    decreases s.len(),
{
    if s.len() > 0 {
        lemma_be_value_bound(s.drop_last());
    }
}

/// A value read from `n` bytes is below `256^n`.
pub proof fn lemma_le_value_bound(s: Seq<u8>)
    ensures
        le_value(s) < pow256(s.len()),
    decreases s.len(),
{
    if s.len() > 0 {
        lemma_le_value_bound(s.drop_first());
    }
}

/// Writing the `n` low bytes of `x` most significant first and reading them
/// back gives `x` modulo `256^n`.
pub proof fn lemma_be_roundtrip(x: nat, n: nat)
    ensures
        be_bytes(x, n).len() == n,
        be_value(be_bytes(x, n)) == x % pow256(n),
    decreases n,
{
    if n == 0 {
        assert(x % 1 == 0);
    } else {
        let m = (n - 1) as nat;
        lemma_be_roundtrip(x / 256, m);
        lemma_pow256_positive(m);
        let b = be_bytes(x / 256, m);
        let c = (x % 256) as u8;
        assert(be_bytes(x, n).drop_last() =~= b);
        vstd::arithmetic::div_mod::lemma_mod_breakdown(x as int, 256, pow256(m) as int);
        assert(be_value(be_bytes(x, n)) == be_value(b) * 256 + c as nat);
    }
}

/// Writing the `n` low bytes of `x` least significant first and reading
/// them back gives `x` modulo `256^n`.
pub proof fn lemma_le_roundtrip(x: nat, n: nat)
    ensures
        le_bytes(x, n).len() == n,
        le_value(le_bytes(x, n)) == x % pow256(n),
    decreases n,
{
    if n == 0 {
        assert(x % 1 == 0);
    } else {
        let m = (n - 1) as nat;
        lemma_le_roundtrip(x / 256, m);
        lemma_pow256_positive(m);
        let b = le_bytes(x / 256, m);
        let c = (x % 256) as u8;
        assert(le_bytes(x, n).drop_first() =~= b);
        vstd::arithmetic::div_mod::lemma_mod_breakdown(x as int, 256, pow256(m) as int);
        assert(le_value(le_bytes(x, n)) == c as nat + 256 * le_value(b));
    }
}

} // verus!
