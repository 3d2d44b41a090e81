use vstd::prelude::*;

verus! {

/// The byte is an ASCII decimal digit, `'0'` to `'9'`.
pub open spec fn is_ascii_digit(c: u8) -> bool {
    48 <= c <= 57
}

/// Every byte of `s` is an ASCII decimal digit.
pub open spec fn all_digits(s: Seq<u8>) -> bool {
    forall|i: int| 0 <= i < s.len() ==> is_ascii_digit(#[trigger] s[i])
}

/// Value of a run of ASCII digits, most significant first.
pub open spec fn digits_value(s: Seq<u8>) -> nat
    decreases s.len(),
{
    if s.len() == 0 {
        0
    } else {
        digits_value(s.drop_last()) * 10 + (s.last() - 48) as nat
    }
}

/// Signed decimal text: an optional `'-'` followed by at least one digit.
pub open spec fn is_decimal_text(s: Seq<u8>) -> bool {
    ||| s.len() >= 1 && all_digits(s)
    ||| s.len() >= 2 && s[0] == 45 && all_digits(s.drop_first())
}

/// The integer that signed decimal text denotes.
pub open spec fn decimal_text_value(s: Seq<u8>) -> int {
    if s.len() > 0 && s[0] == 45 {
        -(digits_value(s.drop_first()) as int)
    } else {
        digits_value(s) as int
    }
}

/// The value lies in the range of `i64`.
pub open spec fn fits_i64(v: int) -> bool {
    i64::MIN <= v <= i64::MAX
}

/// Decimal digits of `n`, most significant first, without leading zeros.
pub open spec fn decimal_digits(n: nat) -> Seq<u8>
    decreases n,
{
    if n < 10 {
        seq![(48 + n) as u8]
    } else {
        decimal_digits(n / 10).push((48 + n % 10) as u8)
    }
}

/// Decimal text of `v` as `to_string` writes it: a `'-'` before the
/// digits of a negative number.
pub open spec fn decimal_text(v: int) -> Seq<u8> {
    if v < 0 {
        seq![45u8] + decimal_digits((-v) as nat)
    } else {
        decimal_digits(v as nat)
    }
}

spec fn capped(v: nat) -> nat {
    if v > 0x8000_0000_0000_0001 {
        0x8000_0000_0000_0001
    } else {
        v
    }
}

/// The digits that `decimal_digits` writes are digits and read back as `n`.
pub proof fn lemma_decimal_digits(n: nat)
    ensures
        decimal_digits(n).len() >= 1,
        all_digits(decimal_digits(n)),
        digits_value(decimal_digits(n)) == n,
    decreases n,
{
    if n >= 10 {
        lemma_decimal_digits(n / 10);
        let d = decimal_digits(n / 10);
        let s = d.push((48 + n % 10) as u8);
        assert(s.drop_last() =~= d);
        assert forall|i: int| 0 <= i < s.len() implies is_ascii_digit(#[trigger] s[i]) by {
            if i < d.len() {
                assert(s[i] == d[i]);
            }
        }
        assert(s.last() == (48 + n % 10) as u8);
        assert(digits_value(s) == digits_value(d) * 10 + (n % 10));
        assert((n / 10) * 10 + n % 10 == n);
    } else {
        let s = seq![(48 + n) as u8];
        assert(s.drop_last() =~= Seq::<u8>::empty());
        assert(digits_value(Seq::<u8>::empty()) == 0);
        assert(s.last() == 48 + n);
        assert(digits_value(s) == n);
    }
}

/// Decimal text round trip: the text of `v` is signed decimal text and
/// denotes `v`.
pub proof fn lemma_decimal_text_roundtrip(v: int)
    ensures
        is_decimal_text(decimal_text(v)),
        decimal_text_value(decimal_text(v)) == v,
{
    if v < 0 {
        lemma_decimal_digits((-v) as nat);
        let d = decimal_digits((-v) as nat);
        assert((seq![45u8] + d).drop_first() =~= d);
    } else {
        lemma_decimal_digits(v as nat);
        let d = decimal_digits(v as nat);
        assert(is_ascii_digit(d[0]));
    }
}

/// Appends the decimal digits of `n` to `out`.
pub fn push_decimal_digits(n: u64, out: &mut Vec<u8>)
    ensures
        final(out)@ == old(out)@ + decimal_digits(n as nat),
    decreases n,
{
    if n >= 10 {
        push_decimal_digits(n / 10, out);
    }
    let d: u8 = (n % 10) as u8;
    out.push(48 + d);
    proof {
        if n >= 10 {
            assert(old(out)@ + decimal_digits(n as nat) =~= old(out)@ + decimal_digits(
                (n / 10) as nat,
            ).push((48 + n % 10) as u8));
        } else {
            assert(decimal_digits(n as nat) =~= seq![(48 + n) as u8]);
        }
    }
}

/// The decimal text of `v`, as `v.to_string()` spells it.
pub fn decimal_text_of(v: i64) -> (r: Vec<u8>)
    ensures
        r@ == decimal_text(v as int),
{
    let mut out: Vec<u8> = Vec::new();
    if v < 0 {
        out.push(45);
        let m: u64 = if v == i64::MIN {
            0x8000_0000_0000_0000
        } else {
            (-v) as u64
        };
        push_decimal_digits(m, &mut out);
        assert(out@ =~= seq![45u8] + decimal_digits((-v) as nat));
    } else {
        push_decimal_digits(v as u64, &mut out);
        assert(out@ =~= decimal_digits(v as nat));
    }
    out
}

/// Reads signed decimal text as an `i64`, as `str::parse::<i64>` does on
/// such text: `None` exactly when the value lies outside the range of `i64`.
pub fn parse_decimal_i64(text: &[u8]) -> (r: Option<i64>)
    requires
        is_decimal_text(text@),
    ensures
        fits_i64(decimal_text_value(text@)) ==> r == Some(decimal_text_value(text@) as i64),
        !fits_i64(decimal_text_value(text@)) ==> r is None,
{
    let neg: bool = text[0] == 45;
    let start: usize = if neg {
        1
    } else {
        0
    };
    let ghost digits = text@.subrange(start as int, text@.len() as int);
    let mut acc: u128 = 0;
    let mut i: usize = start;
    while i < text.len()
        invariant
            start <= i <= text@.len(),
            start == 0 || start == 1,
            neg ==> start == 1,
            !neg ==> start == 0,
            all_digits(text@.subrange(start as int, text@.len() as int)),
            acc == capped(digits_value(text@.subrange(start as int, i as int))),
        decreases text@.len() - i,
    {
        assert(is_ascii_digit(text@.subrange(start as int, text@.len() as int)[i - start]));
        let d: u128 = (text[i] - 48) as u128;
        let next: u128 = acc * 10 + d;
        acc = if next > 0x8000_0000_0000_0001 {
            0x8000_0000_0000_0001
        } else {
            next
        };
        assert(text@.subrange(start as int, i + 1).drop_last() =~= text@.subrange(
            start as int,
            i as int,
        ));
        i = i + 1;
    }
    assert(text@.subrange(start as int, text@.len() as int) =~= digits);
    if neg {
        assert(text@.drop_first() =~= digits);
        if acc < 0x8000_0000_0000_0000 {
            Some(-(acc as i64))
        } else if acc == 0x8000_0000_0000_0000 {
            Some(i64::MIN)
        } else {
            None
        }
    } else {
        assert(text@ =~= digits);
        if acc <= 0x7fff_ffff_ffff_ffff {
            Some(acc as i64)
        } else {
            None
        }
    }
}

/// ASCII bytes read as characters.
pub open spec fn ascii_chars(s: Seq<u8>) -> Seq<char> {
    s.map_values(|b: u8| b as char)
}

/// Decimal digits of `n` as characters, as `n.to_string()` spells them.
pub open spec fn decimal_chars(n: nat) -> Seq<char> {
    ascii_chars(decimal_digits(n))
}

/// The one-character string of digit `d`.
pub(crate) fn digit_str(d: u8) -> (r: &'static str)
    requires
        d < 10,
    ensures
        r@ == seq![(48 + d) as char],
{
    match d {
        0 => {
            proof {
                reveal_strlit("0");
            }
            "0"
        },
        1 => {
            proof {
                reveal_strlit("1");
            }
            "1"
        },
        2 => {
            proof {
                reveal_strlit("2");
            }
            "2"
        },
        3 => {
            proof {
                reveal_strlit("3");
            }
            "3"
        },
        4 => {
            proof {
                reveal_strlit("4");
            }
            "4"
        },
        5 => {
            proof {
                reveal_strlit("5");
            }
            "5"
        },
        6 => {
            proof {
                reveal_strlit("6");
            }
            "6"
        },
        7 => {
            proof {
                reveal_strlit("7");
            }
            "7"
        },
        8 => {
            proof {
                reveal_strlit("8");
            }
            "8"
        },
        _ => {
            proof {
                reveal_strlit("9");
            }
            "9"
        },
    }
}

/// Appends the decimal digits of `n` to the string.
pub fn append_decimal(out: &mut String, n: u64)
    ensures
        final(out)@ == old(out)@ + decimal_chars(n as nat),
    decreases n,
{
    if n >= 10 {
        append_decimal(out, n / 10);
    }
    let d: u8 = (n % 10) as u8;
    out.append(digit_str(d));
    proof {
        let c = (48 + n % 10) as u8;
        if n >= 10 {
            let prev = decimal_digits((n / 10) as nat);
            assert(decimal_digits(n as nat) == prev.push(c));
            assert(ascii_chars(prev.push(c)) =~= ascii_chars(prev).push(c as char));
            assert(final(out)@ =~= old(out)@ + decimal_chars(n as nat));
        } else {
            assert(decimal_digits(n as nat) =~= seq![c]);
            assert(ascii_chars(seq![c]) =~= seq![c as char]);
            assert(final(out)@ =~= old(out)@ + decimal_chars(n as nat));
        }
    }
}

/// `n.to_string()`.
pub fn decimal_string(n: u64) -> (r: String)
    ensures
        r@ == decimal_chars(n as nat),
{
    let mut out = String::new();
    append_decimal(&mut out, n);
    assert(out@ =~= decimal_chars(n as nat));
    out
}

/// Distinct numbers have distinct decimal texts.
pub proof fn lemma_decimal_chars_injective(a: nat, b: nat)
    ensures
        decimal_chars(a) == decimal_chars(b) ==> a == b,
{
    if decimal_chars(a) == decimal_chars(b) {
        let x = decimal_digits(a);
        let y = decimal_digits(b);
        assert(x.len() == ascii_chars(x).len());
        assert forall|i: int| 0 <= i < x.len() implies x[i] == y[i] by {
            assert(ascii_chars(x)[i] == ascii_chars(y)[i]);
        }
        assert(x =~= y);
        lemma_decimal_digits(a);
        lemma_decimal_digits(b);
    }
}

} // verus!
