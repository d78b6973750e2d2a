use vstd::prelude::*;
use vstd::arithmetic::div_mod::lemma_fundamental_div_mod;

verus! {

/// ASCII decimal digit.
pub open spec fn is_digit(b: u8) -> bool {
    48 <= b <= 57
}

/// Every byte is an ASCII decimal digit.
pub open spec fn all_digits(s: Seq<u8>) -> bool {
    forall|i: int| 0 <= i < s.len() ==> is_digit(#[trigger] s[i])
}

/// The number a digit sequence denotes, most significant digit first.
pub open spec fn digits_nat(s: Seq<u8>) -> nat
    decreases s.len(),
{
    if s.len() == 0 {
        0
    } else {
        digits_nat(s.subrange(0, s.len() - 1)) * 10 + (if s.last() >= 48 { (s.last() - 48) as nat } else { 0nat })
    }
}

/// The decimal digits of `n`, without a sign and without leading zeros.
pub open spec fn dec_digits(n: nat) -> Seq<u8>
    decreases n,
{
    if n < 10 {
        seq![(48 + n) as u8]
    } else {
        dec_digits(n / 10).push((48 + n % 10) as u8)
    }
}

/// The decimal digits of an `i64`: a minus sign for negative values,
/// then the digits of the magnitude.
pub open spec fn int_decimal(n: i64) -> Seq<u8> {
    if n < 0 {
        seq![45u8] + dec_digits((-(n as int)) as nat)
    } else {
        dec_digits(n as nat)
    }
}

/// The digit shape an integer literal must have to denote an `i64`:
/// an optional leading minus, at least one digit, all digits, and a
/// magnitude within the signed 64-bit range.
pub open spec fn int_digits_ok(s: Seq<u8>) -> bool {
    let neg = s.len() > 0 && s[0] == 45;
    let ds = if neg { s.subrange(1, s.len() as int) } else { s };
    &&& ds.len() > 0
    &&& all_digits(ds)
    &&& (neg ==> digits_nat(ds) <= 0x8000_0000_0000_0000)
    &&& (!neg ==> digits_nat(ds) < 0x8000_0000_0000_0000)
}

/// The value an integer literal denotes.
pub open spec fn int_digits_value(s: Seq<u8>) -> int {
    let neg = s.len() > 0 && s[0] == 45;
    let ds = if neg { s.subrange(1, s.len() as int) } else { s };
    if neg {
        -(digits_nat(ds) as int)
    } else {
        digits_nat(ds) as int
    }
}

/// The digit shape a length prefix must have to denote a `usize`.
pub open spec fn len_digits_ok(s: Seq<u8>) -> bool {
    s.len() > 0 && all_digits(s) && digits_nat(s) <= usize::MAX as nat
}

/// [`dec_digits`] emits at least one digit, only digits, no leading zero
/// for a positive number, and denotes the number it was given.
pub proof fn lemma_dec_digits(n: nat)
    ensures
        dec_digits(n).len() >= 1,
        all_digits(dec_digits(n)),
        digits_nat(dec_digits(n)) == n,
        n > 0 ==> dec_digits(n)[0] != 48,
    decreases n,
{
    if n < 10 {
        reveal_with_fuel(digits_nat, 2);
        assert(dec_digits(n) =~= seq![(48 + n) as u8]);
        assert(dec_digits(n).subrange(0, 0) =~= Seq::<u8>::empty());
    } else {
        lemma_dec_digits(n / 10);
        let d = dec_digits(n / 10);
        let r = d.push((48 + n % 10) as u8);
        assert(r.subrange(0, r.len() - 1) =~= d);
        lemma_fundamental_div_mod(n as int, 10);
    }
}

/// A prefix of a digit run denotes no more than the whole run.
pub proof fn lemma_digits_nat_prefix(s: Seq<u8>, k: int)
    requires
        0 <= k <= s.len(),
    ensures
        digits_nat(s.subrange(0, k)) <= digits_nat(s),
    decreases s.len() - k,
{
    if k < s.len() {
        lemma_digits_nat_prefix(s.subrange(0, s.len() - 1), k);
        assert(s.subrange(0, s.len() - 1).subrange(0, k) =~= s.subrange(0, k));
    } else {
        assert(s.subrange(0, k) =~= s);
    }
}

/// Converts an accumulated digit run (with optional leading minus) to the
/// `i64` it denotes: `Some` exactly when the run has the right shape and
/// the value fits.
pub fn digits_to_i64(digits: &Vec<u8>) -> (r: Option<i64>)
    ensures
        match r {
            Some(v) => int_digits_ok(digits@) && v as int == int_digits_value(digits@),
            None => !int_digits_ok(digits@),
        },
{
    let n = digits.len();
    let neg = n > 0 && digits[0] == 45;
    let start: usize = if neg { 1 } else { 0 };
    let ghost ds = if neg { digits@.subrange(1, n as int) } else { digits@ };
    if n == start {
        return None;
    }
    let limit: u64 = if neg { 0x8000_0000_0000_0000 } else { 0x7FFF_FFFF_FFFF_FFFF };
    let mut acc: u64 = 0;
    for i in start..n
        invariant
            n == digits@.len(),
            start <= i <= n,
            start == if neg { 1int } else { 0int },
            neg == (digits@.len() > 0 && digits@[0] == 45),
            ds == if neg { digits@.subrange(1, n as int) } else { digits@ },
            acc <= limit,
            limit == if neg { 0x8000_0000_0000_0000u64 } else { 0x7FFF_FFFF_FFFF_FFFFu64 },
            acc == digits_nat(digits@.subrange(start as int, i as int)),
            all_digits(digits@.subrange(start as int, i as int)),
    {
        let b = digits[i];
        if b < 48 || b > 57 {
            proof {
                assert(ds[i - start] == digits@[i as int]);
                assert(!is_digit(ds[i - start]));
                assert(!all_digits(ds));
                let s2 = digits@;
                let neg2 = s2.len() > 0 && s2[0] == 45;
                let ds2 = if neg2 { s2.subrange(1, s2.len() as int) } else { s2 };
                assert(ds2 =~= ds);
                assert(!all_digits(ds2));
                assert(!int_digits_ok(s2));
            }
            return None;
        }
        let d: u64 = (b - 48) as u64;
        let ghost pre = digits@.subrange(start as int, i as int);
        let ghost cur = digits@.subrange(start as int, i + 1);
        proof {
            assert(cur.subrange(0, cur.len() - 1) =~= pre);
            assert(cur.last() == digits@[i as int]);
        }
        if acc > (limit - d) / 10 {
            proof {
                lemma_fundamental_div_mod((limit - d) as int, 10);
                assert(digits_nat(cur) > limit);
                assert(ds.subrange(0, i + 1 - start) =~= cur);
                lemma_digits_nat_prefix(ds, i + 1 - start);
                assert(digits_nat(ds) > limit);
                let s2 = digits@;
                let neg2 = s2.len() > 0 && s2[0] == 45;
                let ds2 = if neg2 { s2.subrange(1, s2.len() as int) } else { s2 };
                assert(ds2 =~= ds);
                assert(digits_nat(ds2) > limit);
                assert(!int_digits_ok(s2));
            }
            return None;
        }
        proof {
            lemma_fundamental_div_mod((limit - d) as int, 10);
            assert(acc * 10 <= ((limit - d) / 10) * 10);
        }
        acc = acc * 10 + d;
        proof {
            assert(all_digits(cur)) by {
                assert forall|j: int| 0 <= j < cur.len() implies is_digit(cur[j]) by {
                    if j < cur.len() - 1 {
                        assert(cur[j] == pre[j]);
                    }
                }
            }
        }
    }
    proof {
        assert(digits@.subrange(start as int, n as int) =~= ds);
    }
    if neg {
        if acc == 0x8000_0000_0000_0000 {
            Some(i64::MIN)
        } else {
            Some(-(acc as i64))
        }
    } else {
        Some(acc as i64)
    }
}

/// Converts an accumulated digit run to the `usize` it denotes: `Some`
/// exactly when the run is nonempty, all digits, and the value fits.
pub fn digits_to_usize(digits: &Vec<u8>) -> (r: Option<usize>)
    ensures
        match r {
            Some(v) => len_digits_ok(digits@) && v as nat == digits_nat(digits@),
            None => !len_digits_ok(digits@),
        },
{
    let n = digits.len();
    if n == 0 {
        return None;
    }
    let mut acc: usize = 0;
    for i in 0..n
        invariant
            n == digits@.len(),
            i <= n,
            acc == digits_nat(digits@.subrange(0, i as int)),
            acc <= usize::MAX,
            all_digits(digits@.subrange(0, i as int)),
    {
        let b = digits[i];
        if b < 48 || b > 57 {
            return None;
        }
        let d: usize = (b - 48) as usize;
        let ghost pre = digits@.subrange(0, i as int);
        let ghost cur = digits@.subrange(0, i + 1);
        proof {
            assert(cur.subrange(0, cur.len() - 1) =~= pre);
            assert(cur.last() == digits@[i as int]);
        }
        if acc > (usize::MAX - d) / 10 {
            proof {
                lemma_fundamental_div_mod((usize::MAX - d) as int, 10);
                assert(digits_nat(cur) > usize::MAX);
                lemma_digits_nat_prefix(digits@, i + 1);
            }
            return None;
        }
        proof {
            lemma_fundamental_div_mod((usize::MAX - d) as int, 10);
            assert(acc * 10 <= ((usize::MAX - d) / 10) * 10);
        }
        acc = acc * 10 + d;
        proof {
            assert(all_digits(cur)) by {
                assert forall|j: int| 0 <= j < cur.len() implies is_digit(cur[j]) by {
                    if j < cur.len() - 1 {
                        assert(cur[j] == pre[j]);
                    }
                }
            }
        }
    }
    proof {
        assert(digits@.subrange(0, n as int) =~= digits@);
    }
    Some(acc)
}

/// Appends the decimal digits of `n` to `out`.
pub fn push_u64_decimal(out: &mut Vec<u8>, n: u64)
    ensures
        final(out)@ == old(out)@ + dec_digits(n as nat),
    decreases n,
{
    if n < 10 {
        out.push((48 + n) as u8);
        proof {
            assert(final(out)@ =~= old(out)@ + dec_digits(n as nat));
        }
    } else {
        push_u64_decimal(out, n / 10);
        out.push((48 + (n % 10)) as u8);
        proof {
            assert(final(out)@ =~= old(out)@ + dec_digits(n as nat));
        }
    }
}

/// Appends the decimal form of `n`, sign included, to `out`.
pub fn push_i64_decimal(out: &mut Vec<u8>, n: i64)
    ensures
        final(out)@ == old(out)@ + int_decimal(n),
{
    if n < 0 {
        out.push(45);
        let mag: u64 = if n == i64::MIN {
            0x8000_0000_0000_0000
        } else {
            (-n) as u64
        };
        push_u64_decimal(out, mag);
        proof {
            assert(final(out)@ =~= old(out)@ + int_decimal(n));
        }
    } else {
        push_u64_decimal(out, n as u64);
    }
}


/// ASCII hexadecimal digit, either case.
pub open spec fn is_hex_digit(b: u8) -> bool {
    (48 <= b <= 57) || (65 <= b <= 70) || (97 <= b <= 102)
}

/// The value of one hexadecimal digit.
pub open spec fn hex_digit_val(b: u8) -> nat {
    if 48 <= b <= 57 {
        (b - 48) as nat
    } else if 65 <= b <= 70 {
        (b - 55) as nat
    } else if 97 <= b <= 102 {
        (b - 87) as nat
    } else {
        0
    }
}

/// Every byte is a hexadecimal digit.
pub open spec fn all_hex_digits(s: Seq<u8>) -> bool {
    forall|i: int| 0 <= i < s.len() ==> is_hex_digit(#[trigger] s[i])
}

/// The number a hexadecimal digit sequence denotes.
pub open spec fn hex_digits_nat(s: Seq<u8>) -> nat
    decreases s.len(),
{
    if s.len() == 0 {
        0
    } else {
        hex_digits_nat(s.subrange(0, s.len() - 1)) * 16 + hex_digit_val(s.last())
    }
}

/// The shape a hexadecimal run must have to denote a `usize`.
pub open spec fn hex_digits_ok(s: Seq<u8>) -> bool {
    s.len() > 0 && all_hex_digits(s) && hex_digits_nat(s) <= usize::MAX as nat
}

/// A prefix of a hexadecimal run denotes no more than the whole run.
pub proof fn lemma_hex_digits_nat_prefix(s: Seq<u8>, k: int)
    requires
        0 <= k <= s.len(),
    ensures
        hex_digits_nat(s.subrange(0, k)) <= hex_digits_nat(s),
    decreases s.len() - k,
{
    if k < s.len() {
        lemma_hex_digits_nat_prefix(s.subrange(0, s.len() - 1), k);
        assert(s.subrange(0, s.len() - 1).subrange(0, k) =~= s.subrange(0, k));
    } else {
        assert(s.subrange(0, k) =~= s);
    }
}

/// Converts a hexadecimal digit run to the `usize` it denotes: `Some`
/// exactly when the run is nonempty, all hexadecimal, and the value fits.
pub fn hex_to_usize(digits: &Vec<u8>) -> (r: Option<usize>)
    ensures
        match r {
            Some(v) => hex_digits_ok(digits@) && v as nat == hex_digits_nat(digits@),
            None => !hex_digits_ok(digits@),
        },
{
    let n = digits.len();
    if n == 0 {
        return None;
    }
    let mut acc: usize = 0;
    for i in 0..n
        invariant
            n == digits@.len(),
            i <= n,
            acc == hex_digits_nat(digits@.subrange(0, i as int)),
            acc <= usize::MAX,
            all_hex_digits(digits@.subrange(0, i as int)),
    {
        let b = digits[i];
        let d: usize = if 48 <= b && b <= 57 {
            (b - 48) as usize
        } else if 65 <= b && b <= 70 {
            (b - 55) as usize
        } else if 97 <= b && b <= 102 {
            (b - 87) as usize
        } else {
            return None;
        };
        let ghost pre = digits@.subrange(0, i as int);
        let ghost cur = digits@.subrange(0, i + 1);
        proof {
            assert(cur.subrange(0, cur.len() - 1) =~= pre);
            assert(cur.last() == digits@[i as int]);
        }
        if acc > (usize::MAX - d) / 16 {
            proof {
                lemma_fundamental_div_mod((usize::MAX - d) as int, 16);
                assert(hex_digits_nat(cur) > usize::MAX);
                lemma_hex_digits_nat_prefix(digits@, i + 1);
            }
            return None;
        }
        proof {
            lemma_fundamental_div_mod((usize::MAX - d) as int, 16);
            assert(acc * 16 <= ((usize::MAX - d) / 16) * 16);
        }
        acc = acc * 16 + d;
        proof {
            assert(all_hex_digits(cur)) by {
                assert forall|j: int| 0 <= j < cur.len() implies is_hex_digit(cur[j]) by {
                    if j < cur.len() - 1 {
                        assert(cur[j] == pre[j]);
                    }
                }
            }
        }
    }
    proof {
        assert(digits@.subrange(0, n as int) =~= digits@);
    }
    Some(acc)
}

} // verus!
