use vstd::prelude::*;

verus! {

/// Relies on String::push: it appends exactly the pushed character.
#[verifier::external_body]
pub fn push_char(s: &mut String, c: char)
    ensures
        final(s)@ == old(s)@.push(c),
{
    s.push(c);
}

/// The decimal digits of `n` as characters, most significant first.
pub open spec fn dec_chars(n: nat) -> Seq<char>
    decreases n,
{
    if n < 10 {
        seq![((48 + n) as u8) as char]
    } else {
        dec_chars(n / 10).push(((48 + n % 10) as u8) as char)
    }
}

/// Appends the decimal form of `n` to `s`.
pub fn push_usize_decimal(s: &mut String, n: usize)
    ensures
        final(s)@ == old(s)@ + dec_chars(n as nat),
    decreases n,
{
    if n < 10 {
        push_char(s, (48 + n as u8) as char);
        proof {
            assert(final(s)@ =~= old(s)@ + dec_chars(n as nat));
        }
    } else {
        push_usize_decimal(s, n / 10);
        push_char(s, (48 + (n % 10) as u8) as char);
        proof {
            assert(final(s)@ =~= old(s)@ + dec_chars(n as nat));
        }
    }
}

/// Appends the decimal form of `n` to `s`.
pub fn push_u64_decimal_str(s: &mut String, n: u64)
    ensures
        final(s)@ == old(s)@ + dec_chars(n as nat),
    decreases n,
{
    if n < 10 {
        push_char(s, (48 + n as u8) as char);
        proof {
            assert(final(s)@ =~= old(s)@ + dec_chars(n as nat));
        }
    } else {
        push_u64_decimal_str(s, n / 10);
        push_char(s, (48 + (n % 10) as u8) as char);
        proof {
            assert(final(s)@ =~= old(s)@ + dec_chars(n as nat));
        }
    }
}

/// The lowercase hexadecimal digit for a value below 16.
pub open spec fn hex_char(n: u8) -> char {
    if n < 10 {
        ((48 + n) as u8) as char
    } else {
        ((87 + n) as u8) as char
    }
}

/// The lowercase two-digit hexadecimal form of each byte, concatenated.
pub open spec fn bytes_hex(bs: Seq<u8>) -> Seq<char>
    decreases bs.len(),
{
    if bs.len() == 0 {
        Seq::empty()
    } else {
        bytes_hex(bs.subrange(0, bs.len() - 1)).push(hex_char(bs.last() / 16)).push(
            hex_char(bs.last() % 16),
        )
    }
}

/// Appends the lowercase two-digit hexadecimal form of every byte.
pub fn push_bytes_hex(s: &mut String, bs: &Vec<u8>)
    ensures
        final(s)@ == old(s)@ + bytes_hex(bs@),
{
    let n = bs.len();
    for i in 0..n
        invariant
            n == bs@.len(),
            s@ == old(s)@ + bytes_hex(bs@.subrange(0, i as int)),
    {
        let b = bs[i];
        let hi = b / 16;
        let lo = b % 16;
        let hc: char = if hi < 10 {
            (48 + hi) as char
        } else {
            (87 + hi) as char
        };
        let lc: char = if lo < 10 {
            (48 + lo) as char
        } else {
            (87 + lo) as char
        };
        push_char(s, hc);
        push_char(s, lc);
        proof {
            let cur = bs@.subrange(0, i + 1);
            assert(cur.subrange(0, cur.len() - 1) =~= bs@.subrange(0, i as int));
            assert(cur.last() == bs@[i as int]);
            assert(s@ =~= old(s)@ + bytes_hex(cur));
        }
    }
    proof {
        assert(bs@.subrange(0, n as int) =~= bs@);
    }
}


/// The lowercase hexadecimal digits of `n`, without leading zeros.
pub open spec fn hex_chars(n: nat) -> Seq<char>
    decreases n,
{
    if n < 16 {
        seq![hex_char(n as u8)]
    } else {
        hex_chars(n / 16).push(hex_char((n % 16) as u8))
    }
}

/// Appends the minimal lowercase hexadecimal form of `n` to `s`.
pub fn push_u32_hex(s: &mut String, n: u32)
    ensures
        final(s)@ == old(s)@ + hex_chars(n as nat),
    decreases n,
{
    if n < 16 {
        let d = n as u8;
        push_char(s, if d < 10 { (48 + d) as char } else { (87 + d) as char });
        proof {
            assert(final(s)@ =~= old(s)@ + hex_chars(n as nat));
        }
    } else {
        push_u32_hex(s, n / 16);
        let d = (n % 16) as u8;
        push_char(s, if d < 10 { (48 + d) as char } else { (87 + d) as char });
        proof {
            assert(final(s)@ =~= old(s)@ + hex_chars(n as nat));
        }
    }
}

} // verus!
