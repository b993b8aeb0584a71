use vstd::prelude::*;
use vstd::arithmetic::div_mod::lemma_fundamental_div_mod;
use vstd::string::StringSliceAdditionalSpecFns;

use crate::errors::APIError;

verus! {

/// A byte that stands for a decimal digit, `'0'` through `'9'`.
pub open spec fn is_digit_byte(b: u8) -> bool {
    48 <= b <= 57
}

/// Every byte of the sequence is a decimal digit.
pub open spec fn digits_only(s: Seq<u8>) -> bool {
    forall|i: int| 0 <= i < s.len() ==> is_digit_byte(#[trigger] s[i])
}

/// The value of a sequence of decimal digit bytes, most significant first.
pub open spec fn dec_val(s: Seq<u8>) -> int
    decreases s.len(),
{
    if s.len() == 0 {
        0
    } else {
        dec_val(s.drop_last()) * 10 + (s.last() - 48)
    }
}

/// The decimal digit bytes of `n`, most significant first, no leading zeros.
pub open spec fn dec_rep(n: nat) -> Seq<u8>
    decreases n,
{
    if n < 10 {
        seq![(48 + n) as u8]
    } else {
        dec_rep(n / 10).push((48 + n % 10) as u8)
    }
}

/// `dec_rep(n)` is a nonempty digit string whose value is `n`.
pub proof fn lemma_dec_rep_val(n: nat)
    ensures
        dec_rep(n).len() >= 1,
        digits_only(dec_rep(n)),
        dec_val(dec_rep(n)) == n,
    decreases n,
{
    if n < 10 {
        let s = dec_rep(n);
        assert(s.drop_last() =~= Seq::<u8>::empty());
        assert(dec_val(Seq::<u8>::empty()) == 0);
        assert(s.last() == (48 + n) as u8);
        assert((48 + n) as u8 == 48 + n);
        assert(dec_val(s) == 0 * 10 + (48 + n - 48));
    } else {
        lemma_dec_rep_val(n / 10);
        lemma_fundamental_div_mod(n as int, 10);
        let s = dec_rep(n);
        assert(s.drop_last() =~= dec_rep(n / 10));
        assert(s.last() == (48 + n % 10) as u8);
        assert(0 <= n % 10 < 10);
        assert((48 + n % 10) as u8 == 48 + n % 10);
        assert(dec_val(s) == dec_val(dec_rep(n / 10)) * 10 + (48 + n % 10 - 48));
    }
}

/// Digit strings have nonnegative values.
proof fn lemma_dec_val_nonneg(s: Seq<u8>)
    requires
        digits_only(s),
    ensures
        dec_val(s) >= 0,
    decreases s.len(),
{
    if s.len() > 0 {
        assert(digits_only(s.drop_last()));
        lemma_dec_val_nonneg(s.drop_last());
    }
}

/// Extending a digit prefix by one digit multiplies its value by ten and adds
/// the digit.
proof fn lemma_dec_val_snoc(s: Seq<u8>, i: int)
    requires
        0 <= i < s.len(),
    ensures
        dec_val(s.subrange(0, i + 1)) == dec_val(s.subrange(0, i)) * 10 + (s[i] - 48),
{
    let t = s.subrange(0, i + 1);
    assert(t.drop_last() =~= s.subrange(0, i));
}

/// The value of a digit string is at least the value of any of its prefixes.
proof fn lemma_dec_val_prefix_le(s: Seq<u8>, i: int)
    requires
        digits_only(s),
        0 <= i <= s.len(),
    ensures
        dec_val(s.subrange(0, i)) <= dec_val(s),
    decreases s.len() - i,
{
    if i == s.len() {
        assert(s.subrange(0, i) =~= s);
    } else {
        lemma_dec_val_snoc(s, i);
        assert(digits_only(s.subrange(0, i)));
        lemma_dec_val_nonneg(s.subrange(0, i));
        lemma_dec_val_prefix_le(s, i + 1);
    }
}

/// Renders `n` as decimal digit bytes, most significant first.
pub fn encode_u64(n: u64) -> (r: Vec<u8>)
    ensures
        r@ == dec_rep(n as nat),
    decreases n,
{
    if n < 10 {
        let mut r: Vec<u8> = Vec::new();
        r.push(48 + (n as u8));
        proof {
            assert(r@ =~= dec_rep(n as nat));
        }
        r
    } else {
        let mut r = encode_u64(n / 10);
        r.push(48 + ((n % 10) as u8));
        proof {
            assert(r@ =~= dec_rep(n as nat));
        }
        r
    }
}

/// Reads a decimal digit string as a `u64`.
///
/// Returns the value exactly when the input is a nonempty run of digits whose
/// value fits in a `u64`.
pub fn parse_u64(s: &[u8]) -> (r: Option<u64>)
    ensures
        match r {
            Some(v) => s@.len() > 0 && digits_only(s@) && dec_val(s@) == v,
            None => s@.len() == 0 || !digits_only(s@) || dec_val(s@) > u64::MAX,
        },
{
    if s.len() == 0 {
        return None;
    }
    let mut acc: u64 = 0;
    let mut i: usize = 0;
    while i < s.len()
        invariant
            0 <= i <= s@.len(),
            digits_only(s@.subrange(0, i as int)),
            acc == dec_val(s@.subrange(0, i as int)),
        decreases s@.len() - i,
    {
        let b = s[i];
        if b < 48 || b > 57 {
            return None;
        }
        let d = (b - 48) as u64;
        if acc > (u64::MAX - d) / 10 {
            proof {
                lemma_dec_val_snoc(s@, i as int);
                lemma_fundamental_div_mod((u64::MAX - d) as int, 10);
                assert(acc * 10 + d > u64::MAX) by (nonlinear_arith)
                    requires
                        acc > ((u64::MAX - d) as int) / 10,
                        ((u64::MAX - d) as int) == (((u64::MAX - d) as int) / 10) * 10 + ((u64::MAX
                            - d) as int) % 10,
                        0 <= ((u64::MAX - d) as int) % 10 < 10,
                        0 <= d <= 9,
                ;
                if digits_only(s@) {
                    lemma_dec_val_prefix_le(s@, i as int + 1);
                }
            }
            return None;
        }
        proof {
            lemma_dec_val_snoc(s@, i as int);
            lemma_fundamental_div_mod((u64::MAX - d) as int, 10);
            assert(acc * 10 + d <= u64::MAX) by (nonlinear_arith)
                requires
                    acc <= ((u64::MAX - d) as int) / 10,
                    ((u64::MAX - d) as int) == (((u64::MAX - d) as int) / 10) * 10 + ((u64::MAX
                        - d) as int) % 10,
                    0 <= ((u64::MAX - d) as int) % 10 < 10,
                    0 <= d <= 9,
                    acc >= 0,
            ;
        }
        acc = acc * 10 + d;
        i = i + 1;
        proof {
            assert(s@.subrange(0, i as int) =~= s@.subrange(0, i as int - 1).push(s@[i as int
                - 1]));
        }
    }
    proof {
        assert(s@.subrange(0, i as int) =~= s@);
    }
    Some(acc)
}

/// The balance grammar: an optional sign followed by decimal digits.
///
/// `None` stands for a string that is not a decimal integer at all; the value
/// is unbounded here, and the caller checks the machine range.
pub open spec fn balance_of(b: Seq<u8>) -> Option<int> {
    if b.len() >= 1 && (b[0] == 45 || b[0] == 43) {
        let mag = b.subrange(1, b.len() as int);
        if mag.len() >= 1 && digits_only(mag) {
            Some(
                if b[0] == 45 {
                    -dec_val(mag)
                } else {
                    dec_val(mag)
                },
            )
        } else {
            None
        }
    } else {
        if b.len() >= 1 && digits_only(b) {
            Some(dec_val(b))
        } else {
            None
        }
    }
}

/// Parses a credit balance: an optional `-` or `+` sign and decimal digits.
///
/// Balances may be negative. Returns the value exactly when the bytes of the
/// string follow that grammar and the value fits in an `i64`; any other input
/// is reported as `BadFormat`.
pub fn parse_balance(s: &str) -> (r: Result<i64, APIError>)
    ensures
        match r {
            Ok(v) => balance_of(s.spec_bytes()) == Some(v as int),
            Err(e) => e is BadFormat && (match balance_of(s.spec_bytes()) {
                Some(v) => v < i64::MIN || v > i64::MAX,
                None => true,
            }),
        },
{
    let bytes: Vec<u8> = s.as_bytes_vec();
    if bytes.len() == 0 {
        return Err(APIError::BadFormat);
    }
    let first = bytes[0];
    let negative = first == 45;
    let has_sign = first == 45 || first == 43;
    let start: usize = if has_sign {
        1
    } else {
        0
    };
    let mut mag: Vec<u8> = Vec::new();
    let mut i: usize = start;
    while i < bytes.len()
        invariant
            start <= i <= bytes@.len(),
            mag@ =~= bytes@.subrange(start as int, i as int),
        decreases bytes@.len() - i,
    {
        mag.push(bytes[i]);
        i = i + 1;
        proof {
            assert(mag@ =~= bytes@.subrange(start as int, i as int));
        }
    }
    proof {
        assert(mag@ =~= bytes@.subrange(start as int, bytes@.len() as int));
        if !has_sign {
            assert(mag@ =~= bytes@);
        }
    }
    let parsed = parse_u64(mag.as_slice());
    match parsed {
        None => Err(APIError::BadFormat),
        Some(v) => {
            proof {
                lemma_dec_val_nonneg(mag@);
            }
            if negative {
                if v <= 9223372036854775807 {
                    Ok(-(v as i64))
                } else if v == 9223372036854775808 {
                    Ok(i64::MIN)
                } else {
                    Err(APIError::BadFormat)
                }
            } else {
                if v <= 9223372036854775807 {
                    Ok(v as i64)
                } else {
                    Err(APIError::BadFormat)
                }
            }
        },
    }
}

} // verus!
