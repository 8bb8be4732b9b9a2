//! Numeric fields of the input grammars: parsing hexadecimal and decimal
//! tokens, and rendering numbers back to text for the output lines.

use vstd::prelude::*;

verus! {

/// An ASCII hexadecimal digit, either case.
pub open spec fn is_hex_digit(b: u8) -> bool {
    (48 <= b <= 57) || (97 <= b <= 102) || (65 <= b <= 70)
}

/// The numeric value of one hexadecimal digit byte.
pub open spec fn hex_digit_value(b: u8) -> nat {
    if 48 <= b <= 57 {
        (b - 48) as nat
    } else if 97 <= b <= 102 {
        (b - 87) as nat
    } else if 65 <= b <= 70 {
        (b - 55) as nat
    } else {
        0
    }
}

/// The value denoted by a big-endian string of hexadecimal digits.
pub open spec fn hex_value(s: Seq<u8>) -> nat
    decreases s.len(),
{
    if s.len() == 0 {
        0
    } else {
        hex_value(s.drop_last()) * 16 + hex_digit_value(s.last())
    }
}

/// Every byte of `s` is a hexadecimal digit.
pub open spec fn all_hex(s: Seq<u8>) -> bool {
    forall|i: int| 0 <= i < s.len() ==> is_hex_digit(#[trigger] s[i])
}

/// `s` is a well-formed hexadecimal address token: non-empty, all digits,
/// and its value fits in a `u64`.
pub open spec fn is_hex_u64(s: Seq<u8>) -> bool {
    s.len() > 0 && all_hex(s) && hex_value(s) <= u64::MAX
}

/// An ASCII decimal digit.
pub open spec fn is_dec_digit(b: u8) -> bool {
    48 <= b <= 57
}

/// The numeric value of one decimal digit byte.
pub open spec fn dec_digit_value(b: u8) -> nat {
    if 48 <= b <= 57 {
        (b - 48) as nat
    } else {
        0
    }
}

/// The value denoted by a big-endian string of decimal digits.
pub open spec fn dec_value(s: Seq<u8>) -> nat
    decreases s.len(),
{
    if s.len() == 0 {
        0
    } else {
        dec_value(s.drop_last()) * 10 + dec_digit_value(s.last())
    }
}

/// Every byte of `s` is a decimal digit.
pub open spec fn all_dec(s: Seq<u8>) -> bool {
    forall|i: int| 0 <= i < s.len() ==> is_dec_digit(#[trigger] s[i])
}

/// `s` is a well-formed decimal token whose value fits in a `u32`.
pub open spec fn is_dec_u32(s: Seq<u8>) -> bool {
    s.len() > 0 && all_dec(s) && dec_value(s) <= u32::MAX
}

/// The value of a prefix of a digit string never exceeds the value of the
/// whole string.
proof fn lemma_hex_prefix_le(s: Seq<u8>, j: int)
    requires
        0 <= j <= s.len(),
    ensures
        hex_value(s.take(j)) <= hex_value(s),
    decreases s.len() - j,
{
    if j == s.len() {
        assert(s.take(j) =~= s);
    } else {
        assert(s.take(j + 1).drop_last() =~= s.take(j));
        assert(s.take(j + 1).last() == s[j]);
        lemma_hex_prefix_le(s, j + 1);
    }
}

proof fn lemma_dec_prefix_le(s: Seq<u8>, j: int)
    requires
        0 <= j <= s.len(),
    ensures
        dec_value(s.take(j)) <= dec_value(s),
    decreases s.len() - j,
{
    if j == s.len() {
        assert(s.take(j) =~= s);
    } else {
        assert(s.take(j + 1).drop_last() =~= s.take(j));
        assert(s.take(j + 1).last() == s[j]);
        lemma_dec_prefix_le(s, j + 1);
    }
}

/// Parses a hexadecimal address token. Returns the value exactly when the
/// token is non-empty, all hexadecimal digits, and fits in a `u64`.
pub fn parse_hex_u64(tok: &Vec<u8>) -> (r: Option<u64>)
    ensures
        match r {
            Some(v) => is_hex_u64(tok@) && v == hex_value(tok@),
            None => !is_hex_u64(tok@),
        },
{
    if tok.len() == 0 {
        return None;
    }
    let mut val: u64 = 0;
    let mut i: usize = 0;
    proof {
        assert(tok@.take(0) =~= Seq::<u8>::empty());
    }
    while i < tok.len()
        invariant
            i <= tok.len(),
            all_hex(tok@.take(i as int)),
            val == hex_value(tok@.take(i as int)),
        decreases tok.len() - i,
    {
        let b = tok[i];
        let d: u64 = if 48 <= b && b <= 57 {
            (b - 48) as u64
        } else if 97 <= b && b <= 102 {
            (b - 87) as u64
        } else if 65 <= b && b <= 70 {
            (b - 55) as u64
        } else {
            return None;
        };
        proof {
            assert(d == hex_digit_value(b));
            assert(tok@.take(i as int + 1).drop_last() =~= tok@.take(i as int));
            assert(tok@.take(i as int + 1).last() == tok@[i as int]);
        }
        if val > (u64::MAX - d) / 16 {
            proof {
                assert(val * 16 + d > u64::MAX) by (nonlinear_arith)
                    requires
                        val > (u64::MAX - d) / 16,
                        d <= u64::MAX,
                ;
                lemma_hex_prefix_le(tok@, i as int + 1);
            }
            return None;
        }
        proof {
            assert(val * 16 + d <= u64::MAX) by (nonlinear_arith)
                requires
                    val <= (u64::MAX - d) / 16,
                    d <= u64::MAX,
            ;
        }
        val = val * 16 + d;
        i += 1;
    }
    proof {
        assert(tok@.take(tok@.len() as int) =~= tok@);
    }
    Some(val)
}

/// Parses a decimal token. Returns the value exactly when the token is
/// non-empty, all decimal digits, and fits in a `u32`.
pub fn parse_dec_u32(tok: &Vec<u8>) -> (r: Option<u32>)
    ensures
        match r {
            Some(v) => is_dec_u32(tok@) && v == dec_value(tok@),
            None => !is_dec_u32(tok@),
        },
{
    if tok.len() == 0 {
        return None;
    }
    let mut val: u32 = 0;
    let mut i: usize = 0;
    proof {
        assert(tok@.take(0) =~= Seq::<u8>::empty());
    }
    while i < tok.len()
        invariant
            i <= tok.len(),
            all_dec(tok@.take(i as int)),
            val == dec_value(tok@.take(i as int)),
        decreases tok.len() - i,
    {
        let b = tok[i];
        if !(48 <= b && b <= 57) {
            return None;
        }
        let d: u32 = (b - 48) as u32;
        proof {
            assert(d == dec_digit_value(b));
            assert(tok@.take(i as int + 1).drop_last() =~= tok@.take(i as int));
            assert(tok@.take(i as int + 1).last() == tok@[i as int]);
        }
        if val > (u32::MAX - d) / 10 {
            proof {
                assert(val * 10 + d > u32::MAX) by (nonlinear_arith)
                    requires
                        val > (u32::MAX - d) / 10,
                        d <= u32::MAX,
                ;
                lemma_dec_prefix_le(tok@, i as int + 1);
            }
            return None;
        }
        proof {
            assert(val * 10 + d <= u32::MAX) by (nonlinear_arith)
                requires
                    val <= (u32::MAX - d) / 10,
                    d <= u32::MAX,
            ;
        }
        val = val * 10 + d;
        i += 1;
    }
    proof {
        assert(tok@.take(tok@.len() as int) =~= tok@);
    }
    Some(val)
}

/// The lowercase hexadecimal digit byte for a value below sixteen.
pub open spec fn hex_digit_byte(v: nat) -> u8 {
    if v < 10 {
        (48 + v) as u8
    } else {
        (87 + v) as u8
    }
}

/// Big-endian lowercase hexadecimal digits of `v`; empty for zero.
pub open spec fn hex_core(v: nat) -> Seq<u8>
    decreases v,
    via hex_core_decreases
{
    if v == 0 {
        Seq::empty()
    } else {
        hex_core(v / 16).push(hex_digit_byte(v % 16))
    }
}

#[via_fn]
proof fn hex_core_decreases(v: nat) {
    assert(v > 0 ==> v / 16 < v) by (nonlinear_arith);
}

/// Lowercase hexadecimal rendering of `v`, without leading zeros.
pub open spec fn hex_repr(v: nat) -> Seq<u8> {
    if v == 0 {
        seq![48u8]
    } else {
        hex_core(v)
    }
}

/// The decimal digit byte for a value below ten.
pub open spec fn dec_digit_byte(v: nat) -> u8 {
    (48 + v) as u8
}

/// Big-endian decimal digits of `v`; empty for zero.
pub open spec fn dec_core(v: nat) -> Seq<u8>
    decreases v,
    via dec_core_decreases
{
    if v == 0 {
        Seq::empty()
    } else {
        dec_core(v / 10).push(dec_digit_byte(v % 10))
    }
}

#[via_fn]
proof fn dec_core_decreases(v: nat) {
    assert(v > 0 ==> v / 10 < v) by (nonlinear_arith);
}

/// Decimal rendering of `v`, without leading zeros.
pub open spec fn dec_repr(v: nat) -> Seq<u8> {
    if v == 0 {
        seq![48u8]
    } else {
        dec_core(v)
    }
}

/// Renders `v` in lowercase hexadecimal without leading zeros.
pub fn u64_to_hex(v: u64) -> (r: Vec<u8>)
    ensures
        r@ == hex_repr(v as nat),
{
    let mut digits: Vec<u8> = Vec::new();
    if v == 0 {
        digits.push(48);
        proof {
            assert(digits@ =~= hex_repr(0));
        }
        return digits;
    }
    let mut x: u64 = v;
    proof {
        assert(hex_core(v as nat) =~= hex_core(x as nat) + digits@.reverse());
    }
    while x > 0
        invariant
            hex_core(v as nat) == hex_core(x as nat) + digits@.reverse(),
        decreases x,
    {
        let d: u64 = x % 16;
        let b: u8 = if d < 10 {
            (d as u8) + 48
        } else {
            (d as u8) + 87
        };
        proof {
            assert(b == hex_digit_byte((x % 16) as nat));
        }
        let ghost pre = digits@;
        digits.push(b);
        proof {
            assert(x as nat / 16 == (x / 16) as nat);
            assert(digits@.reverse() =~= seq![b] + pre.reverse());
            assert(hex_core((x / 16) as nat) + digits@.reverse() =~= (hex_core(
                (x / 16) as nat,
            ).push(b)) + pre.reverse());
            assert(x / 16 < x) by (nonlinear_arith)
                requires
                    x > 0,
            ;
        }
        x = x / 16;
    }
    let mut r: Vec<u8> = Vec::new();
    let mut i: usize = digits.len();
    while i > 0
        invariant
            i <= digits.len(),
            r@.len() == digits@.len() - i,
            forall|j: int| 0 <= j < r@.len() ==> r@[j] == digits@[digits@.len() - 1 - j],
        decreases i,
    {
        i -= 1;
        r.push(digits[i]);
    }
    proof {
        assert(r@ =~= digits@.reverse());
        assert(hex_core(0nat) =~= Seq::<u8>::empty());
        assert(r@ =~= hex_repr(v as nat));
    }
    r
}

/// Renders `v` in decimal without leading zeros.
pub fn u32_to_dec(v: u32) -> (r: Vec<u8>)
    ensures
        r@ == dec_repr(v as nat),
{
    let mut digits: Vec<u8> = Vec::new();
    if v == 0 {
        digits.push(48);
        proof {
            assert(digits@ =~= dec_repr(0));
        }
        return digits;
    }
    let mut x: u32 = v;
    proof {
        assert(dec_core(v as nat) =~= dec_core(x as nat) + digits@.reverse());
    }
    while x > 0
        invariant
            dec_core(v as nat) == dec_core(x as nat) + digits@.reverse(),
        decreases x,
    {
        let d: u32 = x % 10;
        let b: u8 = (d as u8) + 48;
        proof {
            assert(b == dec_digit_byte((x % 10) as nat));
        }
        let ghost pre = digits@;
        digits.push(b);
        proof {
            assert(x as nat / 10 == (x / 10) as nat);
            assert(digits@.reverse() =~= seq![b] + pre.reverse());
            assert(dec_core((x / 10) as nat) + digits@.reverse() =~= (dec_core(
                (x / 10) as nat,
            ).push(b)) + pre.reverse());
            assert(x / 10 < x) by (nonlinear_arith)
                requires
                    x > 0,
            ;
        }
        x = x / 10;
    }
    let mut r: Vec<u8> = Vec::new();
    let mut i: usize = digits.len();
    while i > 0
        invariant
            i <= digits.len(),
            r@.len() == digits@.len() - i,
            forall|j: int| 0 <= j < r@.len() ==> r@[j] == digits@[digits@.len() - 1 - j],
        decreases i,
    {
        i -= 1;
        r.push(digits[i]);
    }
    proof {
        assert(r@ =~= digits@.reverse());
        assert(dec_core(0nat) =~= Seq::<u8>::empty());
        assert(r@ =~= dec_repr(v as nat));
    }
    r
}

/// A lowercase hexadecimal digit byte.
pub open spec fn is_lower_hex_digit(b: u8) -> bool {
    (48 <= b <= 57) || (97 <= b <= 102)
}

proof fn lemma_hex_core_canonical(v: nat)
    ensures
        v > 0 ==> hex_core(v).len() >= 1,
        v > 0 ==> hex_core(v)[0] != 48u8,
        forall|i: int| 0 <= i < hex_core(v).len() ==> is_lower_hex_digit(#[trigger] hex_core(v)[i]),
    decreases v,
{
    if v > 0 {
        assert(v / 16 < v) by (nonlinear_arith)
            requires
                v > 0,
        ;
        lemma_hex_core_canonical(v / 16);
        assert(v % 16 < 16) by (nonlinear_arith);
        if v / 16 == 0 {
            assert(v % 16 == v) by (nonlinear_arith)
                requires
                    v / 16 == 0, v > 0,
            ;
            assert(hex_core(0nat) =~= Seq::<u8>::empty());
            assert(hex_core(v) =~= seq![hex_digit_byte(v % 16)]);
        }
    }
}

/// The rendering `hex_repr` is canonical: at least one digit, no leading
/// zero on a nonzero value, and lowercase hexadecimal digits throughout.
pub proof fn lemma_hex_repr_canonical(v: u64)
    ensures
        hex_repr(v as nat).len() >= 1,
        v > 0 ==> hex_repr(v as nat)[0] != 48u8,
        forall|i: int|
            0 <= i < hex_repr(v as nat).len() ==> is_lower_hex_digit(
                #[trigger] hex_repr(v as nat)[i],
            ),
{
    lemma_hex_core_canonical(v as nat);
}

} // verus!
