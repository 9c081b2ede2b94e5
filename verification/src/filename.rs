//! Region file names.
//!
//! A region at `(x, z)` is stored in the file `r.<x>.<z>.mca`, with each
//! coordinate written as a strict signed decimal: an optional minus sign,
//! then either the single digit `0` or digits without a leading zero. The
//! parser here accepts exactly the names of that shape whose two numbers fit
//! an `i32` — no surrounding whitespace, no extra dots, no leading plus sign
//! — and maps each accepted name to its coordinate pair.

use vstd::prelude::*;
use vstd::string::StringSliceAdditionalSpecFns;

verus! {

/// ASCII code of `r`.
pub const BYTE_R: u8 = 114;

/// ASCII code of `.`.
pub const BYTE_DOT: u8 = 46;

/// ASCII code of `-`.
pub const BYTE_MINUS: u8 = 45;

/// ASCII code of `0`.
pub const BYTE_ZERO: u8 = 48;

/// Whether a byte is an ASCII decimal digit.
pub open spec fn is_digit(b: u8) -> bool {
    48 <= b <= 57
}

/// The number denoted by a sequence of ASCII digits, most significant first.
pub open spec fn digits_value(t: Seq<u8>) -> int
    decreases t.len(),
{
    if t.len() == 0 {
        0
    } else {
        digits_value(t.drop_last()) * 10 + (t.last() - 48)
    }
}

/// A strict unsigned decimal: at least one digit, and no leading zero except
/// the single digit `0`.
pub open spec fn is_strict_uint(t: Seq<u8>) -> bool {
    &&& t.len() >= 1
    &&& forall|i: int| 0 <= i < t.len() ==> is_digit(#[trigger] t[i])
    &&& (t.len() > 1 ==> t[0] != 48)
}

/// A strict signed decimal: a strict unsigned decimal with an optional
/// leading minus sign.
pub open spec fn is_strict_int(t: Seq<u8>) -> bool {
    is_strict_uint(t) || (t.len() >= 2 && t[0] == BYTE_MINUS && is_strict_uint(t.skip(1)))
}

/// The number denoted by a strict signed decimal.
pub open spec fn int_value(t: Seq<u8>) -> int {
    if t.len() >= 1 && t[0] == BYTE_MINUS {
        -digits_value(t.skip(1))
    } else {
        digits_value(t)
    }
}

/// A strict signed decimal whose value fits an `i32`.
pub open spec fn is_i32_token(t: Seq<u8>) -> bool {
    is_strict_int(t) && i32::MIN <= int_value(t) <= i32::MAX
}

/// The name `s` decomposes as `r.<x>.<z>.mca` with the separating dots at
/// positions `i` and `j` and both coordinate tokens strict decimals fitting
/// an `i32`.
pub open spec fn region_name_split(s: Seq<u8>, i: int, j: int) -> bool {
    &&& 2 < i
    &&& i + 1 < j
    &&& j + 4 == s.len()
    &&& s[0] == BYTE_R
    &&& s[1] == BYTE_DOT
    &&& s[i] == BYTE_DOT
    &&& s[j] == BYTE_DOT
    &&& s[j + 1] == 109
    &&& s[j + 2] == 99
    &&& s[j + 3] == 97
    &&& is_i32_token(s.subrange(2, i))
    &&& is_i32_token(s.subrange(i + 1, j))
}

/// The bytes `s` form a region file name: the regular language
/// `r.<i32>.<i32>.mca` over strict signed decimals.
pub open spec fn is_region_file_name(s: Seq<u8>) -> bool {
    exists|i: int, j: int| region_name_split(s, i, j)
}

/// A strict decimal token never holds a dot.
proof fn lemma_token_has_no_dot(t: Seq<u8>, k: int)
    requires
        is_i32_token(t),
        0 <= k < t.len(),
    ensures
        t[k] != BYTE_DOT,
{
    if t[0] == BYTE_MINUS && t.len() >= 2 && !is_strict_uint(t) {
        if k >= 1 {
            assert(is_digit(t.skip(1)[k - 1]));
        }
    }
}

/// A name decomposes in at most one way: the separating dots of any split
/// are the first dot at or after position 2 and the first dot after it.
proof fn lemma_split_unique(s: Seq<u8>, i1: int, j1: int, i2: int, j2: int)
    requires
        region_name_split(s, i1, j1),
        region_name_split(s, i2, j2),
    ensures
        i1 == i2,
        j1 == j2,
{
    if i1 < i2 {
        assert(s.subrange(2, i2)[i1 - 2] == s[i1]);
        lemma_token_has_no_dot(s.subrange(2, i2), i1 - 2);
    }
    if i2 < i1 {
        assert(s.subrange(2, i1)[i2 - 2] == s[i2]);
        lemma_token_has_no_dot(s.subrange(2, i1), i2 - 2);
    }
    if j1 < j2 {
        assert(s.subrange(i1 + 1, j2)[j1 - i1 - 1] == s[j1]);
        lemma_token_has_no_dot(s.subrange(i1 + 1, j2), j1 - i1 - 1);
    }
    if j2 < j1 {
        assert(s.subrange(i1 + 1, j1)[j2 - i1 - 1] == s[j2]);
        lemma_token_has_no_dot(s.subrange(i1 + 1, j1), j2 - i1 - 1);
    }
}

/// The value of an all-digit sequence is at least the value of any of its
/// prefixes, and never negative.
proof fn lemma_digits_value_prefix(t: Seq<u8>, p: int)
    requires
        forall|i: int| 0 <= i < t.len() ==> is_digit(#[trigger] t[i]),
        0 <= p <= t.len(),
    ensures
        0 <= digits_value(t.take(p)) <= digits_value(t),
    decreases t.len() - p,
{
    if p == t.len() {
        assert(t.take(p) =~= t);
        lemma_digits_value_nonneg(t);
    } else {
        lemma_digits_value_prefix(t, p + 1);
        lemma_digits_value_nonneg(t.take(p));
        assert(t.take(p + 1).drop_last() =~= t.take(p));
        assert(digits_value(t.take(p + 1)) == digits_value(t.take(p)) * 10 + (t[p] - 48));
    }
}

/// The value of an all-digit sequence is never negative.
proof fn lemma_digits_value_nonneg(t: Seq<u8>)
    requires
        forall|i: int| 0 <= i < t.len() ==> is_digit(#[trigger] t[i]),
    ensures
        digits_value(t) >= 0,
    decreases t.len(),
{
    if t.len() > 0 {
        lemma_digits_value_nonneg(t.drop_last());
    }
}

/// Finds the first dot at or after `start`.
fn find_dot(b: &[u8], start: usize) -> (r: Option<usize>)
    requires
        start <= b@.len(),
    ensures
        (r matches Some(d) ==> {
            &&& start <= d < b@.len()
            &&& b@[d as int] == BYTE_DOT
            &&& forall|k: int| start <= k < d ==> b@[k] != BYTE_DOT
        }),
        r is None ==> forall|k: int| start <= k < b@.len() ==> b@[k] != BYTE_DOT,
{
    let n = b.len();
    let mut d: usize = start;
    while d < n
        invariant
            start <= d <= n,
            n == b@.len(),
            forall|k: int| start <= k < d ==> b@[k] != BYTE_DOT,
        decreases n - d,
    {
        if b[d] == BYTE_DOT {
            return Some(d);
        }
        d = d + 1;
    }
    None
}

/// Parses the byte range `[start, end)` of `b` as a strict signed decimal
/// fitting an `i32`: exactly the tokens `is_i32_token` admits are accepted,
/// and each maps to its value.
fn parse_i32_token(b: &[u8], start: usize, end: usize) -> (r: Option<i32>)
    requires
        start <= end <= b@.len(),
    ensures
        (r is Some) == is_i32_token(b@.subrange(start as int, end as int)),
        r matches Some(v) ==> v == int_value(b@.subrange(start as int, end as int)),
{
    let ghost t = b@.subrange(start as int, end as int);
    if start == end {
        return None;
    }
    let negative = b[start] == BYTE_MINUS;
    let ds: usize = if negative {
        start + 1
    } else {
        start
    };
    let ghost digits = t.skip(if negative { 1int } else { 0int });
    assert(digits =~= b@.subrange(ds as int, end as int));
    if ds == end {
        // A lone minus sign, or nothing after it.
        assert(!is_i32_token(t)) by {
            if is_strict_uint(t) {
                assert(is_digit(t[0]));
            }
        }
        return None;
    }
    if b[ds] == BYTE_ZERO && end - ds > 1 {
        // Leading zero.
        assert(!is_i32_token(t)) by {
            assert(t[if negative { 1int } else { 0int }] == 48);
            if is_strict_uint(t) {
                assert(is_digit(t[0]));
                assert(t[0] != 48);
                assert(!negative);
            }
            if t[0] == BYTE_MINUS && is_strict_uint(t.skip(1)) {
                assert(t.skip(1)[0] != 48);
            }
        }
        return None;
    }
    let bound: i64 = if negative {
        2147483648
    } else {
        2147483647
    };
    let mut acc: i64 = 0;
    let mut k: usize = ds;
    while k < end
        invariant
            start <= end <= b@.len(),
            t == b@.subrange(start as int, end as int),
            negative == (b@[start as int] == BYTE_MINUS),
            ds == if negative {
                start + 1
            } else {
                start as int
            },
            ds <= k <= end,
            ds < end,
            digits == t.skip(
                if negative {
                    1int
                } else {
                    0int
                },
            ),
            digits == b@.subrange(ds as int, end as int),
            forall|x: int| ds <= x < k ==> is_digit(#[trigger] b@[x]),
            acc == digits_value(b@.subrange(ds as int, k as int)),
            0 <= acc <= bound,
            bound == if negative {
                2147483648int
            } else {
                2147483647int
            },
        decreases end - k,
    {
        let c = b[k];
        if !(BYTE_ZERO <= c && c <= 57) {
            assert(!is_i32_token(t)) by {
                assert(t[k - start] == c);
                if is_strict_uint(t) {
                    assert(is_digit(t[k - start]));
                }
                if t.len() >= 2 && t[0] == BYTE_MINUS && is_strict_uint(t.skip(1)) {
                    assert(t.skip(1)[k - start - 1] == c);
                    assert(is_digit(t.skip(1)[k - start - 1]));
                }
            }
            return None;
        }
        acc = acc * 10 + (c - BYTE_ZERO) as i64;
        proof {
            assert(b@.subrange(ds as int, k + 1).drop_last() =~= b@.subrange(ds as int, k as int));
        }
        k = k + 1;
        if acc > bound {
            // Too large for an i32: the remaining digits only grow it.
            assert(!is_i32_token(t)) by {
                if is_i32_token(t) {
                    assert forall|x: int| 0 <= x < digits.len() implies is_digit(
                        #[trigger] digits[x],
                    ) by {
                        if is_strict_uint(t) {
                            assert(digits =~= t);
                            assert(is_digit(t[x]));
                        } else {
                            assert(is_digit(t.skip(1)[x]));
                        }
                    }
                    lemma_digits_value_prefix(digits, k - ds);
                    assert(digits.take(k - ds) =~= b@.subrange(ds as int, k as int));
                    assert(digits_value(digits) >= acc);
                    if negative {
                        assert(digits =~= t.skip(1));
                        assert(int_value(t) == -digits_value(digits));
                        assert(int_value(t) < i32::MIN);
                    } else {
                        assert(!(t.len() >= 1 && t[0] == BYTE_MINUS));
                        assert(digits =~= t);
                        assert(int_value(t) > i32::MAX);
                    }
                }
            }
            return None;
        }
    }
    proof {
        assert(b@.subrange(ds as int, end as int) =~= digits);
        assert(is_strict_uint(digits)) by {
            assert(is_digit(digits[0]));
            if digits.len() > 1 {
                assert(digits[0] != 48);
            }
        }
        if negative {
            assert(t[0] == BYTE_MINUS);
            assert(digits =~= t.skip(1));
            assert(is_i32_token(t));
        } else {
            assert(digits =~= t);
            assert(t[0] != BYTE_MINUS) by {
                assert(is_digit(t[0]));
            }
            assert(is_i32_token(t));
        }
    }
    if negative {
        Some((-acc) as i32)
    } else {
        Some(acc as i32)
    }
}

/// Parses a region file name given as bytes. Exactly the names of the shape
/// `r.<x>.<z>.mca` — strict signed decimals, no extra dots, nothing around —
/// whose coordinates fit an `i32` are accepted, and each accepted name maps
/// to its `(x, z)` pair.
pub fn parse_region_file_name_bytes(b: &[u8]) -> (r: Option<(i32, i32)>)
    ensures
        (r is Some) == is_region_file_name(b@),
        r matches Some(p) ==> forall|i: int, j: int|
            #[trigger] region_name_split(b@, i, j) ==> p.0 == int_value(b@.subrange(2, i)) && p.1
                == int_value(b@.subrange(i + 1, j)),
{
    let n = b.len();
    if n < 2 || b[0] != BYTE_R || b[1] != BYTE_DOT {
        assert(!is_region_file_name(b@)) by {
            if exists|i: int, j: int| region_name_split(b@, i, j) {
                let (i, j) = choose|i: int, j: int| region_name_split(b@, i, j);
            }
        }
        return None;
    }
    let i = match find_dot(b, 2) {
        Some(i) => i,
        None => {
            assert(!is_region_file_name(b@)) by {
                if exists|i: int, j: int| region_name_split(b@, i, j) {
                    let (i, j) = choose|i: int, j: int| region_name_split(b@, i, j);
                }
            }
            return None;
        },
    };
    // Any valid split's first separating dot is the first dot at or after
    // position 2: a dot earlier inside the x token is impossible.
    proof {
        lemma_first_dots_force_split(b@, i as int);
    }
    let x = match parse_i32_token(b, 2, i) {
        Some(x) => x,
        None => {
            assert(!is_region_file_name(b@)) by {
                if exists|i2: int, j2: int| region_name_split(b@, i2, j2) {
                    let (i2, j2) = choose|i2: int, j2: int| region_name_split(b@, i2, j2);
                    assert(i2 == i);
                }
            }
            return None;
        },
    };
    let j = match find_dot(b, i + 1) {
        Some(j) => j,
        None => {
            assert(!is_region_file_name(b@)) by {
                if exists|i2: int, j2: int| region_name_split(b@, i2, j2) {
                    let (i2, j2) = choose|i2: int, j2: int| region_name_split(b@, i2, j2);
                    assert(i2 == i);
                    lemma_token_has_no_dot(b@.subrange(i2 + 1, j2), j2 - i2 - 1);
                }
            }
            return None;
        },
    };
    proof {
        lemma_second_dot_forces_split(b@, i as int, j as int);
    }
    let z = match parse_i32_token(b, i + 1, j) {
        Some(z) => z,
        None => {
            assert(!is_region_file_name(b@)) by {
                if exists|i2: int, j2: int| region_name_split(b@, i2, j2) {
                    let (i2, j2) = choose|i2: int, j2: int| region_name_split(b@, i2, j2);
                    assert(i2 == i && j2 == j);
                }
            }
            return None;
        },
    };
    if !(n >= 4 && j == n - 4 && b[j + 1] == 109 && b[j + 2] == 99 && b[j + 3] == 97) {
        assert(!is_region_file_name(b@)) by {
            if exists|i2: int, j2: int| region_name_split(b@, i2, j2) {
                let (i2, j2) = choose|i2: int, j2: int| region_name_split(b@, i2, j2);
                assert(i2 == i && j2 == j);
            }
        }
        return None;
    }
    proof {
        assert(region_name_split(b@, i as int, j as int));
        assert forall|i2: int, j2: int| #[trigger] region_name_split(b@, i2, j2) implies x
            == int_value(b@.subrange(2, i2)) && z == int_value(b@.subrange(i2 + 1, j2)) by {
            lemma_split_unique(b@, i as int, j as int, i2, j2);
        }
    }
    Some((x, z))
}

/// In any valid split of `b`, the first separating dot is the first dot at
/// or after position 2.
proof fn lemma_first_dots_force_split(b: Seq<u8>, i: int)
    requires
        2 <= i < b.len(),
        b[i] == BYTE_DOT,
        forall|k: int| 2 <= k < i ==> b[k] != BYTE_DOT,
    ensures
        forall|i2: int, j2: int| #[trigger] region_name_split(b, i2, j2) ==> i2 == i,
{
    assert forall|i2: int, j2: int| #[trigger] region_name_split(b, i2, j2) implies i2 == i by {
        if i2 < i {
            assert(b[i2] != BYTE_DOT);
        }
        if i < i2 {
            assert(b.subrange(2, i2)[i - 2] == b[i]);
            lemma_token_has_no_dot(b.subrange(2, i2), i - 2);
        }
    }
}

/// In any valid split of `b` whose first dot is at `i`, the second
/// separating dot is the first dot after `i`.
proof fn lemma_second_dot_forces_split(b: Seq<u8>, i: int, j: int)
    requires
        2 <= i < b.len(),
        b[i] == BYTE_DOT,
        forall|k: int| 2 <= k < i ==> b[k] != BYTE_DOT,
        i < j < b.len(),
        b[j] == BYTE_DOT,
        forall|k: int| i + 1 <= k < j ==> b[k] != BYTE_DOT,
    ensures
        forall|i2: int, j2: int| #[trigger] region_name_split(b, i2, j2) ==> i2 == i && j2 == j,
{
    lemma_first_dots_force_split(b, i);
    assert forall|i2: int, j2: int| #[trigger] region_name_split(b, i2, j2) implies i2 == i && j2
        == j by {
        assert(i2 == i);
        if j2 < j {
            assert(b[j2] != BYTE_DOT);
        }
        if j < j2 {
            assert(b.subrange(i + 1, j2)[j - i - 1] == b[j]);
            lemma_token_has_no_dot(b.subrange(i + 1, j2), j - i - 1);
        }
    }
}

/// Parses a region file name: see `parse_region_file_name_bytes`. The name
/// is taken as its UTF-8 bytes; any non-ASCII name is rejected, since its
/// bytes cannot all be digits, dots and letters.
pub fn parse_region_file_name(s: &str) -> (r: Option<(i32, i32)>)
    ensures
        (r is Some) == is_region_file_name(s.spec_bytes()),
        r matches Some(p) ==> forall|i: int, j: int|
            #[trigger] region_name_split(s.spec_bytes(), i, j) ==> p.0 == int_value(
                s.spec_bytes().subrange(2, i),
            ) && p.1 == int_value(s.spec_bytes().subrange(i + 1, j)),
{
    parse_region_file_name_bytes(s.as_bytes())
}

/// The decimal digits of `m`, most significant first, without leading zeros.
pub open spec fn dec_digits(m: nat) -> Seq<u8>
    decreases m,
{
    if m < 10 {
        seq![(48 + m) as u8]
    } else {
        dec_digits(m / 10).push((48 + m % 10) as u8)
    }
}

/// The decimal digits of a number form a strict unsigned decimal denoting it.
pub proof fn lemma_dec_digits_value(m: nat)
    ensures
        is_strict_uint(dec_digits(m)),
        digits_value(dec_digits(m)) == m,
        m > 0 ==> dec_digits(m)[0] != 48,
    decreases m,
{
    if m < 10 {
        let d = dec_digits(m);
        assert(d.len() == 1);
        assert(d.last() == (48 + m) as u8);
        assert(digits_value(d.drop_last()) == 0);
        assert(digits_value(d) == d.last() - 48);
    } else {
        lemma_dec_digits_value(m / 10);
        vstd::arithmetic::div_mod::lemma_fundamental_div_mod(m as int, 10);
        let d = dec_digits(m);
        assert(d.drop_last() =~= dec_digits(m / 10));
        assert(forall|i: int| 0 <= i < d.len() - 1 ==> is_digit(#[trigger] d[i]));
        assert(0 <= m % 10 < 10);
        assert(d.last() == (48 + m % 10) as u8);
        assert(d.last() - 48 == m % 10);
        assert(digits_value(d) == digits_value(d.drop_last()) * 10 + (d.last() - 48));
        assert(digits_value(d.drop_last()) == m / 10);
        assert(m / 10 * 10 + m % 10 == m);
        assert(digits_value(d) == m);
        assert(m / 10 > 0);
    }
}

/// Writes the decimal digits of `m` onto the end of `out`.
fn push_decimal(out: &mut Vec<u8>, m: u32)
    ensures
        final(out)@ == old(out)@ + dec_digits(m as nat),
    decreases m,
{
    if m >= 10 {
        push_decimal(out, m / 10);
    }
    out.push(48 + (m % 10) as u8);
    assert(out@ =~= old(out)@ + dec_digits(m as nat));
}

/// The bytes of the file name of the region at `(x, z)`:
/// `r.<x>.<z>.mca` with each coordinate in strict signed decimal.
pub open spec fn region_file_name_spec(x: int, z: int) -> Seq<u8> {
    seq![BYTE_R, BYTE_DOT] + signed_decimal(x) + seq![BYTE_DOT] + signed_decimal(z) + seq![
        BYTE_DOT,
        109u8,
        99u8,
        97u8,
    ]
}

/// The file name of the region at `(region_x, region_z)`, as bytes:
/// `r.<region_x>.<region_z>.mca` with strict signed decimals. The parser maps
/// this name back to `(region_x, region_z)`.
pub fn region_file_name_bytes(region_x: i32, region_z: i32) -> (r: Vec<u8>)
    ensures
        r@ == region_file_name_spec(region_x as int, region_z as int),
        is_region_file_name(r@),
        forall|i: int, j: int|
            #[trigger] region_name_split(r@, i, j) ==> int_value(r@.subrange(2, i)) == region_x
                && int_value(r@.subrange(i + 1, j)) == region_z,
        forall|k: int| 0 <= k < r@.len() ==> r@[k] < 128,
{
    let mut out: Vec<u8> = Vec::new();
    out.push(BYTE_R);
    out.push(BYTE_DOT);
    push_signed_decimal(&mut out, region_x);
    let ghost i = out@.len() as int;
    out.push(BYTE_DOT);
    push_signed_decimal(&mut out, region_z);
    let ghost j = out@.len() as int;
    out.push(BYTE_DOT);
    out.push(109);
    out.push(99);
    out.push(97);
    proof {
        let tx = signed_decimal(region_x as int);
        let tz = signed_decimal(region_z as int);
        lemma_signed_decimal_token(region_x as int);
        lemma_signed_decimal_token(region_z as int);
        assert(out@ =~= region_file_name_spec(region_x as int, region_z as int));
        assert(out@.subrange(2, i) =~= tx);
        assert(out@.subrange(i + 1, j) =~= tz);
        assert(region_name_split(out@, i, j));
        assert forall|i2: int, j2: int| #[trigger] region_name_split(out@, i2, j2) implies
            int_value(out@.subrange(2, i2)) == region_x && int_value(
            out@.subrange(i2 + 1, j2),
        ) == region_z by {
            lemma_split_unique(out@, i, j, i2, j2);
        }
        assert forall|k: int| 0 <= k < out@.len() implies out@[k] < 128 by {
            lemma_signed_decimal_ascii(region_x as int, k - 2);
            lemma_signed_decimal_ascii(region_z as int, k - i - 1);
        }
    }
    out
}

/// The strict signed decimal of `v`: its digits, with a minus sign in front
/// when `v` is negative.
pub open spec fn signed_decimal(v: int) -> Seq<u8> {
    if v < 0 {
        seq![BYTE_MINUS] + dec_digits((-v) as nat)
    } else {
        dec_digits(v as nat)
    }
}

/// The strict signed decimal of an `i32` is a token fitting an `i32` and
/// denotes the number, and is at most 11 bytes long.
pub proof fn lemma_signed_decimal_token(v: int)
    requires
        i32::MIN <= v <= i32::MAX,
    ensures
        is_i32_token(signed_decimal(v)),
        int_value(signed_decimal(v)) == v,
{
    if v < 0 {
        lemma_dec_digits_value((-v) as nat);
        let t = signed_decimal(v);
        assert(t.skip(1) =~= dec_digits((-v) as nat));
        assert(!is_digit(t[0]));
    } else {
        lemma_dec_digits_value(v as nat);
        assert(signed_decimal(v)[0] != BYTE_MINUS) by {
            assert(is_digit(signed_decimal(v)[0]));
        }
    }
}

/// Every byte of a signed decimal is ASCII.
proof fn lemma_signed_decimal_ascii(v: int, k: int)
    ensures
        0 <= k < signed_decimal(v).len() ==> signed_decimal(v)[k] < 128,
{
    if 0 <= k < signed_decimal(v).len() {
        if v < 0 {
            if k >= 1 {
                lemma_dec_digits_ascii((-v) as nat, k - 1);
            }
        } else {
            lemma_dec_digits_ascii(v as nat, k);
        }
    }
}

/// Every decimal digit byte is ASCII.
proof fn lemma_dec_digits_ascii(m: nat, k: int)
    ensures
        0 <= k < dec_digits(m).len() ==> dec_digits(m)[k] < 128,
    decreases m,
{
    if m >= 10 {
        lemma_dec_digits_ascii(m / 10, k);
    }
}

/// Writes the strict signed decimal of `v` onto the end of `out`.
fn push_signed_decimal(out: &mut Vec<u8>, v: i32)
    ensures
        final(out)@ == old(out)@ + signed_decimal(v as int),
{
    if v < 0 {
        out.push(BYTE_MINUS);
        let magnitude: u32 = if v == i32::MIN {
            2147483648u32
        } else {
            (-v) as u32
        };
        push_decimal(out, magnitude);
        assert(out@ =~= old(out)@ + signed_decimal(v as int));
    } else {
        push_decimal(out, v as u32);
    }
}

/// Relies on std's String::from_utf8: ASCII bytes become the string of the
/// same characters.
#[verifier::external_body]
fn ascii_string(bytes: Vec<u8>) -> (s: String)
    requires
        forall|k: int| 0 <= k < bytes@.len() ==> bytes@[k] < 128,
    ensures
        s@.len() == bytes@.len(),
        forall|k: int| 0 <= k < bytes@.len() ==> s@[k] == bytes@[k] as char,
{
    String::from_utf8(bytes).expect("ASCII bytes are valid UTF-8")
}

/// The file name of the region at `(region_x, region_z)`, as a string:
/// `r.<region_x>.<region_z>.mca`. The string is ASCII and its UTF-8 bytes
/// are exactly `region_file_name_spec`, so the parser maps the name back to
/// `(region_x, region_z)`.
pub fn region_name(region_x: i32, region_z: i32) -> (s: String)
    ensures
        vstd::utf8::is_ascii_chars(s@),
        vstd::utf8::encode_utf8(s@) == region_file_name_spec(region_x as int, region_z as int),
        is_region_file_name(vstd::utf8::encode_utf8(s@)),
        forall|i: int, j: int|
            #[trigger] region_name_split(vstd::utf8::encode_utf8(s@), i, j) ==> int_value(
                vstd::utf8::encode_utf8(s@).subrange(2, i),
            ) == region_x && int_value(vstd::utf8::encode_utf8(s@).subrange(i + 1, j)) == region_z,
{
    let bytes = region_file_name_bytes(region_x, region_z);
    let ghost byte_view = bytes@;
    let s = ascii_string(bytes);
    proof {
        assert(vstd::utf8::is_ascii_chars(s@)) by {
            assert forall|k: int| 0 <= k < s@.len() implies '\0' <= #[trigger] s@[k]
                <= '\u{7f}' by {
                assert(s@[k] == byte_view[k] as char);
                assert(byte_view[k] < 128);
            }
        }
        vstd::utf8::is_ascii_chars_encode_utf8(s@);
        assert(vstd::utf8::encode_utf8(s@) =~= byte_view);
    }
    s
}

} // verus!
