//! Helpers behind the debug console: command-name matching and literal
//! parsing. The console's I/O loop itself lives outside this crate.

use vstd::prelude::*;
use vstd::string::StringSliceAdditionalSpecFns;

verus! {

/// Edit distance with unit costs, over byte strings.
pub open spec fn lev(a: Seq<u8>, b: Seq<u8>) -> nat
    decreases a.len(), b.len(),
{
    if a.len() == 0 {
        b.len()
    } else if b.len() == 0 {
        a.len()
    } else {
        let del = lev(a.drop_last(), b) + 1;
        let ins = lev(a, b.drop_last()) + 1;
        let sub = lev(a.drop_last(), b.drop_last()) + if a.last() == b.last() {
            0nat
        } else {
            1nat
        };
        min3(del, ins, sub)
    }
}

pub open spec fn min3(a: nat, b: nat, c: nat) -> nat {
    if a <= b && a <= c {
        a
    } else if b <= c {
        b
    } else {
        c
    }
}

fn lev_rec(a: &[u8], b: &[u8], i: usize, j: usize) -> (r: usize)
    requires
        i <= a@.len() < 16,
        j <= b@.len() < 16,
    ensures
        r == lev(a@.take(i as int), b@.take(j as int)),
        r <= i + j,
    decreases i + j,
{
    if i == 0 {
        proof {
            assert(a@.take(0) =~= Seq::<u8>::empty());
        }
        j
    } else if j == 0 {
        proof {
            assert(b@.take(0) =~= Seq::<u8>::empty());
        }
        i
    } else {
        proof {
            assert(a@.take(i as int).drop_last() =~= a@.take(i - 1));
            assert(b@.take(j as int).drop_last() =~= b@.take(j - 1));
            assert(a@.take(i as int).last() == a@[i - 1]);
            assert(b@.take(j as int).last() == b@[j - 1]);
        }
        let del = lev_rec(a, b, i - 1, j) + 1;
        let ins = lev_rec(a, b, i, j - 1) + 1;
        let sub = lev_rec(a, b, i - 1, j - 1) + if a[i - 1] == b[j - 1] {
            0
        } else {
            1
        };
        let m = if del <= ins && del <= sub {
            del
        } else if ins <= sub {
            ins
        } else {
            sub
        };
        m
    }
}

/// Edit distance between two command names; names of 16 bytes or more read
/// as distance 0, exactly as in the matcher this backs.
pub fn levenshtein_distance(s1: &str, s2: &str) -> (r: usize)
    ensures
        s1.spec_bytes().len() >= 16 || s2.spec_bytes().len() >= 16 ==> r == 0,
        s1.spec_bytes().len() < 16 && s2.spec_bytes().len() < 16 ==> r == lev(
            s1.spec_bytes(),
            s2.spec_bytes(),
        ),
{
    let a = s1.as_bytes();
    let b = s2.as_bytes();
    if a.len() >= 16 || b.len() >= 16 {
        return 0;
    }
    let r = lev_rec(a, b, a.len(), b.len());
    proof {
        assert(a@.take(a@.len() as int) =~= a@);
        assert(b@.take(b@.len() as int) =~= b@);
    }
    r
}

/// The value of one digit in a radix up to 16 (`0-9`, `a-f`, `A-F`), or 16
/// when the byte is no digit.
pub open spec fn digit_val(b: u8) -> int {
    if 48 <= b <= 57 {
        b - 48
    } else if 97 <= b <= 102 {
        b - 87
    } else if 65 <= b <= 70 {
        b - 55
    } else {
        16
    }
}

/// The value of a digit string in the given radix.
pub open spec fn radix_value(ds: Seq<u8>, radix: int) -> int
    decreases ds.len(),
{
    if ds.len() == 0 {
        0
    } else {
        radix_value(ds.drop_last(), radix) * radix + digit_val(ds.last())
    }
}

/// All bytes are digits below the radix.
pub open spec fn all_radix_digits(ds: Seq<u8>, radix: int) -> bool {
    forall|i: int| 0 <= i < ds.len() ==> digit_val(#[trigger] ds[i]) < radix
}

/// What parsing a digit string yields: its value, or nothing when it is
/// empty, has a stray byte, or overflows the machine word.
pub open spec fn spec_parse_radix(ds: Seq<u8>, radix: int) -> Option<usize> {
    if ds.len() > 0 && all_radix_digits(ds, radix) && radix_value(ds, radix) <= usize::MAX {
        Some(radix_value(ds, radix) as usize)
    } else {
        None
    }
}

proof fn lemma_radix_value_nonneg(ds: Seq<u8>, radix: int)
    requires
        radix >= 2,
        all_radix_digits(ds, radix),
    ensures
        radix_value(ds, radix) >= 0,
    decreases ds.len(),
{
    if ds.len() > 0 {
        assert(all_radix_digits(ds.drop_last(), radix));
        lemma_radix_value_nonneg(ds.drop_last(), radix);
        assert(radix_value(ds.drop_last(), radix) * radix >= 0) by (nonlinear_arith)
            requires
                radix_value(ds.drop_last(), radix) >= 0,
                radix >= 2,
        ;
    }
}

/// Longer prefixes never shrink the value.
proof fn lemma_radix_value_grows(ds: Seq<u8>, radix: int, i: int)
    requires
        radix >= 2,
        0 <= i <= ds.len(),
        all_radix_digits(ds, radix),
    ensures
        radix_value(ds, radix) >= radix_value(ds.take(i), radix),
    decreases ds.len() - i,
{
    if i < ds.len() {
        lemma_radix_value_grows(ds, radix, i + 1);
        assert(ds.take(i + 1).drop_last() =~= ds.take(i));
        assert(ds.take(i + 1).last() == ds[i]);
        assert(all_radix_digits(ds.take(i), radix)) by {
            assert(forall|j: int| 0 <= j < i ==> ds.take(i)[j] == ds[j]);
        }
        lemma_radix_value_nonneg(ds.take(i), radix);
        assert(radix_value(ds.take(i + 1), radix) >= radix_value(ds.take(i), radix)) by (
        nonlinear_arith)
            requires
                radix_value(ds.take(i + 1), radix) == radix_value(ds.take(i), radix) * radix
                    + digit_val(ds[i]),
                radix_value(ds.take(i), radix) >= 0,
                digit_val(ds[i]) >= 0,
                radix >= 2,
        ;
    } else {
        assert(ds.take(i) =~= ds);
    }
}

/// Parses the digits in the given radix; `None` on a stray byte, an empty
/// string or overflow, exactly like the checked parser it mirrors.
fn parse_radix(b: &[u8], from: usize, radix: usize) -> (r: Option<usize>)
    requires
        from <= b@.len(),
        2 <= radix <= 16,
    ensures
        r == spec_parse_radix(b@.skip(from as int), radix as int),
{
    let ghost ds = b@.skip(from as int);
    let n = b.len();
    if from == n {
        proof {
            assert(ds.len() == 0);
        }
        return None;
    }
    let mut value: usize = 0;
    let mut k: usize = from;
    while k < n
        invariant
            from <= k <= n,
            n == b@.len(),
            from < n,
            2 <= radix <= 16,
            ds == b@.skip(from as int),
            value == radix_value(ds.take(k - from), radix as int),
            all_radix_digits(ds.take(k - from), radix as int),
            radix_value(ds.take(k - from), radix as int) <= usize::MAX,
        decreases n - k,
    {
        let c = b[k];
        let d: usize = if c >= 48 && c <= 57 {
            (c - 48) as usize
        } else if c >= 97 && c <= 102 {
            (c - 87) as usize
        } else if c >= 65 && c <= 70 {
            (c - 55) as usize
        } else {
            16
        };
        proof {
            assert(ds[k - from] == b@[k as int]);
            assert(d == digit_val(b@[k as int]) || (d == 16 && digit_val(b@[k as int]) == 16));
        }
        if d >= radix {
            proof {
                assert(ds.len() == n - from);
                assert(!all_radix_digits(ds, radix as int)) by {
                    assert(digit_val(ds[k - from]) >= radix);
                    if all_radix_digits(ds, radix as int) {
                        assert(digit_val(ds[k - from]) < radix);
                    }
                }
            }
            return None;
        }
        proof {
            assert(ds.take(k - from + 1).drop_last() =~= ds.take(k - from));
            assert(ds.take(k - from + 1).last() == ds[k - from]);
            assert(all_radix_digits(ds.take(k - from + 1), radix as int)) by {
                assert(forall|j: int| 0 <= j < k - from + 1 ==> ds.take(k - from + 1)[j]
                    == ds[j]);
            }
        }
        if value > (usize::MAX - d) / radix {
            proof {
                let m = (usize::MAX - d) as int;
                let q = m / (radix as int);
                let rm = m % (radix as int);
                vstd::arithmetic::div_mod::lemma_fundamental_div_mod(m, radix as int);
                vstd::arithmetic::div_mod::lemma_mod_bound(m, radix as int);
                assert(m == radix * q + rm && 0 <= rm < radix);
                assert(radix_value(ds.take(k - from + 1), radix as int) > usize::MAX) by (
                nonlinear_arith)
                    requires
                        radix_value(ds.take(k - from + 1), radix as int) == radix_value(
                            ds.take(k - from),
                            radix as int,
                        ) * radix + digit_val(ds[k - from]),
                        radix_value(ds.take(k - from), radix as int) == value,
                        value > q,
                        radix * q + rm == m,
                        0 <= rm < radix,
                        m == usize::MAX - d,
                        digit_val(ds[k - from]) == d,
                        2 <= radix <= 16,
                ;
                if all_radix_digits(ds, radix as int) {
                    lemma_radix_value_grows(ds, radix as int, k - from + 1);
                    assert(radix_value(ds, radix as int) > usize::MAX);
                }
            }
            return None;
        }
        proof {
            let m = (usize::MAX - d) as int;
            let q = m / (radix as int);
            let rm = m % (radix as int);
            vstd::arithmetic::div_mod::lemma_fundamental_div_mod(m, radix as int);
            vstd::arithmetic::div_mod::lemma_mod_bound(m, radix as int);
            assert(m == radix * q + rm && 0 <= rm < radix);
            assert(value * radix + d <= usize::MAX) by (nonlinear_arith)
                requires
                    value <= q,
                    radix * q + rm == m,
                    0 <= rm,
                    m == usize::MAX - d,
                    radix >= 2,
                    value >= 0,
                    d >= 0,
            ;
        }
        value = value * radix + d;
        k = k + 1;
    }
    proof {
        assert(ds.take(n - from) =~= ds);
        assert(ds.len() > 0);
    }
    Some(value)
}

/// Parses a numeric literal: `0x` or `0h` for hex, `0b` for binary, plain
/// decimal otherwise; `None` on malformed or oversized input.
pub fn parse_literal(a: &str) -> (r: Option<usize>)
    ensures
        ({
            let bs = a.spec_bytes();
            if bs.len() >= 2 && bs[0] == 48 && (bs[1] == 120 || bs[1] == 104) {
                r == spec_parse_radix(bs.skip(2), 16)
            } else if bs.len() >= 2 && bs[0] == 48 && bs[1] == 98 {
                r == spec_parse_radix(bs.skip(2), 2)
            } else {
                r == spec_parse_radix(bs, 10)
            }
        }),
{
    let b = a.as_bytes();
    if b.len() >= 2 && b[0] == 48 && (b[1] == 120 || b[1] == 104) {
        parse_radix(b, 2, 16)
    } else if b.len() >= 2 && b[0] == 48 && b[1] == 98 {
        parse_radix(b, 2, 2)
    } else {
        proof {
            assert(b@.skip(0) =~= b@);
        }
        parse_radix(b, 0, 10)
    }
}

/// ASCII lower-casing of one byte.
pub open spec fn to_lower(b: u8) -> u8 {
    if 65 <= b <= 90 {
        (b + 32) as u8
    } else {
        b
    }
}

/// Case-insensitive byte equality.
pub open spec fn eq_icase(a: Seq<u8>, b: Seq<u8>) -> bool {
    a.len() == b.len() && forall|i: int| 0 <= i < a.len() ==> to_lower(#[trigger] a[i]) == to_lower(
        b[i],
    )
}

fn eq_ignore_case(a: &[u8], b: &[u8]) -> (r: bool)
    ensures
        r == eq_icase(a@, b@),
{
    if a.len() != b.len() {
        return false;
    }
    let n = a.len();
    let mut i: usize = 0;
    while i < n
        invariant
            i <= n,
            n == a@.len() == b@.len(),
            forall|j: int| 0 <= j < i ==> to_lower(#[trigger] a@[j]) == to_lower(b@[j]),
        decreases n - i,
    {
        let ca = a[i];
        let cb = b[i];
        let la = if ca >= 65 && ca <= 90 {
            ca + 32
        } else {
            ca
        };
        let lb = if cb >= 65 && cb <= 90 {
            cb + 32
        } else {
            cb
        };
        if la != lb {
            proof {
                assert(to_lower(a@[i as int]) != to_lower(b@[i as int]));
            }
            return false;
        }
        i = i + 1;
    }
    true
}

/// The words the console reads as true, compared without case.
pub open spec fn spec_truthy(s: Seq<u8>) -> bool {
    ||| eq_icase(s, "yes".spec_bytes())
    ||| eq_icase(s, "on".spec_bytes())
    ||| eq_icase(s, "true".spec_bytes())
    ||| eq_icase(s, "y".spec_bytes())
    ||| eq_icase(s, "t".spec_bytes())
    ||| eq_icase(s, "1".spec_bytes())
}

/// Reads a switch word; anything unrecognized reads as `false`, exactly as
/// in the console it backs.
pub fn parse_boolean(a: &str) -> (r: Option<bool>)
    ensures
        r == Some(spec_truthy(a.spec_bytes())),
{
    let b = a.as_bytes();
    if eq_ignore_case(b, "yes".as_bytes()) || eq_ignore_case(b, "on".as_bytes())
        || eq_ignore_case(b, "true".as_bytes()) || eq_ignore_case(b, "y".as_bytes())
        || eq_ignore_case(b, "t".as_bytes()) || eq_ignore_case(b, "1".as_bytes()) {
        Some(true)
    } else {
        Some(false)
    }
}

} // verus!
