//! Unsigned integers written as text: parsing as `str::parse` and
//! `from_str_radix` accept them, and formatting as `format!` writes them.
use vstd::prelude::*;
use crate::text_bytes::{utf8_bytes, string_from_utf8, lemma_ascii_valid};

verus! {

broadcast use vstd::seq::group_seq_axioms;

/// The value of an ASCII digit in the given radix (letters in either case).
pub open spec fn digit_value(c: u8, radix: nat) -> Option<nat> {
    let v: int = if 0x30 <= c <= 0x39 {
        c - 0x30
    } else if 0x61 <= c <= 0x7a {
        c - 0x61 + 10
    } else if 0x41 <= c <= 0x5a {
        c - 0x41 + 10
    } else {
        radix as int
    };
    if v < radix { Some(v as nat) } else { None }
}

pub open spec fn all_digits(b: Seq<u8>, radix: nat) -> bool {
    forall|i: int| 0 <= i < b.len() ==> (#[trigger] digit_value(b[i], radix)) is Some
}

/// The number the digits spell in the given radix.
pub open spec fn digits_value(b: Seq<u8>, radix: nat) -> nat
    decreases b.len(),
{
    if b.len() == 0 {
        0
    } else {
        digits_value(b.drop_last(), radix) * radix + match digit_value(b.last(), radix) {
            Some(v) => v,
            None => 0,
        }
    }
}

/// Parsing an unsigned integer: an optional `+`, then at least one digit,
/// and a value no larger than `max`.
pub open spec fn parse_uint_spec(b: Seq<u8>, radix: nat, max: nat) -> Option<nat> {
    let d = if b.len() >= 1 && b[0] == 0x2b { b.drop_first() } else { b };
    if d.len() == 0 || !all_digits(d, radix) || digits_value(d, radix) > max {
        None
    } else {
        Some(digits_value(d, radix))
    }
}

proof fn lemma_digits_value_monotone(b: Seq<u8>, radix: nat, i: int)
    requires
        radix >= 2,
        0 <= i <= b.len(),
        all_digits(b, radix),
    ensures
        digits_value(b.subrange(0, i), radix) <= digits_value(b, radix),
    decreases b.len() - i,
{
    if i < b.len() {
        lemma_digits_value_monotone(b, radix, i + 1);
        let p = b.subrange(0, i + 1);
        assert(p.drop_last() =~= b.subrange(0, i));
        assert(digit_value(b[i], radix) is Some);
        let x = digits_value(b.subrange(0, i), radix);
        assert(x <= x * radix) by (nonlinear_arith)
            requires
                radix >= 2,
        ;
    } else {
        assert(b.subrange(0, i) =~= b);
    }
}

fn parse_uint(b: &[u8], radix: u64, max: u64) -> (r: Option<u64>)
    requires
        2 <= radix <= 36,
        max <= u32::MAX,
    ensures
        r matches Some(v) ==> parse_uint_spec(b@, radix as nat, max as nat) == Some(v as nat),
        r is None ==> parse_uint_spec(b@, radix as nat, max as nat) is None,
{
    let mut start: usize = 0;
    if b.len() >= 1 && b[0] == 0x2b {
        start = 1;
    }
    let ghost d = if b@.len() >= 1 && b@[0] == 0x2b {
        b@.drop_first()
    } else {
        b@
    };
    assert(d =~= b@.subrange(start as int, b@.len() as int));
    if start >= b.len() {
        assert(d.len() == 0);
        return None;
    }
    let mut acc: u64 = 0;
    let mut i = start;
    while i < b.len()
        invariant
            start <= i <= b@.len(),
            d == b@.subrange(start as int, b@.len() as int),
            d == (if b@.len() >= 1 && b@[0] == 0x2b { b@.drop_first() } else { b@ }),
            2 <= radix <= 36,
            max <= u32::MAX,
            acc <= max,
            all_digits(b@.subrange(start as int, i as int), radix as nat),
            acc == digits_value(b@.subrange(start as int, i as int), radix as nat),
        decreases b@.len() - i,
    {
        let c = b[i];
        let v: u64 = if 0x30 <= c && c <= 0x39 {
            (c - 0x30) as u64
        } else if 0x61 <= c && c <= 0x7a {
            (c - 0x61 + 10) as u64
        } else if 0x41 <= c && c <= 0x5a {
            (c - 0x41 + 10) as u64
        } else {
            radix
        };
        if v >= radix {
            proof {
                assert(d[i - start] == c);
                assert(digit_value(d[i - start], radix as nat) is None);
                assert(!all_digits(d, radix as nat));
            }
            return None;
        }
        assert(acc * radix + v <= u32::MAX * 36 + 36) by (nonlinear_arith)
            requires
                acc <= u32::MAX,
                radix <= 36,
                v < 36,
        ;
        let next = acc * radix + v;
        let ghost pre = b@.subrange(start as int, (i + 1) as int);
        assert(pre.drop_last() =~= b@.subrange(start as int, i as int));
        assert(pre.last() == c);
        assert(digit_value(c, radix as nat) == Some(v as nat));
        assert(digits_value(pre, radix as nat) == next);
        if next > max {
            proof {
                assert(all_digits(pre, radix as nat)) by {
                    assert forall|k: int| 0 <= k < pre.len() implies (#[trigger] digit_value(
                        pre[k],
                        radix as nat,
                    )) is Some by {
                        if k < pre.len() - 1 {
                            assert(pre[k] == b@.subrange(start as int, i as int)[k]);
                        }
                    }
                }
                if all_digits(d, radix as nat) {
                    lemma_digits_value_monotone(d, radix as nat, i + 1 - start);
                    assert(d.subrange(0, i + 1 - start) =~= pre);
                }
            }
            return None;
        }
        acc = next;
        i = i + 1;
        proof {
            assert forall|k: int| 0 <= k < pre.len() implies (#[trigger] digit_value(
                pre[k],
                radix as nat,
            )) is Some by {
                if k < pre.len() - 1 {
                    assert(pre[k] == b@.subrange(start as int, (i - 1) as int)[k]);
                }
            }
        }
    }
    Some(acc)
}

/// Parses a decimal `u32` as `str::parse::<u32>` does.
pub fn parse_u32(s: &str) -> (r: Option<u32>)
    ensures
        r matches Some(v) ==> parse_uint_spec(utf8_bytes(s@), 10, u32::MAX as nat) == Some(
            v as nat,
        ),
        r is None ==> parse_uint_spec(utf8_bytes(s@), 10, u32::MAX as nat) is None,
{
    match parse_uint(s.as_bytes(), 10, u32::MAX as u64) {
        Some(v) => Some(v as u32),
        None => None,
    }
}

/// Parses a hexadecimal `u16` as `u16::from_str_radix(s, 16)` does.
pub fn parse_u16_hex(s: &str) -> (r: Option<u16>)
    ensures
        r matches Some(v) ==> parse_uint_spec(utf8_bytes(s@), 16, u16::MAX as nat) == Some(
            v as nat,
        ),
        r is None ==> parse_uint_spec(utf8_bytes(s@), 16, u16::MAX as nat) is None,
{
    match parse_uint(s.as_bytes(), 16, u16::MAX as u64) {
        Some(v) => Some(v as u16),
        None => None,
    }
}

/// The lowercase ASCII digit for a value below 36.
pub open spec fn digit_char(d: nat) -> u8 {
    if d < 10 { (0x30 + d) as u8 } else { (0x61 + d - 10) as u8 }
}

/// The digits of `n` in the given radix, most significant first, without
/// leading zeros (as `format!("{}")` and `format!("{:x}")` write them).
pub open spec fn radix_digits(n: nat, radix: nat) -> Seq<u8>
    decreases n,
{
    if radix < 2 || n < radix {
        seq![digit_char(n)]
    } else {
        proof {
            assert(n / radix < n) by (nonlinear_arith)
                requires
                    n >= radix,
                    radix >= 2,
            ;
        }
        radix_digits(n / radix, radix).push(digit_char(n % radix))
    }
}

proof fn lemma_radix_digits_ascii(n: nat, radix: nat)
    requires
        2 <= radix <= 36,
    ensures
        forall|i: int| 0 <= i < radix_digits(n, radix).len() ==> #[trigger] radix_digits(n, radix)[i] <= 0x7f,
    decreases n,
{
    if n >= radix {
        assert(n / radix < n) by (nonlinear_arith)
            requires
                n >= radix,
                radix >= 2,
        ;
        assert(n % radix < radix) by (nonlinear_arith)
            requires
                radix >= 2,
        ;
        lemma_radix_digits_ascii(n / radix, radix);
        let prev = radix_digits(n / radix, radix);
        let c = digit_char(n % radix);
        assert(c <= 0x7f);
        assert(radix_digits(n, radix) == prev.push(c));
        assert forall|i: int| 0 <= i < radix_digits(n, radix).len() implies #[trigger] radix_digits(n, radix)[i] <= 0x7f by {
            if i < prev.len() {
                assert(radix_digits(n, radix)[i] == prev[i]);
            }
        }
    }
}

fn format_uint(n: u64, radix: u64) -> (r: String)
    requires
        2 <= radix <= 36,
    ensures
        utf8_bytes(r@) == radix_digits(n as nat, radix as nat),
{
    let mut q = n;
    let mut suffix: Vec<u8> = Vec::new();
    while q >= radix
        invariant
            2 <= radix <= 36,
            radix_digits(n as nat, radix as nat) == radix_digits(q as nat, radix as nat) + suffix@,
        decreases q,
    {
        let d = q % radix;
        let c: u8 = if d < 10 { (0x30 + d) as u8 } else { (0x61 + d - 10) as u8 };
        proof {
            assert(radix_digits(q as nat, radix as nat) == radix_digits(
                (q / radix) as nat,
                radix as nat,
            ).push(c));
        }
        suffix.insert(0, c);
        q = q / radix;
        assert(radix_digits(n as nat, radix as nat) =~= radix_digits(q as nat, radix as nat)
            + suffix@);
    }
    let c: u8 = if q < 10 { (0x30 + q) as u8 } else { (0x61 + q - 10) as u8 };
    suffix.insert(0, c);
    assert(suffix@ =~= radix_digits(n as nat, radix as nat));
    proof {
        lemma_radix_digits_ascii(n as nat, radix as nat);
        lemma_ascii_valid(suffix@);
    }
    string_from_utf8(suffix).unwrap()
}

/// Writes `n` in decimal.
pub fn format_u32(n: u32) -> (r: String)
    ensures
        utf8_bytes(r@) == radix_digits(n as nat, 10),
{
    format_uint(n as u64, 10)
}

/// Writes `n` in lowercase hexadecimal.
pub fn format_u16_hex(n: u16) -> (r: String)
    ensures
        utf8_bytes(r@) == radix_digits(n as nat, 16),
{
    format_uint(n as u64, 16)
}

/// The digits written for `n` are read back as `n`.
pub proof fn lemma_radix_digits_value(n: nat, radix: nat)
    requires
        2 <= radix <= 36,
    ensures
        radix_digits(n, radix).len() >= 1,
        all_digits(radix_digits(n, radix), radix),
        digits_value(radix_digits(n, radix), radix) == n,
        radix_digits(n, radix)[0] != 0x2b,
    decreases n,
{
    let ds = radix_digits(n, radix);
    if n < radix {
        assert(digit_value(digit_char(n), radix) == Some(n));
        assert(ds.drop_last() =~= Seq::<u8>::empty());
        assert(digits_value(ds.drop_last(), radix) == 0);
        assert(digits_value(ds, radix) == 0 * radix + n);
    } else {
        assert(n / radix < n) by (nonlinear_arith)
            requires
                n >= radix,
                radix >= 2,
        ;
        assert(n % radix < radix) by (nonlinear_arith)
            requires
                radix >= 2,
        ;
        assert(n == (n / radix) * radix + n % radix) by (nonlinear_arith)
            requires
                radix >= 2,
        ;
        lemma_radix_digits_value(n / radix, radix);
        let prev = radix_digits(n / radix, radix);
        let c = digit_char(n % radix);
        assert(ds == prev.push(c));
        assert(digit_value(c, radix) == Some(n % radix));
        assert(ds.drop_last() =~= prev);
        assert forall|i: int| 0 <= i < ds.len() implies (#[trigger] digit_value(ds[i], radix)) is Some by {
            if i < prev.len() {
                assert(ds[i] == prev[i]);
            }
        }
        assert(ds[0] == prev[0]);
        assert(digits_value(ds, radix) == digits_value(prev, radix) * radix + n % radix);
        assert(digits_value(ds, radix) == n);
    }
}

/// Reading the digits written for a value no larger than `max` gives the value.
pub proof fn lemma_parse_format_roundtrip(n: nat, radix: nat, max: nat)
    requires
        2 <= radix <= 36,
        n <= max,
    ensures
        parse_uint_spec(radix_digits(n, radix), radix, max) == Some(n),
{
    lemma_radix_digits_value(n, radix);
}

} // verus!
