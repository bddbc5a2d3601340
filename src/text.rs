//! Building display text: decimal numbers, sizes, names.
use vstd::prelude::*;
use vstd::utf8::{decode_utf8, valid_utf8};

verus! {

/// The text that lossy UTF-8 decoding makes of `b`.
pub uninterp spec fn lossy_of(b: Seq<u8>) -> Seq<char>;

/// Relies on `String::from_utf8_lossy`: valid UTF-8 is decoded as it is,
/// and the result depends on the bytes alone.
#[verifier::external_body]
pub(crate) fn lossy_text(b: &[u8]) -> (r: String)
    ensures
        r@ == lossy_of(b@),
        valid_utf8(b@) ==> r@ == decode_utf8(b@),
{
    String::from_utf8_lossy(b).into_owned()
}

/// Relies on `String::push`: appends one character.
#[verifier::external_body]
pub(crate) fn push_char(s: &mut String, c: char)
    ensures
        final(s)@ == old(s)@.push(c),
{
    s.push(c)
}

/// The character of a decimal digit.
pub open spec fn digit_char(d: nat) -> char {
    if d == 0 { '0' }
    else if d == 1 { '1' }
    else if d == 2 { '2' }
    else if d == 3 { '3' }
    else if d == 4 { '4' }
    else if d == 5 { '5' }
    else if d == 6 { '6' }
    else if d == 7 { '7' }
    else if d == 8 { '8' }
    else { '9' }
}

/// The decimal notation of `n`, without leading zeros.
pub open spec fn decimal(n: nat) -> Seq<char>
    decreases n,
{
    if n < 10 {
        seq![digit_char(n)]
    } else {
        decimal(n / 10).push(digit_char(n % 10))
    }
}

fn digit(d: u64) -> (c: char)
    requires
        d < 10,
    ensures
        c == digit_char(d as nat),
{
    if d == 0 { '0' }
    else if d == 1 { '1' }
    else if d == 2 { '2' }
    else if d == 3 { '3' }
    else if d == 4 { '4' }
    else if d == 5 { '5' }
    else if d == 6 { '6' }
    else if d == 7 { '7' }
    else if d == 8 { '8' }
    else { '9' }
}

/// Appends the decimal notation of `n`.
pub fn push_decimal(s: &mut String, n: u64)
    ensures
        final(s)@ == old(s)@ + decimal(n as nat),
    decreases n,
{
    if n >= 10 {
        push_decimal(s, n / 10);
    }
    push_char(s, digit(n % 10));
    assert(final(s)@ =~= old(s)@ + decimal(n as nat));
}

/// `n` divided by `unit`, rounded to tenths with ties to even, in tenths.
pub open spec fn tenths(n: nat, unit: nat) -> nat
    recommends
        unit > 0,
{
    let q = n / unit;
    let d = (10 * (n % unit)) / unit;
    let e = (10 * (n % unit)) % unit;
    let up = 2 * e > unit || (2 * e == unit && d % 2 == 1);
    10 * q + d + if up { 1nat } else { 0nat }
}

/// A count of tenths written with one decimal.
pub open spec fn tenths_text(t: nat) -> Seq<char> {
    decimal(t / 10) + seq!['.'] + decimal(t % 10)
}

pub const KIB: u64 = 1024;
pub const MIB: u64 = 1024 * 1024;
pub const GIB: u64 = 1024 * 1024 * 1024;

/// A byte count in human units: bytes below one KiB, else KB, MB or GB
/// with one decimal.
pub open spec fn human_size(n: nat) -> Seq<char> {
    if n < KIB {
        decimal(n) + " B"@
    } else if n < MIB {
        tenths_text(tenths(n, KIB as nat)) + " KB"@
    } else if n < GIB {
        tenths_text(tenths(n, MIB as nat)) + " MB"@
    } else {
        tenths_text(tenths(n, GIB as nat)) + " GB"@
    }
}

/// `n / unit` in tenths, rounded with ties to even.
fn tenths_of(n: u64, unit: u64) -> (t: u64)
    requires
        unit == KIB || unit == MIB || unit == GIB,
    ensures
        t == tenths(n as nat, unit as nat),
{
    let q = n / unit;
    let r = n % unit;
    assert(10 * r < 10 * GIB) by (nonlinear_arith)
        requires r < unit, unit <= GIB;
    let d = (10 * r) / unit;
    let e = (10 * r) % unit;
    let up = 2 * e > unit || (2 * e == unit && d % 2 == 1);
    assert(q as int <= u64::MAX as int / 1024) by (nonlinear_arith)
        requires q as int == n as int / unit as int, unit >= 1024, n <= u64::MAX;
    assert((10 * r as int) / (unit as int) < 10) by (nonlinear_arith)
        requires r < unit, unit > 0;
    10 * q + d + if up { 1 } else { 0 }
}

/// Appends a count of tenths with one decimal.
fn push_tenths(s: &mut String, t: u64)
    ensures
        final(s)@ == old(s)@ + tenths_text(t as nat),
{
    push_decimal(s, t / 10);
    push_char(s, '.');
    push_decimal(s, t % 10);
    assert(final(s)@ =~= old(s)@ + tenths_text(t as nat));
}

/// The size in human units, as `human_size` states it.
pub fn humanize_size(size: u64) -> (r: String)
    ensures
        r@ == human_size(size as nat),
{
    let mut s = String::new();
    if size < KIB {
        push_decimal(&mut s, size);
        s.append(" B");
    } else if size < MIB {
        push_tenths(&mut s, tenths_of(size, KIB));
        s.append(" KB");
    } else if size < GIB {
        push_tenths(&mut s, tenths_of(size, MIB));
        s.append(" MB");
    } else {
        push_tenths(&mut s, tenths_of(size, GIB));
        s.append(" GB");
    }
    assert(s@ =~= human_size(size as nat));
    s
}

} // verus!
