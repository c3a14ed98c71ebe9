//! Byte counts as people read them.

use vstd::arithmetic::power2::*;
use vstd::prelude::*;
use vstd::string::*;

use crate::text;

verus! {

/// `n / step` rounded to the nearest integer, a tie going to the even one.
pub open spec fn rounded_quotient(n: nat, step: nat) -> nat {
    let quotient = n / step;
    let remainder = n % step;
    if 2 * remainder < step || (2 * remainder == step && quotient % 2 == 0) {
        quotient
    } else {
        quotient + 1
    }
}

/// The distance between neighbouring double-precision numbers at `n`: the
/// power of two that leaves 53 significant bits.
pub open spec fn double_step(n: nat) -> nat
    decreases n,
{
    if n < 0x20_0000_0000_0000 {
        1
    } else {
        2 * double_step(n / 2)
    }
}

/// The double-precision number nearest to `n`.
pub open spec fn nearest_double(n: nat) -> nat {
    rounded_quotient(n, double_step(n)) * double_step(n)
}

/// The tenths of a unit of `scale` bytes that `size` comes to.
pub open spec fn tenths_of(size: nat, scale: nat) -> nat {
    rounded_quotient(10 * nearest_double(size), scale)
}

/// `size` in a unit of `scale` bytes, with one decimal.
pub open spec fn scaled(size: nat, scale: nat, unit: Seq<char>) -> Seq<char> {
    let tenths = tenths_of(size, scale);
    text::decimal(tenths / 10) + "."@ + text::decimal(tenths % 10) + unit
}

/// A byte count in the largest unit, up to TB, of which it holds at least one.
/// Bytes are shown whole, the other units with one decimal.
pub open spec fn size_text(size: nat) -> Seq<char> {
    if size < 1024 {
        text::decimal(size) + " B"@
    } else if size < 1024 * 1024 {
        scaled(size, 1024, " KB"@)
    } else if size < 1024 * 1024 * 1024 {
        scaled(size, 1024 * 1024, " MB"@)
    } else if size < 1024 * 1024 * 1024 * 1024 {
        scaled(size, 1024 * 1024 * 1024, " GB"@)
    } else {
        scaled(size, 1024 * 1024 * 1024 * 1024, " TB"@)
    }
}

/// The spacing never exceeds what it is taken from.
proof fn lemma_step_bound(n: nat)
    ensures
        double_step(n) >= 1,
        double_step(n) == 1 || double_step(n) * 0x10_0000_0000_0000 <= n,
    decreases n,
{
    if n >= 0x20_0000_0000_0000 {
        lemma_step_bound(n / 2);
    }
}

fn find_double_step(n: u64) -> (step: u64)
    ensures
        step == double_step(n as nat),
        1 <= step <= 4096,
    decreases n,
{
    proof {
        lemma_step_bound(n as nat);
    }
    if n < 0x20_0000_0000_0000 {
        1
    } else {
        proof {
            lemma_step_bound((n / 2) as nat);
        }
        2 * find_double_step(n / 2)
    }
}

fn round_quotient(n: u128, step: u128) -> (quotient: u128)
    requires
        0 < step < 0x1_0000_0000_0000_0000,
        n < 0x1_0000_0000_0000_0000_0000_0000,
    ensures
        quotient == rounded_quotient(n as nat, step as nat),
        quotient <= n / step + 1,
{
    let quotient: u128 = n / step;
    let remainder: u128 = n % step;
    if 2 * remainder < step || (2 * remainder == step && quotient % 2 == 0) {
        quotient
    } else {
        quotient + 1
    }
}

fn scaled_text(size: u64, scale: u64, unit: &str) -> (text: String)
    requires
        1024 <= scale,
    ensures
        text@ == scaled(size as nat, scale as nat, unit@),
{
    let step: u64 = find_double_step(size);
    let count: u128 = round_quotient(size as u128, step as u128);
    assert(count <= size / step + 1);
    assert(count * step <= size + step) by (nonlinear_arith)
        requires
            count <= size / step + 1,
            1 <= step <= 4096,
            0 <= size,
    ;
    let tenths: u128 = round_quotient(10 * (count * step as u128), scale as u128);
    assert(tenths < 0x1_0000_0000_0000_0000) by (nonlinear_arith)
        requires
            tenths <= (10 * (count * step)) / (scale as int) + 1,
            count * step <= size + step,
            step <= 4096,
            size <= u64::MAX,
            1024 <= scale,
    ;
    let mut text: String = text::decimal_text((tenths / 10) as u64);
    text.append(".");
    text.append(text::decimal_text((tenths % 10) as u64).as_str());
    text.append(unit);
    text
}

/// Writes a byte count with its unit.
pub fn format_size(size: u64) -> (text: String)
    ensures
        text@ == size_text(size as nat),
{
    if size < 1024 {
        let mut text: String = text::decimal_text(size);
        text.append(" B");
        text
    } else if size < 1024 * 1024 {
        scaled_text(size, 1024, " KB")
    } else if size < 1024 * 1024 * 1024 {
        scaled_text(size, 1024 * 1024, " MB")
    } else if size < 1024 * 1024 * 1024 * 1024 {
        scaled_text(size, 1024 * 1024 * 1024, " GB")
    } else {
        scaled_text(size, 1024 * 1024 * 1024 * 1024, " TB")
    }
}

/// Below 2^53 bytes nothing is lost before the rounding to tenths.
pub proof fn law_small_sizes_are_exact(size: nat)
    requires
        size < 0x20_0000_0000_0000,
    ensures
        nearest_double(size) == size,
{
    assert(size / 1 == size && size % 1 == 0);
    assert(rounded_quotient(size, 1) * 1 == size) by (nonlinear_arith)
        requires
            rounded_quotient(size, 1) == size,
    ;
}

/// Rounding goes to the nearest multiple, and from the middle between two to the
/// even one.
pub proof fn law_rounding_is_to_the_nearest(n: nat, step: nat)
    requires
        step > 0,
    ensures
        2 * n <= 2 * (rounded_quotient(n, step) * step) + step,
        2 * (rounded_quotient(n, step) * step) <= 2 * n + step,
        2 * n == 2 * (rounded_quotient(n, step) * step) + step || 2 * (rounded_quotient(n, step)
            * step) == 2 * n + step ==> rounded_quotient(n, step) % 2 == 0,
{
    let quotient = n / step;
    let remainder = n % step;
    assert(n == step * quotient + remainder && remainder < step) by (nonlinear_arith)
        requires
            step > 0,
            quotient == n / step,
            remainder == n % step,
    ;
    assert(step * quotient == quotient * step) by (nonlinear_arith);
    assert((quotient + 1) * step == quotient * step + step) by (nonlinear_arith);
}

/// The distance between neighbouring doubles is a power of two that leaves 53
/// significant bits.
pub proof fn law_doubles_have_53_bits(n: nat)
    ensures
        n < 0x20_0000_0000_0000 ==> double_step(n) == 1,
        n >= 0x20_0000_0000_0000 ==> double_step(n) * 0x10_0000_0000_0000 <= n < double_step(n)
            * 0x20_0000_0000_0000,
        exists|bits: nat| double_step(n) == #[trigger] pow2(bits),
    decreases n,
{
    if n < 0x20_0000_0000_0000 {
        lemma2_to64();
        assert(double_step(n) == pow2(0));
    } else {
        law_doubles_have_53_bits(n / 2);
        let bits = choose|bits: nat| double_step(n / 2) == #[trigger] pow2(bits);
        lemma_pow2_unfold(bits + 1);
        assert(double_step(n) == pow2(bits + 1));
    }
}

/// The nearest double is a multiple of the distance, at most half of it away.
pub proof fn law_nearest_double_is_near(n: nat)
    ensures
        exists|count: nat|
            nearest_double(n) == #[trigger] (count * double_step(n)) && (2 * n == 2 * (count
                * double_step(n)) + double_step(n) || 2 * (count * double_step(n)) == 2 * n
                + double_step(n) ==> count % 2 == 0),
        2 * n <= 2 * nearest_double(n) + double_step(n),
        2 * nearest_double(n) <= 2 * n + double_step(n),
{
    lemma_step_bound(n);
    law_rounding_is_to_the_nearest(n, double_step(n));
    let count = rounded_quotient(n, double_step(n));
    assert(nearest_double(n) == count * double_step(n));
}

/// Whether sizes from `scale` bytes on are shown in `unit`s, and how far.
pub open spec fn is_unit_for(size: nat, scale: nat, unit: Seq<char>) -> bool {
    ||| scale == 1024 && unit == " KB"@ && 1024 <= size < 1_048_576
    ||| scale == 1_048_576 && unit == " MB"@ && 1_048_576 <= size < 1_073_741_824
    ||| scale == 1_073_741_824 && unit == " GB"@ && 1_073_741_824 <= size < 1_099_511_627_776
    ||| scale == 1_099_511_627_776 && unit == " TB"@ && 1_099_511_627_776 <= size
}

/// Below 1024 bytes are counted. Above, the size is shown in the largest unit
/// that it holds, rounded to the nearest tenth, and from the middle between two
/// tenths to the even one.
pub proof fn law_sizes_are_rounded_to_tenths(size: nat, scale: nat, unit: Seq<char>)
    ensures
        size < 1024 ==> size_text(size) == text::decimal(size) + " B"@,
        is_unit_for(size, scale, unit) ==> exists|whole: nat, tenth: nat|
            tenth < 10 && size_text(size) == #[trigger] text::decimal(whole) + "."@
                + #[trigger] text::decimal(tenth) + unit && 2 * (10 * nearest_double(size)) <= 2 * ((
            10 * whole + tenth) * scale) + scale && 2 * ((10 * whole + tenth) * scale) <= 2 * (10
                * nearest_double(size)) + scale && (2 * (10 * nearest_double(size)) == 2 * ((10
                * whole + tenth) * scale) + scale || 2 * ((10 * whole + tenth) * scale) == 2 * (10
                * nearest_double(size)) + scale ==> (10 * whole + tenth) % 2 == 0),
{
    if is_unit_for(size, scale, unit) {
        let tenths = tenths_of(size, scale);
        law_rounding_is_to_the_nearest(10 * nearest_double(size), scale);
        assert(10 * (tenths / 10) + tenths % 10 == tenths);
        assert(size_text(size) == text::decimal(tenths / 10) + "."@ + text::decimal(tenths % 10)
            + unit);
    }
}

} // verus!
