//! Sizes in bytes, as they are shown.

use crate::scale::{lemma_round_even_bounds, lemma_small_is_exact, round_53, round_even, to_double};
use crate::text::{decimal, push_decimal};
use vstd::prelude::*;

verus! {

/// 1024 to the power of `unit`.
pub open spec fn unit_bytes(unit: nat) -> nat
    decreases unit,
{
    if unit == 0 {
        1
    } else {
        1024 * unit_bytes((unit - 1) as nat)
    }
}

/// The largest unit, from `unit` on, of which there is at least one.
pub open spec fn unit_of(size: nat, unit: nat) -> nat
    decreases 4 - unit,
{
    if unit < 4 && size >= unit_bytes(unit + 1) {
        unit_of(size, unit + 1)
    } else {
        unit
    }
}

/// The name of a unit.
pub open spec fn unit_name(unit: nat) -> Seq<char> {
    if unit == 0 {
        "B"@
    } else if unit == 1 {
        "KB"@
    } else if unit == 2 {
        "MB"@
    } else if unit == 3 {
        "GB"@
    } else {
        "TB"@
    }
}

/// A size in its largest unit, with one digit behind the point; the size is
/// first rounded as a double is, and ties go to the even digit.
pub open spec fn size_text(bytes: u64) -> Seq<char> {
    let size = round_53(bytes as nat);
    let unit = unit_of(size, 0);
    let tenths = round_even(10 * size, unit_bytes(unit));
    decimal(tenths / 10) + "."@ + decimal(tenths % 10) + " "@ + unit_name(unit)
}

proof fn lemma_unit_bytes()
    ensures
        unit_bytes(0) == 1,
        unit_bytes(1) == 0x400,
        unit_bytes(2) == 0x10_0000,
        unit_bytes(3) == 0x4000_0000,
        unit_bytes(4) == 0x100_0000_0000,
{
    reveal_with_fuel(unit_bytes, 5);
}

/// A size in its largest unit, with one digit behind the point.
pub fn human_size(bytes: u64) -> (res: String)
    ensures
        res@ == size_text(bytes),
{
    let size: u128 = to_double(bytes);
    let mut unit: usize = 0;
    let mut scale: u128 = 1;
    proof {
        lemma_unit_bytes();
    }
    while unit < 4 && size >= 1024 * scale
        invariant
            unit <= 4,
            scale == unit_bytes(unit as nat),
            1 <= scale <= 0x100_0000_0000,
            unit_bytes(1) == 0x400,
            unit_bytes(2) == 0x10_0000,
            unit_bytes(3) == 0x4000_0000,
            unit_bytes(4) == 0x100_0000_0000,
            unit_of(size as nat, 0) == unit_of(size as nat, unit as nat),
        decreases 4 - unit,
    {
        scale = 1024 * scale;
        unit = unit + 1;
    }
    let ten: u128 = 10 * size;
    let whole: u128 = ten / scale;
    let rest: u128 = ten % scale;
    proof {
        assert(whole <= ten) by (nonlinear_arith)
            requires
                whole == ten / scale,
                scale >= 1,
        ;
        assert(size / scale < 0x1_0000_0000_0000) by {
            if unit < 4 {
                assert(size / scale < 1024) by (nonlinear_arith)
                    requires
                        size < 1024 * scale,
                        scale >= 1,
                ;
            } else {
                assert(size / scale < 0x1_0000_0000_0000) by (nonlinear_arith)
                    requires
                        size <= 0x2_0000_0000_0000_0000,
                        scale == 0x100_0000_0000,
                ;
            }
        }
        assert(whole <= 10 * (size / scale) + 10) by (nonlinear_arith)
            requires
                whole == ten / scale,
                ten == 10 * size,
                scale >= 1,
        ;
    }
    let tenths: u128 = if 2 * rest < scale || (2 * rest == scale && whole % 2 == 0) {
        whole
    } else {
        whole + 1
    };
    let mut out = String::new();
    push_decimal(&mut out, (tenths / 10) as u64);
    out.append(".");
    push_decimal(&mut out, (tenths % 10) as u64);
    out.append(" ");
    match unit {
        0 => out.append("B"),
        1 => out.append("KB"),
        2 => out.append("MB"),
        3 => out.append("GB"),
        _ => out.append("TB"),
    }
    proof {
        assert(tenths == round_even(10 * size as nat, scale as nat));
        assert(out@ =~= size_text(bytes));
    }
    out
}

proof fn lemma_unit_of(size: nat, unit: nat)
    requires
        unit <= 4,
        unit > 0 ==> size >= unit_bytes(unit),
    ensures
        ({
            let u = unit_of(size, unit);
            &&& unit <= u <= 4
            &&& u > 0 ==> size >= unit_bytes(u)
            &&& u < 4 ==> size < unit_bytes(u + 1)
        }),
    decreases 4 - unit,
{
    if unit < 4 && size >= unit_bytes(unit + 1) {
        lemma_unit_of(size, unit + 1);
    }
}

/// The unit that a size is shown in, and how many tenths of it.
pub proof fn lemma_size_units(bytes: u64) -> (res: (nat, nat))
    requires
        bytes < 0x20_0000_0000_0000,
    ensures
        ({
            let (unit, tenths) = res;
            let scale = unit_bytes(unit) as int;
            &&& unit <= 4
            &&& unit > 0 ==> bytes >= scale
            &&& unit < 4 ==> bytes < 1024 * scale
            &&& -scale <= 2 * (10 * bytes - tenths * scale) <= scale
            &&& size_text(bytes) == decimal(tenths / 10) + "."@ + decimal(tenths % 10) + " "@
                + unit_name(unit)
        }),
{
    let size = bytes as nat;
    lemma_small_is_exact(size);
    lemma_unit_of(size, 0);
    lemma_unit_bytes();
    let unit = unit_of(size, 0);
    let scale = unit_bytes(unit);
    let tenths = round_even(10 * size, scale);
    assert(scale > 0) by {
        reveal_with_fuel(unit_bytes, 5);
    }
    lemma_round_even_bounds(10 * size, scale);
    (unit, tenths)
}

} // verus!
