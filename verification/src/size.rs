//! Human-readable byte counts.
use vstd::prelude::*;

use vstd::arithmetic::power::pow;

use crate::text::{decimal, push_decimal};

verus! {

/// The divisor of the unit with index `k`: bytes, KB, MB, GB, TB.
pub open spec fn unit_divisor(k: nat) -> nat {
    if k == 0 {
        1
    } else if k == 1 {
        1000
    } else if k == 2 {
        1000000
    } else if k == 3 {
        1000000000
    } else {
        1000000000000
    }
}

/// The name of the unit with index `k`.
pub open spec fn unit_name(k: nat) -> Seq<char> {
    if k == 0 {
        "bytes"@
    } else if k == 1 {
        "KB"@
    } else if k == 2 {
        "MB"@
    } else if k == 3 {
        "GB"@
    } else {
        "TB"@
    }
}

/// The index of the largest of the five units in which `bytes` still
/// counts more than ten; the first unit, bytes, when none does.
pub open spec fn unit_index(bytes: nat) -> nat {
    if bytes / unit_divisor(4) > 10 {
        4
    } else if bytes / unit_divisor(3) > 10 {
        3
    } else if bytes / unit_divisor(2) > 10 {
        2
    } else if bytes / unit_divisor(1) > 10 {
        1
    } else {
        0
    }
}

/// The text that [`humanize_bytes`] gives for `bytes`: the count in the
/// chosen unit, rounded down, a space and the unit's name.
pub open spec fn humanized(bytes: nat) -> Seq<char> {
    decimal(bytes / unit_divisor(unit_index(bytes))) + seq![' '] + unit_name(unit_index(bytes))
}

/// A byte count in the largest unit in which it is still more than ten,
/// such as `11 KB` for 11000 bytes and `10999 bytes` for 10999.
pub fn humanize_bytes(bytes: u64) -> (s: String)
    ensures
        s@ == humanized(bytes as nat),
        exists|k: nat|
            k <= 4 && s@ == decimal(count_in(bytes as nat, k) as nat) + seq![' '] + unit_name(k)
                && (k > 0 ==> count_in(bytes as nat, k) > 10) && (k < 4 ==> count_in(
                bytes as nat,
                k + 1,
            ) <= 10),
{
    proof {
        lemma_humanized_choice(bytes as nat);
    }
    let (divisor, k): (u64, u8) = if bytes / 1000000000000 > 10 {
        (1000000000000, 4)
    } else if bytes / 1000000000 > 10 {
        (1000000000, 3)
    } else if bytes / 1000000 > 10 {
        (1000000, 2)
    } else if bytes / 1000 > 10 {
        (1000, 1)
    } else {
        (1, 0)
    };
    assert(k == unit_index(bytes as nat) && divisor == unit_divisor(k as nat));
    let mut s = String::new();
    push_decimal(&mut s, bytes / divisor);
    s.push(' ');
    if k == 0 {
        s.append("bytes");
    } else if k == 1 {
        s.append("KB");
    } else if k == 2 {
        s.append("MB");
    } else if k == 3 {
        s.append("GB");
    } else {
        s.append("TB");
    }
    assert(s@ =~= humanized(bytes as nat));
    s
}

/// The count of `bytes` in the unit of `1000^k` bytes, rounded down.
pub open spec fn count_in(bytes: nat, k: nat) -> int {
    bytes as int / pow(1000, k)
}

/// The powers of a thousand that divide into the five units.
proof fn lemma_unit_divisors()
    ensures
        forall|k: nat| k <= 4 ==> #[trigger] pow(1000, k) == unit_divisor(k),
{
    reveal_with_fuel(pow, 5);
    assert(pow(1000, 0) == 1);
    assert(pow(1000, 1) == 1000);
    assert(pow(1000, 2) == 1000000);
    assert(pow(1000, 3) == 1000000000);
    assert(pow(1000, 4) == 1000000000000);
}

/// How a byte count is written: in the unit `k` (bytes, KB, MB, GB, TB,
/// each a thousand times the one before) whose count is more than ten,
/// unless it is bytes, while the next unit's count would be ten or less,
/// unless there is none; the count is rounded down.
pub proof fn lemma_humanized_choice(bytes: nat)
    ensures
        exists|k: nat|
            k <= 4 && humanized(bytes) == decimal(count_in(bytes, k) as nat) + seq![' ']
                + unit_name(k) && (k > 0 ==> count_in(bytes, k) > 10) && (k < 4 ==> count_in(
                bytes,
                k + 1,
            ) <= 10),
{
    lemma_unit_divisors();
    let k = unit_index(bytes);
    assert(pow(1000, k) == unit_divisor(k));
    assert(k < 4 ==> pow(1000, k + 1) == unit_divisor(k + 1));
    assert(k <= 4 && humanized(bytes) == decimal(count_in(bytes, k) as nat) + seq![' ']
        + unit_name(k) && (k > 0 ==> count_in(bytes, k) > 10) && (k < 4 ==> count_in(
        bytes,
        k + 1,
    ) <= 10));
}

} // verus!
