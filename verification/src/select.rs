//! Bit-selects and part-selects of a vector reg (LRM 4.2.1, 5.2.1, 5.2.2):
//! how a source index written against the reg's declared range `[msb:lsb]`
//! finds a bit of the stored vector, and the bits a select yields once its
//! indices are known. Out-of-range positions read as `x`.
use crate::ast::LogicBit;
use crate::bignum::{
    abs, bigint_add, bigint_decimal, bigint_from_usize, bigint_neg, bigint_signum, bigint_small,
    bigint_sub, bigint_to_usize, bigint_value, int_decimal,
};
use crate::text::{append_str, owned};
use crate::value::{has_unknown, int_value, IntegerValue};
use num_bigint::BigInt;
use vstd::prelude::*;

verus! {

/// The declared range `[msb:lsb]` of a vector reg; either end may be the larger.
#[derive(Debug)]
pub struct RegRange {
    pub msb: BigInt,
    pub lsb: BigInt,
}

/// Where source index `src` sits in the stored vector of a reg declared
/// `[msb:lsb]`: `|src - lsb|` when `src` lies between the two ends (and that
/// distance fits a `usize`), nothing otherwise.
pub open spec fn reg_index(msb: int, lsb: int, src: int) -> Option<nat> {
    let lo = if msb >= lsb {
        lsb
    } else {
        msb
    };
    let hi = if msb >= lsb {
        msb
    } else {
        lsb
    };
    if src < lo || src > hi || abs(src - lsb) > usize::MAX {
        None
    } else {
        Some(abs(src - lsb))
    }
}

/// The bit a source index reads from `bits`: the stored bit, or `x` when the
/// index is out of range.
pub open spec fn bit_at(bits: Seq<LogicBit>, msb: int, lsb: int, src: int) -> LogicBit {
    match reg_index(msb, lsb, src) {
        Some(i) => bits[i as int],
        None => LogicBit::X,
    }
}

/// A reg's stored vector has one bit per index of its declared range.
pub open spec fn fits_range(bits: Seq<LogicBit>, msb: int, lsb: int) -> bool {
    bits.len() == abs(msb - lsb) + 1
}

/// `a <= b` on the numbers two `BigInt`s hold.
fn bigint_le(a: &BigInt, b: &BigInt) -> (r: bool)
    ensures
        r == (bigint_value(*a) <= bigint_value(*b)),
{
    bigint_signum(&bigint_sub(a, b)) <= 0
}

/// The position in the stored vector that source index `src` addresses.
pub fn resolve_reg_index(range: &RegRange, src: &BigInt) -> (r: Option<usize>)
    ensures
        r == (match reg_index(bigint_value(range.msb), bigint_value(range.lsb), bigint_value(*src)) {
            Some(i) => Some(i as usize),
            None => None::<usize>,
        }),
{
    let forward = bigint_le(&range.lsb, &range.msb);
    let (lo, hi) = if forward {
        (&range.lsb, &range.msb)
    } else {
        (&range.msb, &range.lsb)
    };
    if !bigint_le(lo, src) || !bigint_le(src, hi) {
        return None;
    }
    let d = bigint_sub(src, &range.lsb);
    let distance = if bigint_signum(&d) < 0 {
        bigint_neg(&d)
    } else {
        d
    };
    bigint_to_usize(&distance)
}

/// The bit at source index `src`, `x` when out of range.
fn pick(bits: &Vec<LogicBit>, range: &RegRange, src: &BigInt) -> (r: LogicBit)
    requires
        fits_range(bits@, bigint_value(range.msb), bigint_value(range.lsb)),
    ensures
        r == bit_at(bits@, bigint_value(range.msb), bigint_value(range.lsb), bigint_value(*src)),
{
    match resolve_reg_index(range, src) {
        Some(i) => bits[i],
        None => LogicBit::X,
    }
}

/// The one bit of `value[index]` once the index is evaluated: `x` when the
/// index has an `x` or `z` bit (it is read by its own signedness) or is out of range.
pub fn bit_select(value: &IntegerValue, range: &RegRange, index: &IntegerValue) -> (r: LogicBit)
    requires
        fits_range(value.bits@, bigint_value(range.msb), bigint_value(range.lsb)),
    ensures
        r == (if has_unknown(index.bits@) {
            LogicBit::X
        } else {
            bit_at(
                value.bits@,
                bigint_value(range.msb),
                bigint_value(range.lsb),
                int_value(index.bits@, index.signed),
            )
        }),
{
    if index.has_unknown_bits() {
        return LogicBit::X;
    }
    let src = index.as_bigint(index.signed);
    pick(&value.bits, range, &src)
}

/// The `width` bits of the part-select from source index `lsb_sel` toward
/// `msb_sel`, least significant first: position `k` reads source index
/// `lsb_sel + k` (or `lsb_sel - k` when `msb_sel < lsb_sel`).
pub open spec fn part_select_bits(
    bits: Seq<LogicBit>,
    msb: int,
    lsb: int,
    msb_sel: int,
    lsb_sel: int,
    width: nat,
) -> Seq<LogicBit> {
    Seq::new(
        width,
        |k: int|
            bit_at(
                bits,
                msb,
                lsb,
                if msb_sel >= lsb_sel {
                    lsb_sel + k
                } else {
                    lsb_sel - k
                },
            ),
    )
}

/// The bits of a part-select whose two source indices are known.
pub fn materialize_part_select(
    value: &IntegerValue,
    range: &RegRange,
    msb_sel: &BigInt,
    lsb_sel: &BigInt,
    width: usize,
) -> (r: Vec<LogicBit>)
    requires
        fits_range(value.bits@, bigint_value(range.msb), bigint_value(range.lsb)),
    ensures
        r@ == part_select_bits(
            value.bits@,
            bigint_value(range.msb),
            bigint_value(range.lsb),
            bigint_value(*msb_sel),
            bigint_value(*lsb_sel),
            width as nat,
        ),
{
    let up = bigint_le(lsb_sel, msb_sel);
    let one = bigint_small(1);
    let mut out: Vec<LogicBit> = Vec::new();
    let mut src = bigint_add(lsb_sel, &bigint_small(0));
    let mut k: usize = 0;
    while k < width
        invariant
            k <= width,
            out@.len() == k,
            fits_range(value.bits@, bigint_value(range.msb), bigint_value(range.lsb)),
            up == (bigint_value(*msb_sel) >= bigint_value(*lsb_sel)),
            bigint_value(one) == 1,
            bigint_value(src) == (if up {
                bigint_value(*lsb_sel) + k
            } else {
                bigint_value(*lsb_sel) - k
            }),
            forall|j: int|
                0 <= j < k ==> #[trigger] out@[j] == part_select_bits(
                    value.bits@,
                    bigint_value(range.msb),
                    bigint_value(range.lsb),
                    bigint_value(*msb_sel),
                    bigint_value(*lsb_sel),
                    width as nat,
                )[j],
        decreases width - k,
    {
        out.push(pick(&value.bits, range, &src));
        src = if up {
            bigint_add(&src, &one)
        } else {
            bigint_sub(&src, &one)
        };
        k = k + 1;
    }
    assert(out@ =~= part_select_bits(
        value.bits@,
        bigint_value(range.msb),
        bigint_value(range.lsb),
        bigint_value(*msb_sel),
        bigint_value(*lsb_sel),
        width as nat,
    ));
    out
}

/// The two source indices of an indexed part-select `[base +: width]` (or
/// `-:` when `!is_up`): the span `[base, base + width - 1]` (or
/// `[base - width + 1, base]`), its more significant end chosen by the
/// declared direction.
pub open spec fn indexed_bounds(msb: int, lsb: int, base: int, width: nat, is_up: bool) -> (int, int) {
    let lo = if is_up {
        base
    } else {
        base - (width - 1)
    };
    let hi = if is_up {
        base + (width - 1)
    } else {
        base
    };
    if msb < lsb {
        (lo, hi)
    } else {
        (hi, lo)
    }
}

/// The `(msb, lsb)` source indices of an indexed part-select of `width`
/// (at least one) bits from `base`.
pub fn indexed_select_bounds(range: &RegRange, base: &BigInt, width: usize, is_up: bool) -> (r: (
    BigInt,
    BigInt,
))
    requires
        width >= 1,
    ensures
        (bigint_value(r.0), bigint_value(r.1)) == indexed_bounds(
            bigint_value(range.msb),
            bigint_value(range.lsb),
            bigint_value(*base),
            width as nat,
            is_up,
        ),
{
    let span = bigint_from_usize(width - 1);
    let (lo, hi) = if is_up {
        (bigint_add(base, &bigint_small(0)), bigint_add(base, &span))
    } else {
        (bigint_sub(base, &span), bigint_add(base, &bigint_small(0)))
    };
    if !bigint_le(&range.lsb, &range.msb) {
        (lo, hi)
    } else {
        (hi, lo)
    }
}

/// A part-select `[msb_sel:lsb_sel]` must run the way its reg was declared
/// (LRM 5.2.1): its first index is the more significant one.
pub open spec fn direction_matches(msb: int, lsb: int, msb_sel: int, lsb_sel: int) -> bool {
    if msb >= lsb {
        msb_sel >= lsb_sel
    } else {
        msb_sel <= lsb_sel
    }
}

pub open spec fn direction_error(msb: int, lsb: int, msb_sel: int, lsb_sel: int) -> Seq<char> {
    "part-select direction does not match reg declaration: reg is ["@ + int_decimal(msb) + ":"@
        + int_decimal(lsb) + "], select is ["@ + int_decimal(msb_sel) + ":"@ + int_decimal(
        lsb_sel,
    ) + "]"@
}

/// Refuses a part-select that runs against its reg's declared direction.
pub fn check_part_select_direction(range: &RegRange, msb_sel: &BigInt, lsb_sel: &BigInt) -> (r:
    Result<(), String>)
    ensures
        direction_matches(
            bigint_value(range.msb),
            bigint_value(range.lsb),
            bigint_value(*msb_sel),
            bigint_value(*lsb_sel),
        ) ==> r is Ok,
        !direction_matches(
            bigint_value(range.msb),
            bigint_value(range.lsb),
            bigint_value(*msb_sel),
            bigint_value(*lsb_sel),
        ) ==> (r matches Err(m) && m@ == direction_error(
            bigint_value(range.msb),
            bigint_value(range.lsb),
            bigint_value(*msb_sel),
            bigint_value(*lsb_sel),
        )),
{
    let forward = bigint_le(&range.lsb, &range.msb);
    let ok = if forward {
        bigint_le(lsb_sel, msb_sel)
    } else {
        bigint_le(msb_sel, lsb_sel)
    };
    if ok {
        return Ok(());
    }
    let mut m = owned("part-select direction does not match reg declaration: reg is [");
    append_str(&mut m, bigint_decimal(&range.msb).as_str());
    append_str(&mut m, ":");
    append_str(&mut m, bigint_decimal(&range.lsb).as_str());
    append_str(&mut m, "], select is [");
    append_str(&mut m, bigint_decimal(msb_sel).as_str());
    append_str(&mut m, ":");
    append_str(&mut m, bigint_decimal(lsb_sel).as_str());
    append_str(&mut m, "]");
    Err(m)
}

/// The stored-vector position of each bit of a part-select, least
/// significant first (`None` where its source index is out of range).
pub open spec fn select_positions(msb: int, lsb: int, msb_sel: int, lsb_sel: int, width: nat) -> Seq<
    Option<nat>,
> {
    Seq::new(
        width,
        |k: int|
            reg_index(
                msb,
                lsb,
                if msb_sel >= lsb_sel {
                    lsb_sel + k
                } else {
                    lsb_sel - k
                },
            ),
    )
}

pub open spec fn positions_view(p: Seq<Option<usize>>) -> Seq<Option<nat>> {
    Seq::new(
        p.len(),
        |k: int|
            match p[k] {
                Some(i) => Some(i as nat),
                None => None::<nat>,
            },
    )
}

/// Where the bits of the part-select `[msb_sel:lsb_sel]` of `width` bits
/// land in the stored vector, for distributing an assigned value.
pub fn per_position_indices(range: &RegRange, msb_sel: &BigInt, lsb_sel: &BigInt, width: usize) -> (r:
    Vec<Option<usize>>)
    ensures
        positions_view(r@) == select_positions(
            bigint_value(range.msb),
            bigint_value(range.lsb),
            bigint_value(*msb_sel),
            bigint_value(*lsb_sel),
            width as nat,
        ),
{
    let up = bigint_le(lsb_sel, msb_sel);
    let one = bigint_small(1);
    let mut out: Vec<Option<usize>> = Vec::new();
    let mut src = bigint_add(lsb_sel, &bigint_small(0));
    let mut k: usize = 0;
    while k < width
        invariant
            k <= width,
            out@.len() == k,
            up == (bigint_value(*msb_sel) >= bigint_value(*lsb_sel)),
            bigint_value(one) == 1,
            bigint_value(src) == (if up {
                bigint_value(*lsb_sel) + k
            } else {
                bigint_value(*lsb_sel) - k
            }),
            forall|j: int|
                0 <= j < k ==> #[trigger] positions_view(out@)[j] == select_positions(
                    bigint_value(range.msb),
                    bigint_value(range.lsb),
                    bigint_value(*msb_sel),
                    bigint_value(*lsb_sel),
                    width as nat,
                )[j],
        decreases width - k,
    {
        let ghost before = out@;
        out.push(resolve_reg_index(range, &src));
        proof {
            assert forall|j: int| 0 <= j < k + 1 implies #[trigger] positions_view(out@)[j]
                == select_positions(
                bigint_value(range.msb),
                bigint_value(range.lsb),
                bigint_value(*msb_sel),
                bigint_value(*lsb_sel),
                width as nat,
            )[j] by {
                if j < k {
                    assert(positions_view(out@)[j] == positions_view(before)[j]);
                }
            }
        }
        src = if up {
            bigint_add(&src, &one)
        } else {
            bigint_sub(&src, &one)
        };
        k = k + 1;
    }
    assert(positions_view(out@) =~= select_positions(
        bigint_value(range.msb),
        bigint_value(range.lsb),
        bigint_value(*msb_sel),
        bigint_value(*lsb_sel),
        width as nat,
    ));
    out
}

/// `bits` after writing `rhs[cursor + j]` to position `positions[j]` for
/// each `j < k` in turn (skipping `None`): a later write to the same
/// position wins.
pub open spec fn written(
    bits: Seq<LogicBit>,
    positions: Seq<Option<nat>>,
    rhs: Seq<LogicBit>,
    cursor: int,
    k: nat,
) -> Seq<LogicBit>
    decreases k,
{
    if k == 0 {
        bits
    } else {
        let before = written(bits, positions, rhs, cursor, (k - 1) as nat);
        match positions[k - 1] {
            Some(i) => before.update(i as int, rhs[cursor + k - 1]),
            None => before,
        }
    }
}

proof fn lemma_written_len(
    bits: Seq<LogicBit>,
    positions: Seq<Option<nat>>,
    rhs: Seq<LogicBit>,
    cursor: int,
    k: nat,
)
    requires
        k <= positions.len(),
        forall|j: int| 0 <= j < positions.len() ==> (#[trigger] positions[j] matches Some(i) ==> i
            < bits.len()),
    ensures
        written(bits, positions, rhs, cursor, k).len() == bits.len(),
    decreases k,
{
    if k > 0 {
        lemma_written_len(bits, positions, rhs, cursor, (k - 1) as nat);
    }
}

/// Writes the assigned bits `rhs[cursor..]` to the positions of one
/// target, one bit per position, and returns the cursor past them.
pub fn write_positions(
    bits: &mut Vec<LogicBit>,
    positions: &[Option<usize>],
    rhs: &[LogicBit],
    cursor: usize,
) -> (r: usize)
    requires
        cursor + positions@.len() <= rhs@.len(),
        forall|j: int|
            0 <= j < positions@.len() ==> (#[trigger] positions@[j] matches Some(i) ==> i
                < old(bits)@.len()),
    ensures
        r == cursor + positions@.len(),
        final(bits)@ == written(
            old(bits)@,
            positions_view(positions@),
            rhs@,
            cursor as int,
            positions@.len(),
        ),
{
    let rl = rhs.len();
    let mut k: usize = 0;
    while k < positions.len()
        invariant
            k <= positions@.len(),
            rl == rhs@.len(),
            cursor + positions@.len() <= rhs@.len(),
            forall|j: int|
                0 <= j < positions@.len() ==> (#[trigger] positions@[j] matches Some(i) ==> i
                    < old(bits)@.len()),
            bits@ == written(old(bits)@, positions_view(positions@), rhs@, cursor as int, k as nat),
        decreases positions@.len() - k,
    {
        proof {
            assert forall|j: int| 0 <= j < positions@.len() implies (#[trigger] positions_view(
                positions@,
            )[j] matches Some(i) ==> i < old(bits)@.len()) by {
                assert(positions@[j] matches Some(i) ==> i < old(bits)@.len());
            }
            lemma_written_len(old(bits)@, positions_view(positions@), rhs@, cursor as int, k as nat);
        }
        match positions[k] {
            Some(i) => {
                bits.set(i, rhs[cursor + k]);
            },
            None => {},
        }
        k = k + 1;
    }
    cursor + positions.len()
}

proof fn lemma_written_at(
    bits: Seq<LogicBit>,
    positions: Seq<Option<nat>>,
    rhs: Seq<LogicBit>,
    cursor: int,
    n: nat,
    k: int,
)
    requires
        0 <= k < n <= positions.len(),
        positions[k] is Some,
        forall|j: int| 0 <= j < positions.len() ==> (#[trigger] positions[j] matches Some(i) ==> i
            < bits.len()),
        forall|j: int| k < j < n ==> #[trigger] positions[j] != positions[k],
    ensures
        written(bits, positions, rhs, cursor, n)[positions[k]->0 as int] == rhs[cursor + k],
    decreases n,
{
    lemma_written_len(bits, positions, rhs, cursor, (n - 1) as nat);
    if n - 1 > k {
        lemma_written_at(bits, positions, rhs, cursor, (n - 1) as nat, k);
    }
}

/// Assigning to a part-select and then reading the same part-select gives
/// back the assigned bits at every position that lies inside the reg, and
/// `x` at the positions outside it.
pub proof fn lemma_part_select_read_after_write(
    bits: Seq<LogicBit>,
    msb: int,
    lsb: int,
    msb_sel: int,
    lsb_sel: int,
    width: nat,
    rhs: Seq<LogicBit>,
    cursor: int,
)
    requires
        fits_range(bits, msb, lsb),
        0 <= cursor,
        cursor + width <= rhs.len(),
    ensures
        forall|k: int|
            0 <= k < width ==> #[trigger] part_select_bits(
                written(bits, select_positions(msb, lsb, msb_sel, lsb_sel, width), rhs, cursor, width),
                msb,
                lsb,
                msb_sel,
                lsb_sel,
                width,
            )[k] == (if select_positions(msb, lsb, msb_sel, lsb_sel, width)[k] is Some {
                rhs[cursor + k]
            } else {
                LogicBit::X
            }),
{
    let p = select_positions(msb, lsb, msb_sel, lsb_sel, width);
    let w = written(bits, p, rhs, cursor, width);
    assert forall|j: int| 0 <= j < p.len() implies (#[trigger] p[j] matches Some(i) ==> i
        < bits.len()) by {}
    assert forall|k: int| 0 <= k < width implies #[trigger] part_select_bits(
        w,
        msb,
        lsb,
        msb_sel,
        lsb_sel,
        width,
    )[k] == (if p[k] is Some {
        rhs[cursor + k]
    } else {
        LogicBit::X
    }) by {
        if p[k] is Some {
            assert forall|j: int| k < j < width implies #[trigger] p[j] != p[k] by {}
            lemma_written_at(bits, p, rhs, cursor, width, k);
        }
    }
}

} // verus!
