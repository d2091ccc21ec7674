//! The fixed-width record file: slots of one size, one record per slot.
//!
//! A slot holds a serialized document, filled up with spaces to the slot
//! size, and a newline behind it. Slot `i` starts at byte
//! `i * (slot size + 1)`.

use vstd::arithmetic::div_mod::{lemma_fundamental_div_mod, lemma_mod_bound};
use vstd::arithmetic::mul::lemma_mul_is_commutative;
use vstd::prelude::*;

verus! {

/// The byte that fills a slot behind its record.
pub const FILL: u8 = 32;

/// The byte that ends a slot.
pub const NEWLINE: u8 = 10;

/// Whether `size` is a multiple of `increment`.
pub open spec fn is_multiple_of(size: nat, increment: nat) -> bool
    recommends
        increment > 0,
{
    size % increment == 0
}

/// The number of whole increments that cover `length` bytes.
pub open spec fn units_for(length: nat, increment: nat) -> nat
    recommends
        increment > 0,
{
    if length % increment == 0 {
        length / increment
    } else {
        length / increment + 1
    }
}

/// The slot size after a record of `length` bytes has come in: the size as
/// it was while the record fits, else the smallest multiple of `increment`
/// that the record fits.
pub open spec fn grown_slot_size(current: nat, length: nat, increment: nat) -> nat
    recommends
        increment > 0,
{
    if length <= current {
        current
    } else {
        increment * units_for(length, increment)
    }
}

/// Whether a slot size can hold a record of `length` bytes, after growing
/// where it must: no size can grow where the increment is zero, and a slot
/// with its newline must not be longer than a buffer can be.
pub open spec fn can_grow(current: nat, length: nat, increment: nat) -> bool {
    (length <= current || increment > 0) && grown_slot_size(current, length, increment) < usize::MAX
}

/// Where slot `position` starts in a file of slots of size `slot`.
pub open spec fn slot_offset(position: nat, slot: nat) -> nat {
    position * (slot + 1)
}

/// Whether a file of `count` slots of size `slot` has a length that an
/// offset can express.
pub open spec fn fits_file(count: nat, slot: nat) -> bool {
    slot_offset(count, slot) <= u64::MAX
}

/// The bytes of a slot of size `slot` that holds `record`: the record, the
/// fill, the newline. A record longer than the slot is not cut.
pub open spec fn padded(record: Seq<u8>, slot: nat) -> Seq<u8> {
    if record.len() <= slot {
        record + Seq::new((slot - record.len()) as nat, |i: int| FILL) + seq![NEWLINE]
    } else {
        record + seq![NEWLINE]
    }
}

/// The grown slot size is the smallest multiple of the increment that is
/// not below the record's length.
pub proof fn lemma_grown_is_smallest_multiple(current: nat, length: nat, increment: nat)
    requires
        increment > 0,
        length > current,
    ensures
        is_multiple_of(grown_slot_size(current, length, increment), increment),
        grown_slot_size(current, length, increment) >= length,
        grown_slot_size(current, length, increment) < length + increment,
        forall|m: nat| #[trigger]
            is_multiple_of(m, increment) && m >= length ==> m >= grown_slot_size(current, length, increment),
{
    let q = length / increment;
    let r = length % increment;
    let g = grown_slot_size(current, length, increment);
    lemma_fundamental_div_mod(length as int, increment as int);
    lemma_mod_bound(length as int, increment as int);
    assert(length == increment * q + r);
    if r == 0 {
        assert(g == increment * q);
    } else {
        assert(g == increment * (q + 1));
        assert(increment * (q + 1) == increment * q + increment) by (nonlinear_arith);
    }
    assert(g % increment == 0) by (nonlinear_arith)
        requires
            increment > 0,
            g == increment * units_for(length, increment),
    ;
    assert forall|m: nat| #[trigger] is_multiple_of(m, increment) && m >= length implies m >= g by {
        let k = m / increment;
        lemma_fundamental_div_mod(m as int, increment as int);
        assert(m == increment * k);
        if m < g {
            assert(increment * k < increment * units_for(length, increment));
            assert(k < units_for(length, increment)) by (nonlinear_arith)
                requires
                    increment > 0,
                    increment * k < increment * units_for(length, increment),
            ;
            if r == 0 {
                assert(k <= q - 1);
                assert(increment * k <= increment * (q - 1)) by (nonlinear_arith)
                    requires
                        increment > 0,
                        k <= q - 1,
                ;
                assert(increment * (q - 1) == increment * q - increment) by (nonlinear_arith);
            } else {
                assert(k <= q);
                assert(increment * k <= increment * q) by (nonlinear_arith)
                    requires
                        increment > 0,
                        k <= q,
                ;
            }
            assert(false);
        }
    }
}

/// The slot size that a collection needs once a record of `length` bytes
/// has come in, or `None` where no slot size can hold the record.
pub fn slot_size_for(current: usize, length: usize, increment: usize) -> (size: Option<usize>)
    ensures
        size.is_some() == can_grow(current as nat, length as nat, increment as nat),
        size.is_some() ==> size.unwrap() == grown_slot_size(current as nat, length as nat, increment as nat),
        size.is_some() ==> length <= size.unwrap() < usize::MAX,
{
    if length <= current {
        return if current < usize::MAX {
            Some(current)
        } else {
            None
        };
    }
    if increment == 0 {
        return None;
    }
    let whole = length / increment;
    let units = if length % increment == 0 {
        whole
    } else {
        match whole.checked_add(1) {
            Some(units) => units,
            None => {
                proof {
                    lemma_grown_is_smallest_multiple(current as nat, length as nat, increment as nat);
                    assert(increment * (whole + 1) >= whole + 1) by (nonlinear_arith)
                        requires
                            increment > 0,
                            whole >= 0,
                    ;
                }
                return None;
            },
        }
    };
    proof {
        lemma_grown_is_smallest_multiple(current as nat, length as nat, increment as nat);
        lemma_mul_is_commutative(units as int, increment as int);
    }
    match units.checked_mul(increment) {
        Some(size) => if size < usize::MAX {
            Some(size)
        } else {
            None
        },
        None => None,
    }
}

/// The offset of slot `position` in a file of slots of size `slot`, or
/// `None` where it is beyond what an offset can express.
pub fn offset_of_slot(position: u64, slot: usize) -> (offset: Option<u64>)
    ensures
        offset.is_some() == (slot_offset(position as nat, slot as nat) <= u64::MAX),
        offset.is_some() ==> offset.unwrap() == slot_offset(position as nat, slot as nat),
{
    if position == 0 {
        assert(0 * (slot + 1) == 0) by (nonlinear_arith);
        return Some(0);
    }
    match (slot as u64).checked_add(1) {
        Some(width) => position.checked_mul(width),
        None => {
            assert(position * (slot + 1) >= slot + 1) by (nonlinear_arith)
                requires
                    position >= 1,
                    slot >= 0,
            ;
            None
        },
    }
}

/// Whether a file of `count` slots of size `slot`, and one more slot where
/// `one_more` is set, has a length that an offset can express.
pub fn file_fits(count: usize, one_more: bool, slot: usize) -> (fits: bool)
    ensures
        fits == fits_file((count + if one_more { 1nat } else { 0nat }) as nat, slot as nat),
{
    let slots: u64 = if one_more {
        match (count as u64).checked_add(1) {
            Some(slots) => slots,
            None => {
                assert((count + 1) * (slot + 1) >= count + 1) by (nonlinear_arith)
                    requires
                        count >= 0,
                        slot >= 0,
                ;
                return false;
            },
        }
    } else {
        count as u64
    };
    offset_of_slot(slots, slot).is_some()
}

/// A file that holds `count` slots holds fewer.
pub proof fn lemma_fits_fewer(fewer: nat, count: nat, slot: nat)
    requires
        fewer <= count,
        fits_file(count, slot),
    ensures
        fits_file(fewer, slot),
        slot_offset(fewer, slot) <= slot_offset(count, slot),
{
    assert(fewer * (slot + 1) <= count * (slot + 1)) by (nonlinear_arith)
        requires
            fewer <= count,
    ;
}

/// The bytes of the slot that holds `record` in a file of slots of size
/// `slot`. The slot with its newline must not be longer than a buffer can
/// be.
pub fn pad_record(record: &[u8], slot: usize) -> (bytes: Vec<u8>)
    requires
        record@.len() < usize::MAX,
        slot < usize::MAX,
    ensures
        bytes@ == padded(record@, slot as nat),
{
    let mut bytes: Vec<u8> = Vec::new();
    let mut i: usize = 0;
    while i < record.len()
        invariant
            i <= record@.len(),
            bytes@ == record@.take(i as int),
        decreases record@.len() - i,
    {
        bytes.push(record[i]);
        i = i + 1;
        assert(bytes@ =~= record@.take(i as int));
    }
    assert(record@.take(i as int) =~= record@);
    while i < slot
        invariant
            record@.len() <= i,
            i <= slot || i == record@.len(),
            bytes@ == record@ + Seq::new((i - record@.len()) as nat, |k: int| FILL),
        decreases slot - i,
    {
        bytes.push(FILL);
        i = i + 1;
        assert(bytes@ =~= record@ + Seq::new((i - record@.len()) as nat, |k: int| FILL));
    }
    bytes.push(NEWLINE);
    assert(bytes@ =~= padded(record@, slot as nat));
    bytes
}

} // verus!
