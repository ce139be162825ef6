//! The bit store behind the engine's tape and the packed test vectors,
//! together with the packing of bit-layouts.
//!
//! A bit-layout is an ordered list of `(value, width)` pairs; packing
//! concatenates each value's low-order `width` bits, least-significant
//! bit first, field after field.

use vstd::prelude::*;
use vstd::arithmetic::power2::*;
use vstd::arithmetic::div_mod::*;
use vstd::bits::{
    lemma_u64_shr_is_div, lemma_u64_low_bits_mask_is_mod, lemma_u64_shl_is_mul, low_bits_mask,
};
use bitvec::order::Lsb0;
use bitvec::vec::BitVec;

verus! {

/// A sequence of bits stored compactly, least significant position first.
/// It wraps the outside bit-vector that does the storing; every operation
/// is specified against `bits_of`, the sequence of bits it holds.
#[verifier::external_body]
pub struct Bits {
    inner: BitVec<u8, Lsb0>,
}

/// The bits a `Bits` store holds, front to back.
pub uninterp spec fn bits_of(b: Bits) -> Seq<bool>;

impl Bits {
    /// Relies on bitvec::vec::BitVec::repeat: a new vector of `len` copies
    /// of `bit`.
    #[verifier::external_body]
    pub fn repeat(bit: bool, len: usize) -> (r: Bits)
        requires
            len <= usize::MAX / 8,
        ensures
            bits_of(r) == Seq::new(len as nat, |i: int| bit),
    {
        Bits { inner: BitVec::repeat(bit, len) }
    }

    /// Relies on bitvec::vec::BitVec::from_vec over a zeroed allocation:
    /// a fresh all-false tape of 2^32 bits (2^29 bytes; under Lsb0 every
    /// bit of a zero byte is false). Only a 64-bit target can hold the
    /// length, so the shift below refuses to compile anywhere smaller.
    #[verifier::external_body]
    pub fn tape() -> (r: Bits)
        ensures
            bits_of(r) == Seq::new(0x1_0000_0000, |i: int| false),
    {
        Bits { inner: BitVec::from_vec(vec![0u8; 1usize << 29]) }
    }

    /// Relies on bitvec::slice::BitSlice::len (through BitVec's deref).
    #[verifier::external_body]
    pub fn len(&self) -> (r: usize)
        ensures
            r == bits_of(*self).len(),
    {
        self.inner.len()
    }

    /// Relies on bitvec's Index impl for BitSlice: the bit at `i`.
    #[verifier::external_body]
    pub fn get(&self, i: usize) -> (r: bool)
        requires
            i < bits_of(*self).len(),
        ensures
            r == bits_of(*self)[i as int],
    {
        self.inner[i]
    }

    /// Relies on bitvec::slice::BitSlice::set: writes one bit in place.
    #[verifier::external_body]
    pub fn set(&mut self, i: usize, value: bool)
        requires
            i < bits_of(*old(self)).len(),
        ensures
            bits_of(*final (self)) == bits_of(*old(self)).update(i as int, value),
    {
        self.inner.set(i, value)
    }

}

/// Bit `i` of `v`, counting from the least significant end.
pub open spec fn bit_of(v: u64, i: nat) -> bool {
    (v as nat / pow2(i)) % 2 == 1
}

/// The `width` low-order bits of `v`, least significant first.
pub open spec fn field_bits(v: u64, width: nat) -> Seq<bool> {
    Seq::new(width, |i: int| bit_of(v, i as nat))
}

/// The packed form of a bit-layout: each field's low-order bits in order,
/// least significant bit first, field after field.
pub open spec fn pack_spec(layout: Seq<(u64, u64)>) -> Seq<bool>
    decreases layout.len(),
{
    if layout.len() == 0 {
        Seq::empty()
    } else {
        pack_spec(layout.drop_last()) + field_bits(layout.last().0, layout.last().1 as nat)
    }
}

/// The total width of a bit-layout, in bits.
pub open spec fn total_width(layout: Seq<(u64, u64)>) -> int
    decreases layout.len(),
{
    if layout.len() == 0 {
        0
    } else {
        total_width(layout.drop_last()) + layout.last().1
    }
}

/// Every field of the layout is at most 64 bits wide and its value fits
/// in that width.
pub open spec fn layout_wf(layout: Seq<(u64, u64)>) -> bool {
    forall|k: int|
        0 <= k < layout.len() ==> (#[trigger] layout[k]).1 <= 64 && (layout[k].0 as nat) < pow2(
            layout[k].1 as nat,
        )
}

pub proof fn lemma_pack_len(layout: Seq<(u64, u64)>)
    ensures
        pack_spec(layout).len() == total_width(layout),
        total_width(layout) >= 0,
    decreases layout.len(),
{
    if layout.len() > 0 {
        lemma_pack_len(layout.drop_last());
    }
}

/// The value that a bit sequence denotes, least significant bit first.
pub open spec fn value_of(bits: Seq<bool>) -> nat
    decreases bits.len(),
{
    if bits.len() == 0 {
        0
    } else {
        value_of(bits.drop_last()) + (if bits.last() {
            pow2((bits.len() - 1) as nat)
        } else {
            0
        })
    }
}

/// The total of a plain width list, in bits.
pub open spec fn widths_total(widths: Seq<u64>) -> int
    decreases widths.len(),
{
    if widths.len() == 0 {
        0
    } else {
        widths_total(widths.drop_last()) + widths.last()
    }
}

/// The values read back from `bits` when it is split by `widths`,
/// field after field from the front.
pub open spec fn unpack_spec(bits: Seq<bool>, widths: Seq<u64>) -> Seq<nat> {
    Seq::new(
        widths.len(),
        |k: int|
            value_of(
                bits.subrange(
                    widths_total(widths.take(k)),
                    widths_total(widths.take(k)) + widths[k],
                ),
            ),
    )
}

proof fn lemma_width_prefix(s: Seq<(u64, u64)>, k: int)
    requires
        0 <= k <= s.len(),
    ensures
        0 <= total_width(s.take(k)) <= total_width(s),
    decreases s.len(),
{
    if k == s.len() {
        assert(s.take(k) =~= s);
        lemma_pack_len(s);
    } else {
        assert(s.take(k) =~= s.drop_last().take(k));
        lemma_width_prefix(s.drop_last(), k);
    }
}

/// Every bit sequence denotes a value below 2^length.
pub proof fn lemma_value_of_bound(bits: Seq<bool>)
    ensures
        value_of(bits) < pow2(bits.len()),
    decreases bits.len(),
{
    if bits.len() == 0 {
        lemma2_to64();
    } else {
        lemma_value_of_bound(bits.drop_last());
        lemma_pow2_unfold(bits.len());
    }
}

/// The low `width` bits of `v` denote `v` modulo 2^width.
pub proof fn lemma_field_bits_value(v: u64, width: nat)
    ensures
        value_of(field_bits(v, width)) == (v as nat) % pow2(width),
    decreases width,
{
    lemma_pow2_pos(width);
    if width == 0 {
        lemma2_to64();
        assert(field_bits(v, 0) =~= Seq::<bool>::empty());
        assert((v as nat) % 1 == 0);
    } else {
        assert(field_bits(v, width).drop_last() =~= field_bits(v, (width - 1) as nat));
        lemma_field_bits_value(v, (width - 1) as nat);
        lemma_pow2_unfold(width);
        lemma_pow2_pos((width - 1) as nat);
        lemma_mod_breakdown(v as int, pow2((width - 1) as nat) as int, 2);
    }
}

/// Packs a bit-layout: a store of the layout's total width holding each
/// value's low-order `width` bits, least significant bit first, field
/// after field.
pub fn pack(spans: &Vec<(u64, u64)>) -> (r: Bits)
    requires
        forall|k: int| 0 <= k < spans@.len() ==> (#[trigger] spans@[k]).1 <= 64,
        total_width(spans@) <= usize::MAX / 8,
    ensures
        bits_of(r) == pack_spec(spans@),
{
    let n = spans.len();
    let mut total: usize = 0;
    let mut k: usize = 0;
    while k < n
        invariant
            0 <= k <= n,
            n == spans@.len(),
            total == total_width(spans@.take(k as int)),
            total_width(spans@) <= usize::MAX / 8,
            forall|j: int| 0 <= j < spans@.len() ==> (#[trigger] spans@[j]).1 <= 64,
        decreases n - k,
    {
        proof {
            assert(spans@.take(k as int + 1).drop_last() =~= spans@.take(k as int));
            lemma_width_prefix(spans@, k as int + 1);
        }
        total = total + (spans[k].1 as usize);
        k = k + 1;
    }
    proof {
        assert(spans@.take(n as int) =~= spans@);
        lemma_pack_len(spans@);
    }
    let mut bv = Bits::repeat(false, total);
    let ghost whole = total_width(spans@);
    let mut cur: usize = 0;
    let mut f: usize = 0;
    while f < n
        invariant
            0 <= f <= n,
            n == spans@.len(),
            cur == total_width(spans@.take(f as int)),
            cur <= whole,
            whole == total_width(spans@),
            whole <= usize::MAX / 8,
            bits_of(bv).len() == whole,
            forall|j: int| 0 <= j < spans@.len() ==> (#[trigger] spans@[j]).1 <= 64,
            bits_of(bv) =~= pack_spec(spans@.take(f as int)) + Seq::new(
                (whole - cur) as nat,
                |i: int| false,
            ),
        decreases n - f,
    {
        let pair = spans[f];
        let value = pair.0;
        let width = pair.1;
        proof {
            assert(spans@.take(f as int + 1).drop_last() =~= spans@.take(f as int));
            assert(spans@.take(f as int + 1).last() == spans@[f as int]);
            lemma_width_prefix(spans@, f as int + 1);
            lemma_pack_len(spans@.take(f as int));
        }
        let w = width as usize;
        let mut pos: usize = 0;
        while pos < w
            invariant
                0 <= pos <= w,
                w == width,
                width <= 64,
                (value, width) == spans@[f as int],
                0 <= f < n,
                n == spans@.len(),
                cur == total_width(spans@.take(f as int)),
                cur + w <= whole,
                whole == total_width(spans@),
                whole <= usize::MAX / 8,
                bits_of(bv).len() == whole,
                pack_spec(spans@.take(f as int)).len() == cur,
                bits_of(bv) =~= pack_spec(spans@.take(f as int)) + field_bits(value, pos as nat)
                    + Seq::new((whole - cur - pos) as nat, |i: int| false),
            decreases w - pos,
        {
            let bit = ((value >> (pos as u64)) & 1) == 1;
            proof {
                lemma_u64_shr_is_div(value, pos as u64);
                lemma_u64_low_bits_mask_is_mod(value >> (pos as u64), 1);
                lemma2_to64();
                assert(low_bits_mask(1) == 1);
                assert(bit == bit_of(value, pos as nat));
                assert(field_bits(value, (pos + 1) as nat) =~= field_bits(value, pos as nat).push(
                    bit_of(value, pos as nat),
                ));
            }
            bv.set(cur + pos, bit);
            proof {
                assert(bits_of(bv) =~= pack_spec(spans@.take(f as int)) + field_bits(
                    value,
                    (pos + 1) as nat,
                ) + Seq::new((whole - cur - pos - 1) as nat, |i: int| false));
            }
            pos = pos + 1;
        }
        proof {
            assert(pack_spec(spans@.take(f as int + 1)) == pack_spec(spans@.take(f as int))
                + field_bits(value, width as nat));
        }
        cur = cur + w;
        f = f + 1;
    }
    proof {
        assert(spans@.take(n as int) =~= spans@);
        assert(bits_of(bv) =~= pack_spec(spans@));
    }
    bv
}

/// Reads the packed fields back out of a bit store, one value per width,
/// front to back.
pub fn unpack(bits: &Bits, widths: &Vec<u64>) -> (r: Vec<u64>)
    requires
        forall|k: int| 0 <= k < widths@.len() ==> #[trigger] widths@[k] <= 64,
        widths_total(widths@) <= bits_of(*bits).len(),
    ensures
        r@.len() == widths@.len(),
        forall|k: int| 0 <= k < widths@.len() ==> #[trigger] r@[k] == unpack_spec(
            bits_of(*bits),
            widths@,
        )[k],
{
    let n = widths.len();
    let total_len = bits.len();
    let mut out: Vec<u64> = Vec::new();
    let mut off: usize = 0;
    let mut k: usize = 0;
    while k < n
        invariant
            0 <= k <= n,
            n == widths@.len(),
            off == widths_total(widths@.take(k as int)),
            total_len == bits_of(*bits).len(),
            widths_total(widths@) <= bits_of(*bits).len(),
            forall|j: int| 0 <= j < widths@.len() ==> #[trigger] widths@[j] <= 64,
            out@.len() == k,
            forall|j: int| 0 <= j < k ==> #[trigger] out@[j] == unpack_spec(
                bits_of(*bits),
                widths@,
            )[j],
        decreases n - k,
    {
        proof {
            assert(widths@.take(k as int + 1).drop_last() =~= widths@.take(k as int));
            assert(widths@.take(k as int + 1).last() == widths@[k as int]);
            lemma_widths_prefix(widths@, k as int + 1);
        }
        let width = widths[k];
        let w = width as usize;
        let mut acc: u64 = 0;
        let mut pos: usize = 0;
        while pos < w
            invariant
                0 <= pos <= w,
                w == width,
                width <= 64,
                0 <= k < n,
                n == widths@.len(),
                width == widths@[k as int],
                off == widths_total(widths@.take(k as int)),
                total_len == bits_of(*bits).len(),
                off + w <= bits_of(*bits).len(),
                acc == value_of(bits_of(*bits).subrange(off as int, off + pos)),
            decreases w - pos,
        {
            let ghost sub = bits_of(*bits).subrange(off as int, off + pos);
            let ghost pn = pos as nat;
            proof {
                lemma_value_of_bound(sub);
                lemma2_to64();
                lemma2_to64_rest();
                if pn < 63 {
                    lemma_pow2_strictly_increases(pn, 63);
                }
                lemma_u64_shl_is_mul(1u64, pos as u64);
                lemma_pow2_adds(pn, 1);
                if pn + 1 < 64 {
                    lemma_pow2_strictly_increases(pn + 1, 64);
                }
                assert(bits_of(*bits).subrange(off as int, off + pos + 1).drop_last() =~= sub);
            }
            let b = bits.get(off + pos);
            if b {
                acc = acc + (1u64 << (pos as u64));
            }
            pos = pos + 1;
        }
        proof {
            assert(unpack_spec(bits_of(*bits), widths@)[k as int] == value_of(
                bits_of(*bits).subrange(off as int, off + widths@[k as int]),
            ));
        }
        out.push(acc);
        off = off + w;
        k = k + 1;
    }
    out
}

/// Reading field `k` of a packed well-formed layout yields its value.
proof fn lemma_pack_field_read(layout: Seq<(u64, u64)>, k: int)
    requires
        layout_wf(layout),
        0 <= k < layout.len(),
    ensures
        value_of(
            pack_spec(layout).subrange(
                total_width(layout.take(k)),
                total_width(layout.take(k)) + layout[k].1,
            ),
        ) == layout[k].0,
    decreases layout.len(),
{
    let dl = layout.drop_last();
    let off = total_width(layout.take(k));
    let v = layout[k].0;
    let w = layout[k].1;
    lemma_pack_len(layout);
    lemma_pack_len(dl);
    lemma_width_prefix(layout, k);
    if k == layout.len() - 1 {
        assert(layout.take(k) =~= dl);
        assert(pack_spec(layout).subrange(off, off + w) =~= field_bits(v, w as nat));
        lemma_field_bits_value(v, w as nat);
        lemma_small_mod(v as nat, pow2(w as nat));
    } else {
        assert(layout_wf(dl)) by {
            assert(forall|j: int| 0 <= j < dl.len() ==> dl[j] == layout[j]);
        }
        assert(layout.take(k) =~= dl.take(k));
        assert(layout.take(k + 1).drop_last() =~= layout.take(k));
        assert(dl.take(k + 1) =~= layout.take(k + 1));
        lemma_width_prefix(dl, k + 1);
        assert(off + w <= total_width(dl));
        assert(pack_spec(layout).subrange(off, off + w) =~= pack_spec(dl).subrange(off, off + w));
        lemma_pack_field_read(dl, k);
    }
}

proof fn lemma_widths_map(layout: Seq<(u64, u64)>, k: int)
    requires
        0 <= k <= layout.len(),
    ensures
        widths_total(layout.map_values(|f: (u64, u64)| f.1).take(k)) == total_width(
            layout.take(k),
        ),
    decreases k,
{
    let widths = layout.map_values(|f: (u64, u64)| f.1);
    if k > 0 {
        lemma_widths_map(layout, k - 1);
        assert(widths.take(k).drop_last() =~= widths.take(k - 1));
        assert(layout.take(k).drop_last() =~= layout.take(k - 1));
        assert(widths.take(k).last() == layout[k - 1].1);
    }
}

/// Round trip: packing a well-formed bit-layout and unpacking it by the
/// same widths recovers every field value exactly.
pub proof fn lemma_pack_unpack(layout: Seq<(u64, u64)>)
    requires
        layout_wf(layout),
    ensures
        unpack_spec(pack_spec(layout), layout.map_values(|f: (u64, u64)| f.1)).len()
            == layout.len(),
        forall|k: int|
            0 <= k < layout.len() ==> unpack_spec(
                pack_spec(layout),
                layout.map_values(|f: (u64, u64)| f.1),
            )[k] == (#[trigger] layout[k]).0 as nat,
{
    let widths = layout.map_values(|f: (u64, u64)| f.1);
    assert forall|k: int| 0 <= k < layout.len() implies unpack_spec(pack_spec(layout), widths)[k]
        == (#[trigger] layout[k]).0 as nat by {
        lemma_widths_map(layout, k);
        assert(widths.take(k) =~= layout.take(k).map_values(|f: (u64, u64)| f.1));
        lemma_pack_field_read(layout, k);
    }
}

proof fn lemma_widths_prefix(s: Seq<u64>, k: int)
    requires
        0 <= k <= s.len(),
    ensures
        0 <= widths_total(s.take(k)) <= widths_total(s),
    decreases s.len(),
{
    if k == s.len() {
        assert(s.take(k) =~= s);
        if s.len() > 0 {
            lemma_widths_prefix(s.drop_last(), k - 1);
        }
    } else {
        assert(s.take(k) =~= s.drop_last().take(k));
        lemma_widths_prefix(s.drop_last(), k);
    }
}

} // verus!
