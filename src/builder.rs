//! Builders: append-only write buffers that finalize into cells. Every append
//! that would pass a limit fails and leaves the builder as it was.

use crate::bits::{
    bits_value, bytes_bits, fits_signed, fits_unsigned, int_bits, lemma_bytes_bits_len, lemma_sign_of_bytes,
    lemma_signed_round_trip, lemma_unsigned_round_trip, lemma_value_of_int_bits, signed_be, signed_value,
};
use crate::bitstring::{parse_bitstring, parse_text};
use crate::cell::{dump_cell, dump_text, Cell, CellView, MAX_DATA_BITS, MAX_REFS};
use crate::codec::{bytes_to_bits, signed_int_serialize, unsigned_int_serialize};
use crate::error::Error;
use crate::slice::Slice;
use vstd::prelude::*;
use vstd::string::*;

verus! {

/// The bits of a string of `0` and `1` characters, or none if another character occurs.
pub open spec fn binary_bits(t: Seq<char>) -> Option<Seq<bool>>
    decreases t.len(),
{
    if t.len() == 0 {
        Some(Seq::empty())
    } else {
        match binary_bits(t.drop_last()) {
            Some(b) => if t.last() == '0' {
                Some(b.push(false))
            } else if t.last() == '1' {
                Some(b.push(true))
            } else {
                None
            },
            None => None,
        }
    }
}

/// `t` with `bits` after its bits.
pub open spec fn with_bits(t: CellView, bits: Seq<bool>) -> CellView {
    CellView { bits: t.bits + bits, refs: t.refs }
}

/// Pending bits and children, to become a cell.
pub struct Builder {
    bits: Vec<bool>,
    refs: Vec<Cell>,
}

impl View for Builder {
    type V = CellView;

    /// The cell the builder would finalize into.
    closed spec fn view(&self) -> CellView {
        CellView { bits: self.bits@, refs: self.refs@.map_values(|c: Cell| c@) }
    }
}

impl Builder {
    #[verifier::type_invariant]
    spec fn inv(self) -> bool {
        &&& self.bits@.len() <= MAX_DATA_BITS
        &&& self.refs@.len() <= MAX_REFS
    }

    /// A builder respects the limits on bits and children.
    pub fn limits(&self)
        ensures
            self@.bits.len() <= MAX_DATA_BITS,
            self@.refs.len() <= MAX_REFS,
    {
        proof {
            use_type_invariant(&*self);
        }
    }

    /// An empty builder.
    pub fn new() -> (r: Builder)
        ensures
            r@ == (CellView { bits: Seq::empty(), refs: Seq::empty() }),
    {
        let r = Builder { bits: Vec::new(), refs: Vec::new() };
        assert(r@.refs =~= Seq::<CellView>::empty());
        r
    }

    /// Appends `bits`; `Error::Bounds`, appending nothing, if the builder would
    /// pass its bit limit.
    pub fn append_bits(&mut self, bits: &Vec<bool>) -> (r: Result<(), Error>)
        ensures
            old(self)@.bits.len() + bits@.len() <= MAX_DATA_BITS ==> r.is_ok() && final(self)@ == with_bits(
                old(self)@,
                bits@,
            ),
            old(self)@.bits.len() + bits@.len() > MAX_DATA_BITS ==> r == Err::<(), Error>(Error::Bounds)
                && final(self)@ == old(self)@,
    {
        self.limits();
        if bits.len() > MAX_DATA_BITS - self.bits.len() {
            return Err(Error::Bounds);
        }
        let mut nb: Vec<bool> = Vec::new();
        let mut k: usize = 0;
        while k < self.bits.len()
            invariant
                k <= self.bits@.len(),
                nb@ == self.bits@.take(k as int),
            decreases self.bits@.len() - k,
        {
            nb.push(self.bits[k]);
            k += 1;
            assert(nb@ =~= self.bits@.take(k as int));
        }
        assert(nb@ =~= self.bits@);
        let ghost start = self.bits@;
        let mut i: usize = 0;
        while i < bits.len()
            invariant
                i <= bits@.len(),
                nb@ == start + bits@.take(i as int),
            decreases bits@.len() - i,
        {
            nb.push(bits[i]);
            i += 1;
            assert(nb@ =~= start + bits@.take(i as int));
        }
        assert(bits@.take(i as int) =~= bits@);
        self.bits = nb;
        Ok(())
    }

    /// Appends the field of width `bits` that holds `value`, given as big-endian
    /// two's-complement bytes: its lowest `bits` bits. `Error::ZeroWidth` for a
    /// width of zero, `Error::Bounds` if the builder would pass its bit limit;
    /// either way nothing is appended.
    pub fn append_int(&mut self, bits: usize, value: Vec<u8>) -> (r: Result<(), Error>)
        requires
            value@.len() <= 0x1000_0000,
        ensures
            bits == 0 ==> r == Err::<(), Error>(Error::ZeroWidth) && final(self)@ == old(self)@,
            bits > 0 && old(self)@.bits.len() + bits > MAX_DATA_BITS ==> r == Err::<(), Error>(Error::Bounds)
                && final(self)@ == old(self)@,
            bits > 0 && old(self)@.bits.len() + bits <= MAX_DATA_BITS ==> r.is_ok() && final(self)@ == with_bits(
                old(self)@,
                int_bits(signed_be(value@), bits as nat),
            ),
    {
        self.limits();
        if bits == 0 {
            return Err(Error::ZeroWidth);
        }
        if bits > MAX_DATA_BITS - self.bits.len() {
            return Err(Error::Bounds);
        }
        let negative = value.len() > 0 && value[0] >= 0x80;
        proof {
            lemma_sign_of_bytes(value@);
            lemma_value_of_int_bits(signed_be(value@), bits as nat);
        }
        let field = if negative {
            signed_int_serialize(value, bits)
        } else {
            match unsigned_int_serialize(value, bits) {
                Ok(f) => f,
                Err(e) => {
                    return Err(e);
                },
            }
        };
        self.append_bits(&field)
    }

    /// Appends the bits that a string of `0` and `1` characters spells;
    /// `Error::Format` for any other character, `Error::Bounds` past the bit
    /// limit; either way nothing is appended.
    pub fn append_binary(&mut self, bin: &str) -> (r: Result<(), Error>)
        requires
            bin@.len() <= usize::MAX / 2,
        ensures
            binary_bits(bin@) is None ==> r == Err::<(), Error>(Error::Format) && final(self)@ == old(self)@,
            binary_bits(bin@) is Some ==> {
                let b = binary_bits(bin@).unwrap();
                if old(self)@.bits.len() + b.len() <= MAX_DATA_BITS {
                    r.is_ok() && final(self)@ == with_bits(old(self)@, b)
                } else {
                    r == Err::<(), Error>(Error::Bounds) && final(self)@ == old(self)@
                }
            },
    {
        let n = bin.unicode_len();
        let mut out: Vec<bool> = Vec::new();
        let mut i: usize = 0;
        while i < n
            invariant
                i <= n,
                n == bin@.len(),
                binary_bits(bin@.take(i as int)) == Some(out@),
                out@.len() == i,
            decreases n - i,
        {
            let c = bin.get_char(i);
            proof {
                assert(bin@.take(i + 1).drop_last() =~= bin@.take(i as int));
            }
            if c == '0' {
                out.push(false);
            } else if c == '1' {
                out.push(true);
            } else {
                proof {
                    lemma_no_binary_bits(bin@, (i + 1) as nat);
                }
                return Err(Error::Format);
            }
            i += 1;
        }
        assert(bin@.take(i as int) =~= bin@);
        self.append_bits(&out)
    }

    /// Appends the bits that `bitstring` stands for in text form (see
    /// `parse_bitstring`); `Error::Format` if it is malformed, `Error::Bounds`
    /// past the bit limit; either way nothing is appended.
    pub fn append_bitstring(&mut self, bitstring: &str) -> (r: Result<(), Error>)
        requires
            bitstring@.len() <= usize::MAX / 8,
        ensures
            parse_text(bitstring@) is None ==> r == Err::<(), Error>(Error::Format) && final(self)@ == old(self)@,
            parse_text(bitstring@) is Some ==> {
                let b = parse_text(bitstring@).unwrap();
                if old(self)@.bits.len() + b.len() <= MAX_DATA_BITS {
                    r.is_ok() && final(self)@ == with_bits(old(self)@, b)
                } else {
                    r == Err::<(), Error>(Error::Bounds) && final(self)@ == old(self)@
                }
            },
    {
        let bits = parse_bitstring(bitstring)?;
        self.append_bits(&bits)
    }

    /// Appends the bits of `bytes`, each byte most significant bit first;
    /// `Error::Bounds`, appending nothing, past the bit limit.
    pub fn append_bytes(&mut self, bytes: &Vec<u8>) -> (r: Result<(), Error>)
        ensures
            old(self)@.bits.len() + 8 * bytes@.len() <= MAX_DATA_BITS ==> r.is_ok() && final(self)@ == with_bits(
                old(self)@,
                bytes_bits(bytes@),
            ),
            old(self)@.bits.len() + 8 * bytes@.len() > MAX_DATA_BITS ==> r == Err::<(), Error>(Error::Bounds)
                && final(self)@ == old(self)@,
    {
        if bytes.len() > MAX_DATA_BITS / 8 {
            return Err(Error::Bounds);
        }
        let bits = bytes_to_bits(bytes);
        proof {
            lemma_bytes_bits_len(bytes@);
        }
        self.append_bits(&bits)
    }

    /// Appends a child; `Error::Bounds`, appending nothing, if the builder
    /// already holds four.
    pub fn append_reference(&mut self, cell: Cell) -> (r: Result<(), Error>)
        ensures
            old(self)@.refs.len() < MAX_REFS ==> r.is_ok() && final(self)@ == (CellView {
                bits: old(self)@.bits,
                refs: old(self)@.refs.push(cell@),
            }),
            old(self)@.refs.len() >= MAX_REFS ==> r == Err::<(), Error>(Error::Bounds) && final(self)@ == old(self)@,
    {
        self.limits();
        if self.refs.len() >= MAX_REFS {
            return Err(Error::Bounds);
        }
        let mut refs = self.shared_refs();
        refs.push(cell);
        self.refs = refs;
        assert(self@.refs =~= old(self)@.refs.push(cell@));
        Ok(())
    }

    /// New handles on the builder's children.
    fn shared_refs(&self) -> (r: Vec<Cell>)
        ensures
            r@.map_values(|c: Cell| c@) == self@.refs,
            r@.len() == self@.refs.len(),
    {
        let mut out: Vec<Cell> = Vec::new();
        let mut j: usize = 0;
        while j < self.refs.len()
            invariant
                j <= self.refs@.len(),
                out@.len() == j,
                forall|k: int| 0 <= k < j ==> #[trigger] out@[k]@ == self.refs@[k]@,
            decreases self.refs@.len() - j,
        {
            out.push(self.refs[j].share());
            j += 1;
        }
        assert(out@.map_values(|c: Cell| c@) =~= self@.refs);
        out
    }

    /// `t` with the bits and children of `u` after its own.
    pub open spec fn joined(t: CellView, u: CellView) -> CellView {
        CellView { bits: t.bits + u.bits, refs: t.refs + u.refs }
    }

    /// Whether the bits and children of `u` fit after those of `t`.
    pub open spec fn join_fits(t: CellView, u: CellView) -> bool {
        t.bits.len() + u.bits.len() <= MAX_DATA_BITS && t.refs.len() + u.refs.len() <= MAX_REFS
    }

    fn append_parts(&mut self, bits: &Vec<bool>, refs: Vec<Cell>) -> (r: Result<(), Error>)
        ensures
            ({
                let u = CellView { bits: bits@, refs: refs@.map_values(|c: Cell| c@) };
                &&& Builder::join_fits(old(self)@, u) ==> r.is_ok() && final(self)@ == Builder::joined(old(self)@, u)
                &&& !Builder::join_fits(old(self)@, u) ==> r == Err::<(), Error>(Error::Bounds) && final(self)@ == old(
                    self,
                )@
            }),
    {
        self.limits();
        if bits.len() > MAX_DATA_BITS - self.bits.len() || refs.len() > MAX_REFS - self.refs.len() {
            return Err(Error::Bounds);
        }
        let _ = self.append_bits(bits);
        let ghost mid = self@;
        let mut all = self.shared_refs();
        assert forall|k: int| 0 <= k < all@.len() implies #[trigger] all@[k]@ == mid.refs[k] by {
            assert(all@.map_values(|c: Cell| c@)[k] == all@[k]@);
        }
        let ghost target = mid.refs + refs@.map_values(|c: Cell| c@);
        let mut j: usize = 0;
        while j < refs.len()
            invariant
                j <= refs@.len(),
                mid.refs.len() + refs@.len() <= MAX_REFS,
                target == mid.refs + refs@.map_values(|c: Cell| c@),
                all@.len() == mid.refs.len() + j,
                forall|k: int| 0 <= k < all@.len() ==> #[trigger] all@[k]@ == target[k],
            decreases refs@.len() - j,
        {
            all.push(refs[j].share());
            j += 1;
        }
        assert(all@.map_values(|c: Cell| c@) =~= target);
        self.refs = all;
        Ok(())
    }

    /// Appends what is left to read of `slice`, bits and children;
    /// `Error::Bounds`, appending nothing, if either limit would be passed.
    pub fn append_slice(&mut self, slice: &Slice) -> (r: Result<(), Error>)
        ensures
            Builder::join_fits(old(self)@, slice@) ==> r.is_ok() && final(self)@ == Builder::joined(old(self)@, slice@),
            !Builder::join_fits(old(self)@, slice@) ==> r == Err::<(), Error>(Error::Bounds) && final(self)@ == old(
                self,
            )@,
    {
        let bits = slice.bits_left();
        let refs = slice.refs_left();
        self.append_parts(&bits, refs)
    }

    /// Appends the bits and children of `other`; `Error::Bounds`, appending
    /// nothing, if either limit would be passed.
    pub fn append_builder(&mut self, other: &Builder) -> (r: Result<(), Error>)
        ensures
            Builder::join_fits(old(self)@, other@) ==> r.is_ok() && final(self)@ == Builder::joined(old(self)@, other@),
            !Builder::join_fits(old(self)@, other@) ==> r == Err::<(), Error>(Error::Bounds) && final(self)@ == old(
                self,
            )@,
    {
        let bits = other.bits_copy();
        let refs = other.shared_refs();
        self.append_parts(&bits, refs)
    }

    fn bits_copy(&self) -> (r: Vec<bool>)
        ensures
            r@ == self@.bits,
    {
        let mut nb: Vec<bool> = Vec::new();
        let mut k: usize = 0;
        while k < self.bits.len()
            invariant
                k <= self.bits@.len(),
                nb@ == self.bits@.take(k as int),
            decreases self.bits@.len() - k,
        {
            nb.push(self.bits[k]);
            k += 1;
            assert(nb@ =~= self.bits@.take(k as int));
        }
        assert(nb@ =~= self.bits@);
        nb
    }

    /// Whether what is left of `slice`, with `extra_bits` more bits and
    /// `extra_refs` more children, would fit after the builder's contents.
    pub fn fits(&self, slice: &Slice, extra_bits: usize, extra_refs: usize) -> (r: bool)
        ensures
            r == (self@.bits.len() + slice@.bits.len() + extra_bits <= MAX_DATA_BITS && self@.refs.len()
                + slice@.refs.len() + extra_refs <= MAX_REFS),
    {
        self.limits();
        let b = slice.remaining_bits();
        let n = slice.remaining_references();
        extra_bits <= MAX_DATA_BITS && b <= MAX_DATA_BITS - extra_bits && self.bits.len() <= MAX_DATA_BITS - extra_bits - b
            && extra_refs <= MAX_REFS && n <= MAX_REFS - extra_refs && self.refs.len() <= MAX_REFS - extra_refs - n
    }

    /// A slice over the cell the builder would finalize into.
    pub fn to_slice(&self) -> (r: Slice)
        ensures
            r@ == self@,
            r.source() == self@,
    {
        Slice::new(self.to_cell())
    }

    /// The cell the builder would finalize into, leaving the builder as it is.
    pub fn to_cell(&self) -> (r: Cell)
        ensures
            r@ == self@,
    {
        self.limits();
        Cell::from_parts(self.bits_copy(), self.shared_refs())
    }

    /// The dump of the cell the builder would finalize into (see `dump_cell`).
    pub fn dump(&self) -> (r: String)
        ensures
            r@ == dump_text(self@, seq!['C'], seq![' ', ' ']),
    {
        dump_cell(&self.to_cell())
    }

    /// Whether the two builders hold the same bits and children.
    pub fn equals(&self, other: &Builder) -> (r: bool)
        ensures
            r == (self@ == other@),
    {
        self.to_cell().equals(&other.to_cell())
    }

    /// Another builder with the same bits and children.
    pub fn duplicate(&self) -> (r: Builder)
        ensures
            r@ == self@,
    {
        self.limits();
        Builder { bits: self.bits_copy(), refs: self.shared_refs() }
    }

    /// Finalizes into a cell with the builder's bits and children.
    pub fn finalize(self) -> (r: Cell)
        ensures
            r@ == self@,
    {
        self.limits();
        Cell::from_parts(self.bits, self.refs)
    }
}

/// An integer that fits in `w` bits of two's complement, appended to an empty
/// builder at width `w` (`append_int`), is read back exactly by `read_int(w)`
/// on a slice over the finalized cell; one that fits in `w` bits of plain
/// binary is read back exactly by `read_uint(w)`.
pub proof fn lemma_int_field_round_trip(value: Seq<u8>, w: nat)
    requires
        1 <= w <= 256,
    ensures
        ({
            let written = with_bits(CellView { bits: Seq::empty(), refs: Seq::empty() }, int_bits(signed_be(value), w));
            &&& written.bits.len() == w
            &&& fits_signed(signed_be(value), w) ==> signed_value(written.bits.take(w as int)) == signed_be(value)
            &&& fits_unsigned(signed_be(value), w) ==> bits_value(written.bits.take(w as int)) == signed_be(value)
        }),
{
    let v = signed_be(value);
    let b = int_bits(v, w);
    lemma_value_of_int_bits(v, w);
    assert(Seq::<bool>::empty() + b =~= b);
    assert(b.take(w as int) =~= b);
    if fits_signed(v, w) {
        lemma_signed_round_trip(v, w);
    }
    if fits_unsigned(v, w) {
        lemma_unsigned_round_trip(v, w);
    }
}

/// A malformed prefix makes the whole string malformed.
proof fn lemma_no_binary_bits(t: Seq<char>, k: nat)
    requires
        k <= t.len(),
        binary_bits(t.take(k as int)) is None,
    ensures
        binary_bits(t) is None,
    decreases t.len() - k,
{
    if k < t.len() {
        assert(t.take(k + 1int).drop_last() =~= t.take(k as int));
        lemma_no_binary_bits(t, k + 1);
    } else {
        assert(t.take(k as int) =~= t);
    }
}

} // verus!
