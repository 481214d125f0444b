//! Slices: read cursors over a cell that hand out its bits and children in
//! order and never change the cell.

use crate::bits::{bits_value, signed_be, signed_value, unsigned_be};
use crate::cell::{dump_cell, dump_text, Cell, CellView};
use crate::codec::{signed_int_deserialize, unsigned_int_deserialize};
use crate::error::Error;
use vstd::prelude::*;

verus! {

/// A read cursor: a cell, and how many of its bits and children have been read.
pub struct Slice {
    cell: Cell,
    bit_pos: usize,
    ref_pos: usize,
}

impl View for Slice {
    type V = CellView;

    /// What is left to read: the bits and children after the cursor.
    closed spec fn view(&self) -> CellView {
        CellView { bits: self.cell@.bits.skip(self.bit_pos as int), refs: self.cell@.refs.skip(self.ref_pos as int) }
    }
}

impl Slice {
    #[verifier::type_invariant]
    spec fn inv(self) -> bool {
        &&& self.bit_pos <= self.cell@.bits.len()
        &&& self.ref_pos <= self.cell@.refs.len()
    }

    /// The cell the slice reads.
    pub closed spec fn source(&self) -> CellView {
        self.cell@
    }

    fn facts(&self)
        ensures
            self.bit_pos <= self.cell@.bits.len(),
            self.ref_pos <= self.cell@.refs.len(),
            self@.bits.len() == self.cell@.bits.len() - self.bit_pos,
            self@.refs.len() == self.cell@.refs.len() - self.ref_pos,
            self.cell@.bits.len() <= 1023,
            self.cell@.refs.len() <= 4,
    {
        proof {
            use_type_invariant(&*self);
        }
        self.cell.limits();
    }

    /// What is left of a slice respects the limits on bits and children.
    pub fn limits(&self)
        ensures
            self@.bits.len() <= 1023,
            self@.refs.len() <= 4,
    {
        self.facts();
    }

    /// A slice over the whole of `cell`.
    pub fn new(cell: Cell) -> (r: Slice)
        ensures
            r@ == cell@,
            r.source() == cell@,
    {
        let r = Slice { cell, bit_pos: 0, ref_pos: 0 };
        assert(r@.bits =~= cell@.bits);
        assert(r@.refs =~= cell@.refs);
        r
    }

    /// Bits left to read.
    pub fn remaining_bits(&self) -> (r: usize)
        ensures
            r == self@.bits.len(),
    {
        self.facts();
        self.cell.bits_len() - self.bit_pos
    }

    /// Children left to read.
    pub fn remaining_references(&self) -> (r: usize)
        ensures
            r == self@.refs.len(),
    {
        self.facts();
        self.cell.references_count() - self.ref_pos
    }

    /// Whether no bits and no children are left.
    pub fn is_empty(&self) -> (r: bool)
        ensures
            r == (self@.bits.len() == 0 && self@.refs.len() == 0),
    {
        self.remaining_bits() == 0 && self.remaining_references() == 0
    }

    /// Reads the next `n` bits; `Error::Bounds`, reading nothing, if fewer are left.
    pub fn read_bits(&mut self, n: usize) -> (r: Result<Vec<bool>, Error>)
        ensures
            n <= old(self)@.bits.len() ==> r.is_ok() && r.unwrap()@ == old(self)@.bits.take(n as int)
                && final(self)@ == (CellView { bits: old(self)@.bits.skip(n as int), refs: old(self)@.refs })
                && final(self).source() == old(self).source(),
            n > old(self)@.bits.len() ==> r == Err::<Vec<bool>, Error>(Error::Bounds) && *final(self) == *old(self),
    {
        self.facts();
        if n > self.cell.bits_len() - self.bit_pos {
            return Err(Error::Bounds);
        }
        let ghost before = self@;
        let start = self.bit_pos;
        let mut out: Vec<bool> = Vec::new();
        let mut i: usize = 0;
        while i < n
            invariant
                i <= n,
                start + n <= self.cell@.bits.len(),
                self.cell@.bits.len() <= 1023,
                before.bits == self.cell@.bits.skip(start as int),
                out@ == before.bits.take(i as int),
            decreases n - i,
        {
            out.push(self.cell.bit_at(start + i));
            i += 1;
            assert(out@ =~= before.bits.take(i as int));
        }
        self.bit_pos = start + n;
        assert(self@.bits =~= before.bits.skip(n as int));
        Ok(out)
    }

    /// Moves past the next `n` bits; `Error::Bounds`, moving nowhere, if fewer are left.
    pub fn skip(&mut self, n: usize) -> (r: Result<(), Error>)
        ensures
            n <= old(self)@.bits.len() ==> r.is_ok() && final(self)@ == (CellView {
                bits: old(self)@.bits.skip(n as int),
                refs: old(self)@.refs,
            }) && final(self).source() == old(self).source(),
            n > old(self)@.bits.len() ==> r == Err::<(), Error>(Error::Bounds) && *final(self) == *old(self),
    {
        self.facts();
        if n > self.cell.bits_len() - self.bit_pos {
            return Err(Error::Bounds);
        }
        let ghost before = self@;
        self.bit_pos = self.bit_pos + n;
        assert(self@.bits =~= before.bits.skip(n as int));
        Ok(())
    }

    /// Reads the next `n` bits as a two's-complement number, returned as its
    /// big-endian two's-complement bytes; `Error::Bounds` if fewer are left.
    pub fn read_int(&mut self, n: usize) -> (r: Result<Vec<u8>, Error>)
        ensures
            n <= old(self)@.bits.len() ==> r.is_ok() && signed_be(r.unwrap()@) == signed_value(
                old(self)@.bits.take(n as int),
            ) && final(self)@ == (CellView { bits: old(self)@.bits.skip(n as int), refs: old(self)@.refs })
                && final(self).source() == old(self).source(),
            n > old(self)@.bits.len() ==> r == Err::<Vec<u8>, Error>(Error::Bounds) && *final(self) == *old(self),
    {
        self.facts();
        let field = self.read_bits(n)?;
        Ok(signed_int_deserialize(&field))
    }

    /// Reads the next `n` bits as an unsigned number, returned as its
    /// big-endian bytes; `Error::Bounds` if fewer are left.
    pub fn read_uint(&mut self, n: usize) -> (r: Result<Vec<u8>, Error>)
        ensures
            n <= old(self)@.bits.len() ==> r.is_ok() && unsigned_be(r.unwrap()@) == bits_value(
                old(self)@.bits.take(n as int),
            ) && final(self)@ == (CellView { bits: old(self)@.bits.skip(n as int), refs: old(self)@.refs })
                && final(self).source() == old(self).source(),
            n > old(self)@.bits.len() ==> r == Err::<Vec<u8>, Error>(Error::Bounds) && *final(self) == *old(self),
    {
        self.facts();
        let field = self.read_bits(n)?;
        Ok(unsigned_int_deserialize(&field))
    }

    /// Reads the next child; `Error::Bounds` if none is left.
    pub fn drain_reference(&mut self) -> (r: Result<Cell, Error>)
        ensures
            old(self)@.refs.len() > 0 ==> r.is_ok() && r.unwrap()@ == old(self)@.refs[0] && final(self)@ == (
            CellView { bits: old(self)@.bits, refs: old(self)@.refs.drop_first() })
                && final(self).source() == old(self).source(),
            old(self)@.refs.len() == 0 ==> r == Err::<Cell, Error>(Error::Bounds) && *final(self) == *old(self),
    {
        self.facts();
        if self.ref_pos >= self.cell.references_count() {
            return Err(Error::Bounds);
        }
        let ghost before = self@;
        let c = self.cell.reference(self.ref_pos);
        self.ref_pos = self.ref_pos + 1;
        assert(self@.refs =~= before.refs.drop_first());
        c
    }

    /// The child `i` places after the cursor, without reading it; `Error::Bounds`
    /// if there is none.
    pub fn peek_reference(&self, i: usize) -> (r: Result<Cell, Error>)
        ensures
            i < self@.refs.len() ==> r.is_ok() && r.unwrap()@ == self@.refs[i as int],
            i >= self@.refs.len() ==> r == Err::<Cell, Error>(Error::Bounds),
    {
        self.facts();
        if i >= self.cell.references_count() - self.ref_pos {
            return Err(Error::Bounds);
        }
        self.cell.reference(self.ref_pos + i)
    }

    /// The bits left to read.
    pub fn bits_left(&self) -> (r: Vec<bool>)
        ensures
            r@ == self@.bits,
    {
        self.facts();
        let mut out: Vec<bool> = Vec::new();
        let n = self.remaining_bits();
        let mut i: usize = 0;
        while i < n
            invariant
                i <= n,
                n == self@.bits.len(),
                self.bit_pos + n == self.cell@.bits.len(),
                self.cell@.bits.len() <= 1023,
                out@ == self@.bits.take(i as int),
            decreases n - i,
        {
            out.push(self.cell.bit_at(self.bit_pos + i));
            i += 1;
            assert(out@ =~= self@.bits.take(i as int));
        }
        assert(out@ =~= self@.bits);
        out
    }

    /// The children left to read.
    pub fn refs_left(&self) -> (r: Vec<Cell>)
        ensures
            r@.map_values(|c: Cell| c@) == self@.refs,
    {
        self.facts();
        let mut out: Vec<Cell> = Vec::new();
        let m = self.remaining_references();
        let mut j: usize = 0;
        while j < m
            invariant
                j <= m,
                m == self@.refs.len(),
                self.ref_pos + m == self.cell@.refs.len(),
                self.cell@.refs.len() <= 4,
                out@.map_values(|c: Cell| c@) == self@.refs.take(j as int),
                out@.len() == j,
            decreases m - j,
        {
            let ghost prev = out@;
            let r = self.peek_reference(j);
            assert(r.is_ok());
            if let Ok(c) = r {
                out.push(c);
            }
            assert(out@ == prev.push(r.unwrap()));
            assert(prev.map_values(|c: Cell| c@) == self@.refs.take(j as int));
            j += 1;
            assert forall|k: int| 0 <= k < j implies out@.map_values(|c: Cell| c@)[k] == self@.refs.take(j as int)[k] by {
                if k < j - 1 {
                    assert(prev.map_values(|c: Cell| c@)[k] == self@.refs.take(j - 1)[k]);
                }
            }
            assert(out@.map_values(|c: Cell| c@) =~= self@.refs.take(j as int));
        }
        assert(self@.refs.take(j as int) =~= self@.refs);
        out
    }

    /// Another slice at the same place over the same cell.
    pub fn share(&self) -> (r: Slice)
        ensures
            r@ == self@,
            r.source() == self.source(),
    {
        proof {
            use_type_invariant(self);
        }
        Slice { cell: self.cell.share(), bit_pos: self.bit_pos, ref_pos: self.ref_pos }
    }

    /// The cell the slice reads.
    pub fn cell(&self) -> (r: Cell)
        ensures
            r@ == self.source(),
    {
        self.cell.share()
    }

    /// Whether the two slices have the same bits and children left to read.
    pub fn equals(&self, other: &Slice) -> (r: bool)
        ensures
            r == (self@ == other@),
    {
        self.facts();
        other.facts();
        let n = self.remaining_bits();
        if n != other.remaining_bits() || self.remaining_references() != other.remaining_references() {
            return false;
        }
        let mut i: usize = 0;
        while i < n
            invariant
                i <= n,
                n == self@.bits.len(),
                n == other@.bits.len(),
                self.bit_pos + n == self.cell@.bits.len(),
                other.bit_pos + n == other.cell@.bits.len(),
                self.cell@.bits.len() <= 1023,
                other.cell@.bits.len() <= 1023,
                self@.bits.take(i as int) == other@.bits.take(i as int),
            decreases n - i,
        {
            if self.cell.bit_at(self.bit_pos + i) != other.cell.bit_at(other.bit_pos + i) {
                assert(self@.bits[i as int] != other@.bits[i as int]);
                return false;
            }
            i += 1;
            assert(self@.bits.take(i as int) =~= other@.bits.take(i as int));
        }
        assert(self@.bits =~= self@.bits.take(i as int));
        assert(other@.bits =~= other@.bits.take(i as int));
        let m = self.remaining_references();
        let mut j: usize = 0;
        while j < m
            invariant
                j <= m,
                m == self@.refs.len(),
                m == other@.refs.len(),
                self.ref_pos + m == self.cell@.refs.len(),
                other.ref_pos + m == other.cell@.refs.len(),
                self@.refs.take(j as int) == other@.refs.take(j as int),
            decreases m - j,
        {
            let a = self.peek_reference(j);
            let b = other.peek_reference(j);
            match (a, b) {
                (Ok(x), Ok(y)) => {
                    if !x.equals(&y) {
                        return false;
                    }
                },
                _ => {
                    return false;
                },
            }
            j += 1;
            assert(self@.refs.take(j as int) =~= other@.refs.take(j as int));
        }
        assert(self@.refs =~= self@.refs.take(j as int));
        assert(other@.refs =~= other@.refs.take(j as int));
        true
    }

    /// The dump of the cell the slice reads (see `dump_cell`).
    pub fn dump(&self) -> (r: String)
        ensures
            r@ == dump_text(self.source(), seq!['C'], seq![' ', ' ']),
    {
        dump_cell(&self.cell)
    }
}

} // verus!
