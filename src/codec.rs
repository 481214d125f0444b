//! Exact-width integer fields: an integer, held as big-endian two's-complement
//! bytes, to the bits of a field of a given width and back.

use crate::bits::{
    bits_value, bytes_bits, int_bits, lemma_byte_bits, lemma_bytes_bits_append,
    lemma_bytes_bits_len, lemma_fill_bytes, lemma_int_bits_of_value, lemma_low_bits, lemma_sign_extended_value,
    repeat_bit, repeat_byte, signed_be, signed_value, unsigned_be, lemma_sign_extend, lemma_zero_extend,
    lemma_sign_of_bytes, fits_signed, lemma_fits_iff_sign_run, sign_run,
};
use crate::error::Error;
use vstd::arithmetic::div_mod::*;
use vstd::arithmetic::power2::*;
use vstd::prelude::*;

verus! {

/// Bits by which `bits` exceeds a whole number of bytes.
pub fn excess_bits(bits: usize) -> (r: usize)
    ensures
        r == bits % 8,
{
    assert(bits & 7 == bits % 8) by (bit_vector);
    bits & 0b111
}

/// Bytes needed to hold `bits` bits.
pub fn bits_to_bytes(bits: usize) -> (r: usize)
    requires
        bits <= usize::MAX - 7,
    ensures
        r == (bits + 7) / 8,
{
    let n: usize = bits + 7;
    assert(n >> 3 == n / 8) by (bit_vector);
    n >> 3
}

/// The byte that sign-extends a value of the given sign.
pub fn get_fill(is_negative: bool) -> (r: u8)
    ensures
        r == fill_byte(is_negative),
{
    if is_negative {
        0xFF
    } else {
        0
    }
}

pub open spec fn fill_byte(is_negative: bool) -> u8 {
    if is_negative {
        0xFFu8
    } else {
        0u8
    }
}

/// `b` with fill bytes put in front until it is `n` bytes long.
pub open spec fn pad_front(b: Seq<u8>, n: nat, fill: u8) -> Seq<u8> {
    if b.len() < n {
        repeat_byte(fill, (n - b.len()) as nat) + b
    } else {
        b
    }
}

/// Widens a big-endian buffer to hold `bits` bits, filling in front with the
/// sign; a buffer that is already long enough is returned as it is.
pub fn extend_buffer_be(bytes: Vec<u8>, bits: usize, is_negative: bool) -> (r: Vec<u8>)
    requires
        bits <= usize::MAX - 7,
    ensures
        r@ == pad_front(bytes@, ((bits + 7) / 8) as nat, fill_byte(is_negative)),
{
    let mut bytes = bytes;
    let new_len = bits_to_bytes(bits);
    if new_len > bytes.len() {
        let fill = get_fill(is_negative);
        let count = new_len - bytes.len();
        let mut new_bytes: Vec<u8> = Vec::new();
        let mut i: usize = 0;
        while i < count
            invariant
                i <= count,
                new_bytes@ == repeat_byte(fill, i as nat),
            decreases count - i,
        {
            new_bytes.push(fill);
            i += 1;
            assert(new_bytes@ =~= repeat_byte(fill, i as nat));
        }
        new_bytes.append(&mut bytes);
        new_bytes
    } else {
        bytes
    }
}

pub(crate) fn push_int_bits(out: &mut Vec<bool>, v: u8, w: usize)
    requires
        old(out)@.len() + w <= usize::MAX,
    ensures
        final(out)@ == old(out)@ + int_bits(v as int, w as nat),
    decreases w,
{
    if w > 0 {
        push_int_bits(out, v / 2, w - 1);
        out.push(v % 2 == 1);
        assert(final(out)@ =~= old(out)@ + int_bits(v as int, w as nat));
    } else {
        assert(final(out)@ =~= old(out)@ + int_bits(v as int, w as nat));
    }
}

/// The bits of a byte string, most significant first.
pub fn bytes_to_bits(b: &Vec<u8>) -> (r: Vec<bool>)
    requires
        b@.len() <= usize::MAX / 8,
    ensures
        r@ == bytes_bits(b@),
{
    let mut out: Vec<bool> = Vec::new();
    let mut i: usize = 0;
    while i < b.len()
        invariant
            i <= b@.len(),
            b@.len() <= usize::MAX / 8,
            out@ == bytes_bits(b@.take(i as int)),
            out@.len() == 8 * i,
        decreases b@.len() - i,
    {
        proof {
            lemma_byte_bits(b@[i as int]);
        }
        push_int_bits(&mut out, b[i], 8);
        assert(b@.take(i + 1).drop_last() =~= b@.take(i as int));
        i += 1;
    }
    assert(b@.take(i as int) =~= b@);
    out
}

/// Packs bits, a whole number of bytes of them, into bytes.
pub fn bits_to_bytes_be(bits: &Vec<bool>) -> (r: Vec<u8>)
    requires
        bits@.len() % 8 == 0,
    ensures
        bytes_bits(r@) == bits@,
        r@.len() == bits@.len() / 8,
{
    let n = bits.len() / 8;
    let mut out: Vec<u8> = Vec::new();
    let mut j: usize = 0;
    assert(bits@.len() <= usize::MAX);
    proof {
        lemma_fundamental_div_mod(bits@.len() as int, 8);
    }
    while j < n
        invariant
            j <= n,
            8 * n == bits@.len(),
            bits@.len() <= usize::MAX,
            n == bits@.len() / 8,
            bits@.len() % 8 == 0,
            out@.len() == j,
            bytes_bits(out@) == bits@.take(8 * j),
        decreases n - j,
    {
        let base = 8 * j;
        let mut x: u8 = 0;
        let mut k: usize = 0;
        proof {
            lemma2_to64();
        }
        while k < 8
            invariant
                k <= 8,
                base == 8 * j,
                j < n,
                8 * n == bits@.len(),
                x as int == bits_value(bits@.subrange(base as int, base + k)),
                x < pow2(k as nat),
            decreases 8 - k,
        {
            proof {
                lemma2_to64();
                let c = bits@.subrange(base as int, base + k + 1);
                assert(c.drop_last() =~= bits@.subrange(base as int, base + k));
            }
            let b: u8 = if bits[base + k] {
                1
            } else {
                0
            };
            x = 2 * x + b;
            k += 1;
        }
        proof {
            let chunk = bits@.subrange(base as int, base + 8);
            lemma_int_bits_of_value(chunk, 0);
            assert(out@.push(x).drop_last() =~= out@);
            assert(bits@.take(8 * (j + 1)) =~= bits@.take(8 * j) + chunk);
        }
        out.push(x);
        j += 1;
    }
    assert(bits@.take(8 * j) =~= bits@);
    out
}

/// The field of width `bits` that holds `value` (big-endian two's complement):
/// its lowest `bits` bits, most significant first.
pub fn signed_int_serialize(value: Vec<u8>, bits: usize) -> (r: Vec<bool>)
    requires
        value@.len() <= 0x1000_0000,
        bits <= 0x1000_0000,
    ensures
        r@ == int_bits(signed_be(value@), bits as nat),
{
    let ghost v = signed_be(value@);
    let ghost orig = value@;
    let neg = value.len() > 0 && value[0] >= 0x80;
    let ext = extend_buffer_be(value, bits, neg);
    let ghost m: nat = (ext@.len() - orig.len()) as nat;
    proof {
        assert(ext@ =~= repeat_byte(fill_byte(neg), m) + orig);
        lemma_bytes_bits_append(repeat_byte(fill_byte(neg), m), orig);
        lemma_fill_bytes(neg, m);
        lemma_bytes_bits_len(orig);
        lemma_bytes_bits_len(ext@);
    }
    let all = bytes_to_bits(&ext);
    let start = all.len() - bits;
    let mut r: Vec<bool> = Vec::new();
    let mut i: usize = start;
    while i < all.len()
        invariant
            start <= i <= all@.len(),
            r@ == all@.subrange(start as int, i as int),
        decreases all@.len() - i,
    {
        r.push(all[i]);
        i += 1;
        assert(r@ =~= all@.subrange(start as int, i as int));
    }
    proof {
        assert(all@ =~= all@.subrange(0, start as int) + r@);
        lemma_sign_extended_value(orig, m);
        lemma_low_bits(all@.subrange(0, start as int), r@, v, if neg {
            1int
        } else {
            0int
        });
    }
    r
}

/// The field of width `bits` that holds the non-negative `value` (big-endian
/// two's complement) in plain binary, its lowest `bits` bits.
pub fn unsigned_int_serialize(value: Vec<u8>, bits: usize) -> (r: Result<Vec<bool>, Error>)
    requires
        value@.len() <= 0x1000_0000,
        bits <= 0x1000_0000,
    ensures
        signed_be(value@) < 0 ==> r == Err::<Vec<bool>, Error>(Error::Negative),
        signed_be(value@) >= 0 ==> r.is_ok() && r.unwrap()@ == int_bits(signed_be(value@), bits as nat),
{
    let neg = value.len() > 0 && value[0] >= 0x80;
    proof {
        lemma_sign_of_bytes(value@);
    }
    if neg {
        return Err(Error::Negative);
    }
    Ok(signed_int_serialize(value, bits))
}

/// `fill` repeated `count` times, then `field`.
fn extend_field(field: &Vec<bool>, count: usize, fill: bool) -> (r: Vec<bool>)
    requires
        field@.len() + count <= usize::MAX,
    ensures
        r@ == repeat_bit(fill, count as nat) + field@,
{
    let mut r: Vec<bool> = Vec::new();
    let mut i: usize = 0;
    while i < count
        invariant
            i <= count,
            r@ == repeat_bit(fill, i as nat),
        decreases count - i,
    {
        r.push(fill);
        i += 1;
        assert(r@ =~= repeat_bit(fill, i as nat));
    }
    let mut j: usize = 0;
    while j < field.len()
        invariant
            j <= field@.len(),
            r@ == repeat_bit(fill, count as nat) + field@.take(j as int),
        decreases field@.len() - j,
    {
        r.push(field[j]);
        j += 1;
        assert(r@ =~= repeat_bit(fill, count as nat) + field@.take(j as int));
    }
    assert(field@.take(j as int) =~= field@);
    r
}

/// Bits that put in front of a field of `n` bits make whole bytes.
fn pad_bits(n: usize) -> (r: usize)
    ensures
        r < 8,
        (n + r) % 8 == 0,
        r as int == 8 * ((n + 7) / 8) - n,
{
    let e = excess_bits(n);
    if e == 0 {
        0
    } else {
        8 - e
    }
}

/// The big-endian two's-complement bytes of the value that a field holds when
/// read as signed; as many bytes as the field spans.
pub fn signed_int_deserialize(field: &Vec<bool>) -> (r: Vec<u8>)
    requires
        field@.len() <= 0x1000_0000,
    ensures
        signed_be(r@) == signed_value(field@),
        r@.len() == (field@.len() + 7) / 8,
{
    if field.len() == 0 {
        let r: Vec<u8> = Vec::new();
        assert(bytes_bits(r@) =~= Seq::<bool>::empty());
        return r;
    }
    let pad = pad_bits(field.len());
    let ext = extend_field(field, pad, field[0]);
    let r = bits_to_bytes_be(&ext);
    proof {
        lemma_sign_extend(field@, pad as nat);
    }
    r
}

/// The big-endian bytes of the value that a field holds when read as unsigned;
/// as many bytes as the field spans.
pub fn unsigned_int_deserialize(field: &Vec<bool>) -> (r: Vec<u8>)
    requires
        field@.len() <= 0x1000_0000,
    ensures
        unsigned_be(r@) == bits_value(field@),
        r@.len() == (field@.len() + 7) / 8,
{
    let pad = pad_bits(field.len());
    let ext = extend_field(field, pad, false);
    let r = bits_to_bytes_be(&ext);
    proof {
        lemma_zero_extend(field@, pad as nat);
    }
    r
}

/// Whether the value of `value` (big-endian two's complement) fits in `w` bits
/// of two's complement.
pub fn fits_signed_bytes(value: &Vec<u8>, w: usize) -> (r: bool)
    requires
        1 <= w,
        value@.len() <= 0x1000_0000,
    ensures
        r == fits_signed(signed_be(value@), w as nat),
{
    let all = bytes_to_bits(value);
    proof {
        lemma_bytes_bits_len(value@);
    }
    if all.len() <= w {
        proof {
            let n = all@.len();
            lemma_pow2_pos((w - 1) as nat);
            if n > 0 {
                lemma_fits_iff_sign_run(all@, n);
                assert(sign_run(all@, 1));
                if n < w {
                    lemma_pow2_strictly_increases((n - 1) as nat, (w - 1) as nat);
                }
            } else {
                assert(signed_value(all@) == 0);
            }
        }
        return true;
    }
    proof {
        lemma_fits_iff_sign_run(all@, w as nat);
    }
    let end = all.len() - w + 1;
    let mut i: usize = 1;
    while i < end
        invariant
            1 <= i <= end,
            end == all@.len() - w + 1,
            1 <= w,
            sign_run(all@, i as int),
            all@ == bytes_bits(value@),
            fits_signed(signed_be(value@), w as nat) <==> sign_run(all@, end as int),
        decreases end - i,
    {
        if all[i] != all[0] {
            assert(!sign_run(all@, end as int)) by {
                assert(all@[i as int] != all@[0]);
            }
            return false;
        }
        i += 1;
    }
    true
}

} // verus!
