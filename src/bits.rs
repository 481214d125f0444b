//! Bit strings as mathematical objects: their unsigned and two's-complement
//! values, the fixed-width encoding of an integer, and the bits of bytes.

use vstd::arithmetic::div_mod::*;
use vstd::arithmetic::power2::*;
use vstd::prelude::*;

verus! {

/// Value of a bit string read as an unsigned binary number, most significant bit first.
pub open spec fn bits_value(s: Seq<bool>) -> int
    decreases s.len(),
{
    if s.len() == 0 {
        0
    } else {
        2 * bits_value(s.drop_last()) + if s.last() {
            1int
        } else {
            0int
        }
    }
}

/// Value of a bit string read as a two's-complement number, most significant bit first.
pub open spec fn signed_value(s: Seq<bool>) -> int {
    if s.len() == 0 {
        0
    } else if s[0] {
        bits_value(s) - pow2(s.len())
    } else {
        bits_value(s)
    }
}

/// The `w` lowest bits of `v` in two's complement, most significant first.
/// For `0 <= v < 2^w` this is the plain binary form of `v`.
pub open spec fn int_bits(v: int, w: nat) -> Seq<bool>
    decreases w,
{
    if w == 0 {
        Seq::empty()
    } else {
        int_bits(v / 2, (w - 1) as nat).push(v % 2 == 1)
    }
}

/// Whether `v` can be written in `w` bits of two's complement.
pub open spec fn fits_signed(v: int, w: nat) -> bool {
    w >= 1 && -pow2((w - 1) as nat) <= v < pow2((w - 1) as nat)
}

/// Whether `v` can be written in `w` bits of plain binary.
pub open spec fn fits_unsigned(v: int, w: nat) -> bool {
    0 <= v < pow2(w)
}

pub proof fn lemma_bit_div_mod(x: int, b: bool)
    ensures
        (2 * x + if b { 1int } else { 0int }) / 2 == x,
        (2 * x + if b { 1int } else { 0int }) % 2 == if b { 1int } else { 0int },
{
    let r: int = if b { 1 } else { 0 };
    lemma_fundamental_div_mod_converse(2 * x + r, 2, x, r);
}

/// Concatenation multiplies the value of the front by a power of two.
pub proof fn lemma_bits_value_append(a: Seq<bool>, b: Seq<bool>)
    ensures
        bits_value(a + b) == bits_value(a) * pow2(b.len()) + bits_value(b),
    decreases b.len(),
{
    lemma2_to64();
    if b.len() == 0 {
        assert(a + b =~= a);
    } else {
        let b0 = b.drop_last();
        assert((a + b).drop_last() =~= a + b0);
        assert((a + b).last() == b.last());
        lemma_bits_value_append(a, b0);
        assert(pow2(b.len()) == 2 * pow2(b0.len())) by {
            lemma_pow2_unfold(b.len());
        }
        assert(bits_value(a) * pow2(b.len()) == 2 * (bits_value(a) * pow2(b0.len()))) by (nonlinear_arith)
            requires
                pow2(b.len()) == 2 * pow2(b0.len()),
        ;
    }
}

/// The unsigned value of `n` bits lies in `[0, 2^n)`.
pub proof fn lemma_bits_value_bounds(s: Seq<bool>)
    ensures
        0 <= bits_value(s) < pow2(s.len()),
    decreases s.len(),
{
    lemma2_to64();
    if s.len() > 0 {
        lemma_bits_value_bounds(s.drop_last());
        lemma_pow2_unfold(s.len());
    }
}

/// Reading a bit string back through `int_bits` gives the string itself, whatever
/// multiple of `2^n` is added to its value.
pub proof fn lemma_int_bits_of_value(s: Seq<bool>, c: int)
    ensures
        int_bits(bits_value(s) + c * pow2(s.len()), s.len()) == s,
    decreases s.len(),
{
    lemma2_to64();
    if s.len() == 0 {
        assert(int_bits(bits_value(s) + c * pow2(s.len()), s.len()) =~= s);
    } else {
        let t = s.drop_last();
        let x = bits_value(t) + c * pow2(t.len());
        lemma_pow2_unfold(s.len());
        assert(c * pow2(s.len()) == 2 * (c * pow2(t.len()))) by (nonlinear_arith)
            requires
                pow2(s.len()) == 2 * pow2(t.len()),
        ;
        assert(bits_value(s) + c * pow2(s.len()) == 2 * x + if s.last() {
            1int
        } else {
            0int
        });
        lemma_bit_div_mod(x, s.last());
        lemma_int_bits_of_value(t, c);
        assert(s =~= t.push(s.last()));
    }
}

/// `int_bits(v, w)` holds the remainder of `v` by `2^w`.
pub proof fn lemma_value_of_int_bits(v: int, w: nat)
    ensures
        bits_value(int_bits(v, w)) == v % (pow2(w) as int),
        int_bits(v, w).len() == w,
    decreases w,
{
    lemma2_to64();
    if w == 0 {
        lemma_mod_self_0(1);
        assert(v % 1 == 0);
    } else {
        let p = pow2((w - 1) as nat) as int;
        lemma_pow2_pos((w - 1) as nat);
        lemma_pow2_unfold(w);
        lemma_value_of_int_bits(v / 2, (w - 1) as nat);
        assert(int_bits(v, w).drop_last() =~= int_bits(v / 2, (w - 1) as nat));
        lemma_fundamental_div_mod(v, 2);
        lemma_fundamental_div_mod(v / 2, p);
        lemma_mod_bound(v, 2);
        lemma_mod_bound(v / 2, p);
        let q = (v / 2) / p;
        let r = 2 * ((v / 2) % p) + v % 2;
        assert(v == 2 * (p * q + (v / 2) % p) + v % 2);
        assert(v == (2 * p) * q + r) by (nonlinear_arith)
            requires
                v == 2 * (p * q + (v / 2) % p) + v % 2,
                r == 2 * ((v / 2) % p) + v % 2,
        ;
        lemma_fundamental_div_mod_converse(v, 2 * p, q, r);
    }
}

/// The first bit of a non-empty string decides whether its value reaches half its range.
pub proof fn lemma_first_bit(s: Seq<bool>)
    requires
        s.len() > 0,
    ensures
        bits_value(s) == (if s[0] {
            pow2((s.len() - 1) as nat) as int
        } else {
            0int
        }) + bits_value(s.drop_first()),
        0 <= bits_value(s.drop_first()) < pow2((s.len() - 1) as nat),
        s[0] <==> bits_value(s) >= pow2((s.len() - 1) as nat),
{
    let first = seq![s[0]];
    let rest = s.drop_first();
    assert(s =~= first + rest);
    lemma_bits_value_append(first, rest);
    lemma_bits_value_bounds(rest);
    reveal_with_fuel(bits_value, 2);
    assert(first.drop_last() =~= Seq::<bool>::empty());
    assert(bits_value(first) == if s[0] {
        1int
    } else {
        0int
    });
    assert(rest.len() == s.len() - 1);
    assert(bits_value(s) == bits_value(first) * pow2(rest.len()) + bits_value(rest));
    assert(pow2(rest.len()) == pow2((s.len() - 1) as nat));
    if s[0] {
        assert(bits_value(first) * pow2(rest.len()) == pow2(rest.len()));
    } else {
        assert(bits_value(first) * pow2(rest.len()) == 0);
    }
}

/// A run of `k` copies of one bit.
pub open spec fn repeat_bit(b: bool, k: nat) -> Seq<bool> {
    Seq::new(k, |i: int| b)
}

pub proof fn lemma_repeat_value(b: bool, k: nat)
    ensures
        bits_value(repeat_bit(b, k)) == if b {
            pow2(k) - 1
        } else {
            0int
        },
    decreases k,
{
    lemma2_to64();
    if k > 0 {
        assert(repeat_bit(b, k).drop_last() =~= repeat_bit(b, (k - 1) as nat));
        lemma_repeat_value(b, (k - 1) as nat);
        lemma_pow2_unfold(k);
    }
}

/// Copying the sign bit to the front keeps the two's-complement value.
pub proof fn lemma_sign_extend(s: Seq<bool>, k: nat)
    requires
        s.len() > 0,
    ensures
        signed_value(repeat_bit(s[0], k) + s) == signed_value(s),
{
    let e = repeat_bit(s[0], k);
    lemma_bits_value_append(e, s);
    lemma_repeat_value(s[0], k);
    lemma_pow2_adds(k, s.len());
    if k > 0 {
        assert((e + s)[0] == s[0]);
    } else {
        assert(e + s =~= s);
    }
    let pk = pow2(k) as int;
    let pn = pow2(s.len()) as int;
    assert((pk - 1) * pn == pk * pn - pn) by (nonlinear_arith);
}

/// Leading zero bits do not change the unsigned value.
pub proof fn lemma_zero_extend(s: Seq<bool>, k: nat)
    ensures
        bits_value(repeat_bit(false, k) + s) == bits_value(s),
{
    lemma_bits_value_append(repeat_bit(false, k), s);
    lemma_repeat_value(false, k);
}

/// Two's-complement encoding in `w` bits and signed decoding are inverse on
/// every value that fits.
pub proof fn lemma_signed_round_trip(v: int, w: nat)
    requires
        fits_signed(v, w),
    ensures
        signed_value(int_bits(v, w)) == v,
{
    let s = int_bits(v, w);
    lemma_value_of_int_bits(v, w);
    lemma_pow2_unfold(w);
    lemma_pow2_pos((w - 1) as nat);
    lemma_first_bit(s);
    if v >= 0 {
        lemma_fundamental_div_mod_converse(v, pow2(w) as int, 0, v);
        assert(bits_value(s) == v);
    } else {
        lemma_fundamental_div_mod_converse(v, pow2(w) as int, -1, v + pow2(w));
        assert(bits_value(s) == v + pow2(w));
    }
}

/// Whether the first `k` bits of `s` all equal its first bit.
pub open spec fn sign_run(s: Seq<bool>, k: int) -> bool {
    forall|i: int| 0 <= i < k ==> #[trigger] s[i] == s[0]
}

/// A two's-complement string of `n >= w` bits holds a value that fits in `w`
/// bits exactly when its first `n - w + 1` bits are all equal.
pub proof fn lemma_fits_iff_sign_run(s: Seq<bool>, w: nat)
    requires
        1 <= w <= s.len(),
    ensures
        fits_signed(signed_value(s), w) <==> sign_run(s, s.len() - w + 1),
    decreases s.len() - w,
{
    let n = s.len();
    lemma_first_bit(s);
    lemma_pow2_unfold(n);
    lemma_pow2_pos((n - 1) as nat);
    if n == w {
        assert(sign_run(s, 1));
    } else {
        let t = s.drop_first();
        lemma_pow2_unfold((n - 1) as nat);
        lemma_pow2_pos((n - 2) as nat);
        lemma_first_bit(t);
        if w < n - 1 {
            lemma_pow2_strictly_increases((w - 1) as nat, (n - 2) as nat);
        }
        if s[0] == s[1] {
            assert(s =~= repeat_bit(t[0], 1) + t);
            lemma_sign_extend(t, 1);
            lemma_fits_iff_sign_run(t, w);
            if sign_run(t, t.len() - w + 1) {
                assert forall|i: int| 0 <= i < n - w + 1 implies #[trigger] s[i] == s[0] by {
                    if i > 0 {
                        assert(s[i] == t[i - 1]);
                    }
                }
            }
            if sign_run(s, n - w + 1) {
                assert forall|i: int| 0 <= i < t.len() - w + 1 implies #[trigger] t[i] == t[0] by {
                    assert(t[i] == s[i + 1]);
                }
            }
        } else {
            assert(!sign_run(s, n - w + 1)) by {
                assert(s[1] != s[0]);
            }
            assert(t[0] == s[1]);
        }
    }
}

/// Plain binary encoding in `w` bits and unsigned decoding are inverse on every
/// value that fits.
pub proof fn lemma_unsigned_round_trip(v: int, w: nat)
    requires
        fits_unsigned(v, w),
    ensures
        bits_value(int_bits(v, w)) == v,
{
    lemma_value_of_int_bits(v, w);
    lemma_small_mod(v as nat, pow2(w));
}

/// The eight bits of a byte, most significant first.
pub open spec fn byte_bits(x: u8) -> Seq<bool> {
    int_bits(x as int, 8)
}

/// The bits of a byte string, each byte most significant bit first.
pub open spec fn bytes_bits(b: Seq<u8>) -> Seq<bool>
    decreases b.len(),
{
    if b.len() == 0 {
        Seq::empty()
    } else {
        bytes_bits(b.drop_last()) + byte_bits(b.last())
    }
}

/// Value of a big-endian two's-complement byte string (the empty string is zero).
pub open spec fn signed_be(b: Seq<u8>) -> int {
    signed_value(bytes_bits(b))
}

/// Value of a big-endian unsigned byte string.
pub open spec fn unsigned_be(b: Seq<u8>) -> int {
    bits_value(bytes_bits(b))
}

pub proof fn lemma_byte_bits(x: u8)
    ensures
        byte_bits(x).len() == 8,
        bits_value(byte_bits(x)) == x as int,
        byte_bits(x)[0] <==> x >= 128,
{
    lemma2_to64();
    lemma_value_of_int_bits(x as int, 8);
    lemma_small_mod(x as nat, 256);
    lemma_first_bit(byte_bits(x));
}

pub proof fn lemma_bytes_bits_len(b: Seq<u8>)
    ensures
        bytes_bits(b).len() == 8 * b.len(),
    decreases b.len(),
{
    if b.len() > 0 {
        lemma_bytes_bits_len(b.drop_last());
        lemma_byte_bits(b.last());
    }
}

pub proof fn lemma_bytes_bits_append(a: Seq<u8>, b: Seq<u8>)
    ensures
        bytes_bits(a + b) == bytes_bits(a) + bytes_bits(b),
    decreases b.len(),
{
    if b.len() == 0 {
        assert(a + b =~= a);
        assert(bytes_bits(a) + bytes_bits(b) =~= bytes_bits(a));
    } else {
        assert((a + b).drop_last() =~= a + b.drop_last());
        assert((a + b).last() == b.last());
        lemma_bytes_bits_append(a, b.drop_last());
        assert(bytes_bits(a + b) =~= bytes_bits(a) + bytes_bits(b));
    }
}

/// The sign of a byte string is the top bit of its first byte.
pub proof fn lemma_bytes_sign(b: Seq<u8>)
    requires
        b.len() > 0,
    ensures
        bytes_bits(b).len() > 0,
        bytes_bits(b)[0] <==> b[0] >= 128,
{
    let first = seq![b[0]];
    assert(b =~= first + b.drop_first());
    lemma_bytes_bits_append(first, b.drop_first());
    assert(first.drop_last() =~= Seq::<u8>::empty());
    reveal_with_fuel(bytes_bits, 2);
    assert(bytes_bits(first) =~= byte_bits(b[0]));
    lemma_byte_bits(b[0]);
}

/// A run of `m` copies of one byte.
pub open spec fn repeat_byte(x: u8, m: nat) -> Seq<u8> {
    Seq::new(m, |i: int| x)
}

/// A run of all-zero or all-one bytes is the same run of bits.
pub proof fn lemma_fill_bytes(neg: bool, m: nat)
    ensures
        bytes_bits(repeat_byte(if neg { 0xFFu8 } else { 0u8 }, m)) == repeat_bit(neg, 8 * m),
    decreases m,
{
    let x: u8 = if neg { 0xFF } else { 0 };
    if m == 0 {
        assert(bytes_bits(repeat_byte(x, m)) =~= repeat_bit(neg, 8 * m));
    } else {
        assert(repeat_byte(x, m).drop_last() =~= repeat_byte(x, (m - 1) as nat));
        lemma_fill_bytes(neg, (m - 1) as nat);
        lemma_byte_bits(x);
        lemma_int_bits_of_value(repeat_bit(neg, 8), 0);
        lemma_repeat_value(neg, 8);
        lemma2_to64();
        assert(byte_bits(x) =~= repeat_bit(neg, 8));
        assert(bytes_bits(repeat_byte(x, m)) =~= repeat_bit(neg, 8 * m));
    }
}

/// Sign-extending a byte string by `m` bytes adds a multiple of `2^n` to the
/// unsigned value of its `n` bits, over its signed value.
pub proof fn lemma_sign_extended_value(b: Seq<u8>, m: nat)
    ensures
        ({
            let neg = b.len() > 0 && b[0] >= 128;
            let all = bytes_bits(repeat_byte(if neg { 0xFFu8 } else { 0u8 }, m) + b);
            bits_value(all) == signed_be(b) + (if neg {
                1int
            } else {
                0int
            }) * pow2(all.len())
        }),
{
    let neg = b.len() > 0 && b[0] >= 128;
    let fill = repeat_byte(if neg { 0xFFu8 } else { 0u8 }, m);
    let s = bytes_bits(b);
    let f = repeat_bit(neg, 8 * m);
    lemma_bytes_bits_append(fill, b);
    lemma_fill_bytes(neg, m);
    let all = f + s;
    if b.len() > 0 {
        lemma_bytes_sign(b);
    } else {
        assert(s =~= Seq::<bool>::empty());
    }
    lemma_bits_value_append(f, s);
    lemma_repeat_value(neg, 8 * m);
    lemma_pow2_adds(8 * m, s.len());
    let pf = pow2(8 * m) as int;
    let ps = pow2(s.len()) as int;
    assert((pf - 1) * ps == pf * ps - ps) by (nonlinear_arith);
    assert(all.len() == 8 * m + s.len());
}

/// The low `w` bits of a string whose value is `v` plus a multiple of its range
/// are the `w`-bit encoding of `v`.
pub proof fn lemma_low_bits(pre: Seq<bool>, r: Seq<bool>, v: int, c0: int)
    requires
        bits_value(pre + r) == v + c0 * pow2((pre + r).len()),
    ensures
        r == int_bits(v, r.len()),
{
    let k = (pre + r).len();
    let w = r.len();
    lemma_bits_value_append(pre, r);
    lemma_pow2_adds(pre.len(), w);
    let pw = pow2(w) as int;
    let pp = pow2(pre.len()) as int;
    let c = c0 * pp - bits_value(pre);
    assert(bits_value(r) == v + c * pw) by (nonlinear_arith)
        requires
            bits_value(pre + r) == v + c0 * (pp * pw),
            bits_value(pre + r) == bits_value(pre) * pw + bits_value(r),
            c == c0 * pp - bits_value(pre),
    ;
    lemma_int_bits_of_value(r, -c);
    assert(bits_value(r) + (-c) * pw == v) by (nonlinear_arith)
        requires
            bits_value(r) == v + c * pw,
    ;
}

/// A byte string is negative exactly when its first byte has the top bit set.
pub proof fn lemma_sign_of_bytes(b: Seq<u8>)
    ensures
        signed_be(b) < 0 <==> (b.len() > 0 && b[0] >= 128),
{
    if b.len() > 0 {
        lemma_bytes_sign(b);
        let s = bytes_bits(b);
        lemma_first_bit(s);
        lemma_bits_value_bounds(s);
        lemma_pow2_unfold(s.len());
    } else {
        assert(bytes_bits(b) =~= Seq::<bool>::empty());
    }
}

} // verus!
