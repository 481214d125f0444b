//! Dictionaries: maps from keys of one fixed width in bits to values (slices),
//! stored as a patricia trie of cells. Each trie node starts with a label, the
//! key bits it consumes, in the shortest of three forms; a leaf then holds the
//! value, a fork holds two children, for the next key bit 0 and 1.

use crate::bits::{
    bits_value, int_bits, lemma_bits_value_bounds, lemma_unsigned_round_trip, lemma_value_of_int_bits, repeat_bit,
};
use crate::builder::Builder;
use crate::cell::{dump_cell, dump_text, Cell, CellView, MAX_DATA_BITS, MAX_REFS};
use crate::error::Error;
use crate::slice::Slice;
use vstd::arithmetic::power2::*;
use vstd::prelude::*;
use vstd::string::*;

verus! {

/// Bits needed to write any number up to `m` in plain binary.
pub open spec fn len_bits(m: nat) -> nat
    decreases m,
{
    if m == 0 {
        0
    } else {
        1 + len_bits(m / 2)
    }
}

pub proof fn lemma_len_bits(m: nat)
    ensures
        m < pow2(len_bits(m)),
    decreases m,
{
    lemma2_to64();
    if m > 0 {
        lemma_len_bits(m / 2);
        lemma_pow2_unfold(len_bits(m));
    }
}

/// Whether a value is small enough that any trie node for keys of `n` bits
/// that holds it fits in a cell: its bits after the longest label, and at most
/// four references.
pub open spec fn value_fits(v: CellView, n: nat) -> bool {
    v.bits.len() + n + 2 + len_bits(n) <= MAX_DATA_BITS && v.refs.len() <= MAX_REFS
}

/// Every value of the map is small enough for keys of `n` bits.
pub open spec fn all_values_fit(m: Map<Seq<bool>, CellView>, n: nat) -> bool {
    forall|k: Seq<bool>| m.contains_key(k) ==> value_fits(#[trigger] m[k], n)
}

/// Every value of the entries is small enough for keys of `n` bits.
pub open spec fn values_fit(e: Seq<(Seq<bool>, CellView)>, n: nat) -> bool {
    forall|i: int| 0 <= i < e.len() ==> value_fits(#[trigger] e[i].1, n)
}

proof fn lemma_len_bits_monotone(m: nat, n: nat)
    requires
        m <= n,
    ensures
        len_bits(m) <= len_bits(n),
    decreases n,
{
    if m > 0 {
        lemma_len_bits_monotone(m / 2, n / 2);
    }
}

/// Number of one bits in a row from position `i`.
pub open spec fn ones_from(b: Seq<bool>, i: int) -> nat
    decreases b.len() - i,
{
    if 0 <= i < b.len() && b[i] {
        1 + ones_from(b, i + 1)
    } else {
        0
    }
}

/// Reads a label for keys of `m` bits left at the start of `b`: the label and
/// the number of bits it took, or none if the bits are no label.
pub open spec fn parse_label(b: Seq<bool>, m: nat) -> Option<(Seq<bool>, nat)> {
    let k = len_bits(m) as int;
    if b.len() == 0 {
        None
    } else if !b[0] {
        let l = ones_from(b, 1) as int;
        if 2 + 2 * l <= b.len() && l <= m {
            Some((b.subrange(2 + l, 2 + 2 * l), (2 + 2 * l) as nat))
        } else {
            None
        }
    } else if b.len() < 2 {
        None
    } else if !b[1] {
        if 2 + k <= b.len() {
            let l = bits_value(b.subrange(2, 2 + k));
            if l <= m && 2 + k + l <= b.len() {
                Some((b.subrange(2 + k, 2 + k + l), (2 + k + l) as nat))
            } else {
                None
            }
        } else {
            None
        }
    } else if 3 + k <= b.len() {
        let l = bits_value(b.subrange(3, 3 + k));
        if l <= m {
            Some((repeat_bit(b[2], l as nat), (3 + k) as nat))
        } else {
            None
        }
    } else {
        None
    }
}

/// The short form: `0`, the length in unary (ones, then a zero), the bits.
pub open spec fn short_label(s: Seq<bool>) -> Seq<bool> {
    seq![false] + repeat_bit(true, s.len()) + seq![false] + s
}

/// The long form: `10`, the length in `len_bits(m)` bits, the bits.
pub open spec fn long_label(s: Seq<bool>, m: nat) -> Seq<bool> {
    seq![true, false] + int_bits(s.len() as int, len_bits(m)) + s
}

/// The form for a run of one bit: `11`, the bit, the length in `len_bits(m)` bits.
pub open spec fn same_label(v: bool, l: nat, m: nat) -> Seq<bool> {
    seq![true, true, v] + int_bits(l as int, len_bits(m))
}

pub proof fn lemma_short_label(s: Seq<bool>, m: nat, rest: Seq<bool>)
    requires
        s.len() <= m,
    ensures
        parse_label(short_label(s) + rest, m) == Some((s, (2 + 2 * s.len()) as nat)),
{
    let b = short_label(s) + rest;
    let l = s.len() as int;
    assert forall|i: int| 1 <= i <= l + 1 implies ones_from(b, i) == l + 1 - i by {
        lemma_ones_from(b, i, l + 1);
    }
    assert(b.subrange(2 + l, 2 + 2 * l) =~= s);
}

proof fn lemma_ones_from(b: Seq<bool>, i: int, end: int)
    requires
        1 <= i <= end < b.len(),
        forall|j: int| i <= j < end ==> #[trigger] b[j],
        !b[end],
    ensures
        ones_from(b, i) == end - i,
    decreases end - i,
{
    if i < end {
        lemma_ones_from(b, i + 1, end);
    }
}

pub proof fn lemma_long_label(s: Seq<bool>, m: nat, rest: Seq<bool>)
    requires
        s.len() <= m,
    ensures
        parse_label(long_label(s, m) + rest, m) == Some((s, (2 + len_bits(m) + s.len()) as nat)),
{
    let k = len_bits(m) as int;
    let b = long_label(s, m) + rest;
    lemma_len_bits(m);
    lemma_value_of_int_bits(s.len() as int, k as nat);
    lemma_unsigned_round_trip(s.len() as int, k as nat);
    assert(b.subrange(2, 2 + k) =~= int_bits(s.len() as int, k as nat));
    assert(b.subrange(2 + k, 2 + k + s.len()) =~= s);
}

pub proof fn lemma_same_label(v: bool, l: nat, m: nat, rest: Seq<bool>)
    requires
        l <= m,
    ensures
        parse_label(same_label(v, l, m) + rest, m) == Some((repeat_bit(v, l), 3 + len_bits(m))),
{
    let k = len_bits(m) as int;
    let b = same_label(v, l, m) + rest;
    lemma_len_bits(m);
    lemma_value_of_int_bits(l as int, k as nat);
    lemma_unsigned_round_trip(l as int, k as nat);
    assert(b.subrange(3, 3 + k) =~= int_bits(l as int, k as nat));
}

/// `a` with `p` put in front of every key.
pub open spec fn prefixed(p: Seq<bool>, a: Map<Seq<bool>, CellView>) -> Map<Seq<bool>, CellView> {
    Map::new(
        |k: Seq<bool>| k.len() >= p.len() && k.take(p.len() as int) == p && a.contains_key(k.skip(p.len() as int)),
        |k: Seq<bool>| a[k.skip(p.len() as int)],
    )
}

/// The map that a trie node for keys of `n` bits stands for, or none if the
/// node is malformed.
pub open spec fn trie_map(c: CellView, n: nat) -> Option<Map<Seq<bool>, CellView>>
    decreases c,
{
    match parse_label(c.bits, n) {
        None => None,
        Some((lab, used)) => if lab.len() == n {
            Some(map![lab => CellView { bits: c.bits.skip(used as int), refs: c.refs }])
        } else if c.refs.len() == 2 && used == c.bits.len() {
            let m = (n - lab.len() - 1) as nat;
            match (trie_map(c.refs[0], m), trie_map(c.refs[1], m)) {
                (Some(a), Some(b)) => Some(
                    prefixed(lab.push(false), a).union_prefer_right(prefixed(lab.push(true), b)),
                ),
                _ => None,
            }
        } else {
            None
        },
    }
}

/// The map of a sequence of entries; a later entry for a key wins.
pub open spec fn entries_map(e: Seq<(Seq<bool>, CellView)>) -> Map<Seq<bool>, CellView>
    decreases e.len(),
{
    if e.len() == 0 {
        Map::empty()
    } else {
        entries_map(e.drop_last()).insert(e.last().0, e.last().1)
    }
}

/// No key occurs twice, and every key has `n` bits.
pub open spec fn entries_wf(e: Seq<(Seq<bool>, CellView)>, n: nat) -> bool {
    &&& forall|i: int| 0 <= i < e.len() ==> (#[trigger] e[i]).0.len() == n
    &&& forall|i: int, j: int| 0 <= i < j < e.len() ==> (#[trigger] e[i]).0 != (#[trigger] e[j]).0
}

pub proof fn lemma_entries_map_keys(e: Seq<(Seq<bool>, CellView)>)
    ensures
        forall|k: Seq<bool>| #[trigger] entries_map(e).contains_key(k) <==> exists|i: int| 0 <= i < e.len() && e[i].0 == k,
        entries_map(e).dom().finite(),
    decreases e.len(),
{
    if e.len() > 0 {
        lemma_entries_map_keys(e.drop_last());
        assert forall|k: Seq<bool>| #[trigger] entries_map(e).contains_key(k) implies exists|i: int| 0 <= i < e.len() && e[i].0 == k by {
            if k != e.last().0 {
                let i = choose|i: int| 0 <= i < e.len() - 1 && e.drop_last()[i].0 == k;
                assert(e[i].0 == k);
            } else {
                assert(e[e.len() - 1].0 == k);
            }
        }
        assert forall|k: Seq<bool>| (exists|i: int| 0 <= i < e.len() && e[i].0 == k) implies #[trigger] entries_map(e).contains_key(k) by {
            let i = choose|i: int| 0 <= i < e.len() && e[i].0 == k;
            if i < e.len() - 1 {
                assert(e.drop_last()[i].0 == k);
            }
        }
    }
}

/// In a sequence without repeated keys, each entry's value is the map's value
/// at its key.
pub proof fn lemma_entries_map_values(e: Seq<(Seq<bool>, CellView)>, n: nat)
    requires
        entries_wf(e, n),
    ensures
        forall|i: int| 0 <= i < e.len() ==> #[trigger] entries_map(e)[e[i].0] == e[i].1,
        entries_map(e).len() == e.len(),
    decreases e.len(),
{
    if e.len() > 0 {
        let d = e.drop_last();
        assert(entries_wf(d, n)) by {
            assert forall|i: int, j: int| 0 <= i < j < d.len() implies (#[trigger] d[i]).0 != (#[trigger] d[j]).0 by {
                assert(d[i] == e[i] && d[j] == e[j]);
            }
        }
        lemma_entries_map_values(d, n);
        lemma_entries_map_keys(d);
        assert(!entries_map(d).contains_key(e.last().0)) by {
            if entries_map(d).contains_key(e.last().0) {
                let i = choose|i: int| 0 <= i < d.len() && d[i].0 == e.last().0;
                assert(e[i].0 == e[e.len() - 1].0);
            }
        }
        assert forall|i: int| 0 <= i < e.len() implies #[trigger] entries_map(e)[e[i].0] == e[i].1 by {
            if i < e.len() - 1 {
                assert(d[i] == e[i]);
                assert(e[i].0 != e[e.len() - 1].0);
            }
        }
    }
}

fn len_bits_of(m: usize) -> (r: usize)
    requires
        m <= 0x1000_0000,
    ensures
        r == len_bits(m as nat),
    decreases m,
{
    if m == 0 {
        0
    } else {
        let r = len_bits_of(m / 2);
        proof {
            lemma2_to64();
            lemma_len_bits_le((m / 2) as nat, 29);
        }
        1 + r
    }
}

/// A number below `2^j` needs at most `j` bits.
proof fn lemma_len_bits_le(m: nat, j: nat)
    requires
        m < pow2(j),
    ensures
        len_bits(m) <= j,
    decreases m,
{
    lemma2_to64();
    if m > 0 {
        if j == 0 {
            assert(false);
        }
        lemma_pow2_unfold(j);
        lemma_len_bits_le(m / 2, (j - 1) as nat);
    }
}

fn push_value_bits(out: &mut Vec<bool>, v: usize, w: usize)
    requires
        old(out)@.len() + w <= usize::MAX,
    ensures
        final(out)@ == old(out)@ + int_bits(v as int, w as nat),
    decreases w,
{
    if w > 0 {
        push_value_bits(out, v / 2, w - 1);
        out.push(v % 2 == 1);
        assert(final(out)@ =~= old(out)@ + int_bits(v as int, w as nat));
    } else {
        assert(final(out)@ =~= old(out)@ + int_bits(v as int, w as nat));
    }
}

/// The unsigned value of `b[from..from + w]`.
fn read_value(b: &Vec<bool>, from: usize, w: usize) -> (r: usize)
    requires
        from + w <= b@.len(),
        b@.len() <= 0x1000_0000,
        w <= 30,
    ensures
        r == bits_value(b@.subrange(from as int, from + w)),
{
    let mut acc: usize = 0;
    let mut i: usize = 0;
    while i < w
        invariant
            i <= w,
            w <= 30,
            from + w <= b@.len(),
            b@.len() <= 0x1000_0000,
            acc == bits_value(b@.subrange(from as int, from + i)),
        decreases w - i,
    {
        proof {
            let s = b@.subrange(from as int, from + i + 1);
            assert(s.drop_last() =~= b@.subrange(from as int, from + i));
            lemma_bits_value_bounds(b@.subrange(from as int, from + i));
            lemma_pow2_strictly_increases(i as nat, 30);
            lemma2_to64();
        }
        acc = 2 * acc + if b[from + i] {
            1
        } else {
            0
        };
        i += 1;
    }
    acc
}

/// Reads the label at the start of `bits` for keys of `m` bits left (`parse_label`).
fn read_label(bits: &Vec<bool>, m: usize) -> (r: Option<(Vec<bool>, usize)>)
    requires
        bits@.len() <= 0x1000_0000,
        m <= 0x1000_0000,
    ensures
        match parse_label(bits@, m as nat) {
            None => r is None,
            Some((lab, used)) => r is Some && r.unwrap().0@ == lab && r.unwrap().1 == used,
        },
{
    let n = bits.len();
    let k = len_bits_of(m);
    proof {
        lemma_len_bits(m as nat);
        lemma2_to64();
        lemma_len_bits_le(m as nat, 29);
    }
    if n == 0 {
        return None;
    }
    if !bits[0] {
        let mut i: usize = 1;
        while i < n && bits[i]
            invariant
                1 <= i <= n,
                n == bits@.len(),
                ones_from(bits@, 1) == (i - 1) + ones_from(bits@, i as int),
            decreases n - i,
        {
            i += 1;
        }
        let l = i - 1;
        if 2 + 2 * l <= n && l <= m {
            let mut lab: Vec<bool> = Vec::new();
            let mut j: usize = 2 + l;
            while j < 2 + 2 * l
                invariant
                    2 + l <= j <= 2 + 2 * l,
                    2 + 2 * l <= n,
                    n == bits@.len(),
                    lab@ == bits@.subrange(2 + l, j as int),
                decreases 2 + 2 * l - j,
            {
                lab.push(bits[j]);
                j += 1;
                assert(lab@ =~= bits@.subrange(2 + l, j as int));
            }
            return Some((lab, 2 + 2 * l));
        }
        return None;
    }
    if n < 2 {
        return None;
    }
    if !bits[1] {
        if 2 + k <= n {
            let l = read_value(bits, 2, k);
            if l <= m && 2 + k + l <= n {
                let mut lab: Vec<bool> = Vec::new();
                let mut j: usize = 2 + k;
                while j < 2 + k + l
                    invariant
                        2 + k <= j <= 2 + k + l,
                        2 + k + l <= n,
                        n == bits@.len(),
                        lab@ == bits@.subrange(2 + k, j as int),
                    decreases 2 + k + l - j,
                {
                    lab.push(bits[j]);
                    j += 1;
                    assert(lab@ =~= bits@.subrange(2 + k, j as int));
                }
                return Some((lab, 2 + k + l));
            }
        }
        return None;
    }
    if 3 + k <= n {
        let l = read_value(bits, 3, k);
        if l <= m {
            let v = bits[2];
            let mut lab: Vec<bool> = Vec::new();
            let mut j: usize = 0;
            while j < l
                invariant
                    j <= l,
                    lab@ == repeat_bit(v, j as nat),
                decreases l - j,
            {
                lab.push(v);
                j += 1;
                assert(lab@ =~= repeat_bit(v, j as nat));
            }
            return Some((lab, 3 + k));
        }
    }
    None
}

/// Writes `label` for keys of `m` bits left, in the shortest of the three
/// forms (short, then long, on a tie).
fn write_label(label: &Vec<bool>, m: usize) -> (r: Vec<bool>)
    requires
        label@.len() <= m,
        m <= 0x1000_0000,
    ensures
        forall|rest: Seq<bool>| #[trigger] parse_label(r@ + rest, m as nat) == Some((label@, r@.len())),
        r@.len() <= 2 + len_bits(m as nat) + label@.len(),
{
    let l = label.len();
    let k = len_bits_of(m);
    proof {
        lemma_len_bits(m as nat);
        lemma2_to64();
        lemma_len_bits_le(m as nat, 29);
    }
    let v = l > 0 && label[0];
    let mut same = true;
    let mut i: usize = 0;
    while i < l
        invariant
            i <= l,
            l == label@.len(),
            v == (l > 0 && label@[0]),
            same == (forall|j: int| 0 <= j < i ==> #[trigger] label@[j] == v),
        decreases l - i,
    {
        if label[i] != v {
            same = false;
        }
        i += 1;
    }
    let short_len = 2 + 2 * l;
    let long_len = 2 + k + l;
    let mut out: Vec<bool> = Vec::new();
    if same && 3 + k < short_len && 3 + k < long_len {
        out.push(true);
        out.push(true);
        out.push(v);
        push_value_bits(&mut out, l, k);
        proof {
            assert(label@ =~= repeat_bit(v, l as nat));
            assert(out@ =~= same_label(v, l as nat, m as nat));
            lemma_value_of_int_bits(l as int, k as nat);
            assert forall|rest: Seq<bool>| #[trigger] parse_label(out@ + rest, m as nat) == Some((label@, out@.len())) by {
                lemma_same_label(v, l as nat, m as nat, rest);
            }
        }
    } else if short_len <= long_len {
        out.push(false);
        let mut j: usize = 0;
        while j < l
            invariant
                j <= l,
                out@ == seq![false] + repeat_bit(true, j as nat),
            decreases l - j,
        {
            out.push(true);
            j += 1;
            assert(out@ =~= seq![false] + repeat_bit(true, j as nat));
        }
        out.push(false);
        let mut j: usize = 0;
        while j < l
            invariant
                j <= l,
                l == label@.len(),
                out@ == seq![false] + repeat_bit(true, l as nat) + seq![false] + label@.take(j as int),
            decreases l - j,
        {
            out.push(label[j]);
            j += 1;
            assert(out@ =~= seq![false] + repeat_bit(true, l as nat) + seq![false] + label@.take(j as int));
        }
        proof {
            assert(out@ =~= short_label(label@));
            assert forall|rest: Seq<bool>| #[trigger] parse_label(out@ + rest, m as nat) == Some((label@, out@.len())) by {
                lemma_short_label(label@, m as nat, rest);
            }
        }
    } else {
        out.push(true);
        out.push(false);
        push_value_bits(&mut out, l, k);
        let ghost head = out@;
        let mut j: usize = 0;
        while j < l
            invariant
                j <= l,
                l == label@.len(),
                out@ == head + label@.take(j as int),
            decreases l - j,
        {
            out.push(label[j]);
            j += 1;
            assert(out@ =~= head + label@.take(j as int));
        }
        proof {
            assert(out@ =~= long_label(label@, m as nat));
            lemma_value_of_int_bits(l as int, k as nat);
            assert forall|rest: Seq<bool>| #[trigger] parse_label(out@ + rest, m as nat) == Some((label@, out@.len())) by {
                lemma_long_label(label@, m as nat, rest);
            }
        }
    }
    out
}

/// The entries with `p` put in front of every key.
pub open spec fn prefix_entries(p: Seq<bool>, e: Seq<(Seq<bool>, CellView)>) -> Seq<(Seq<bool>, CellView)> {
    e.map_values(|x: (Seq<bool>, CellView)| (p + x.0, x.1))
}

pub proof fn lemma_prefix_entries(p: Seq<bool>, e: Seq<(Seq<bool>, CellView)>)
    ensures
        entries_map(prefix_entries(p, e)) == prefixed(p, entries_map(e)),
    decreases e.len(),
{
    let pe = prefix_entries(p, e);
    if e.len() == 0 {
        assert(entries_map(pe) =~= prefixed(p, entries_map(e)));
    } else {
        let d = e.drop_last();
        assert(pe.drop_last() =~= prefix_entries(p, d));
        lemma_prefix_entries(p, d);
        let (k, v) = e.last();
        let a = entries_map(d);
        assert forall|x: Seq<bool>| #[trigger] prefixed(p, a.insert(k, v)).contains_key(x) <==> prefixed(
            p,
            a,
        ).insert(p + k, v).contains_key(x) by {
            if x.len() >= p.len() && x.take(p.len() as int) == p && x.skip(p.len() as int) == k {
                assert(x =~= p + k);
            }
            if x == p + k {
                assert(x.take(p.len() as int) =~= p);
                assert(x.skip(p.len() as int) =~= k);
            }
        }
        assert forall|x: Seq<bool>| #[trigger] prefixed(p, a.insert(k, v)).contains_key(x) implies prefixed(
            p,
            a.insert(k, v),
        )[x] == prefixed(p, a).insert(p + k, v)[x] by {
            if x.skip(p.len() as int) == k {
                assert(x =~= p + k);
            }
            if x == p + k {
                assert(x.skip(p.len() as int) =~= k);
            }
        }
        assert(prefixed(p, a.insert(k, v)) =~= prefixed(p, a).insert(p + k, v));
    }
}

pub proof fn lemma_entries_concat(a: Seq<(Seq<bool>, CellView)>, b: Seq<(Seq<bool>, CellView)>)
    ensures
        entries_map(a + b) == entries_map(a).union_prefer_right(entries_map(b)),
    decreases b.len(),
{
    if b.len() == 0 {
        assert(a + b =~= a);
        assert(entries_map(a).union_prefer_right(entries_map(b)) =~= entries_map(a));
    } else {
        assert((a + b).drop_last() =~= a + b.drop_last());
        assert((a + b).last() == b.last());
        lemma_entries_concat(a, b.drop_last());
        assert(entries_map(a + b) =~= entries_map(a).union_prefer_right(entries_map(b)));
    }
}

/// The view of a vector of entries.
pub open spec fn entries_view(v: Seq<(Vec<bool>, Slice)>) -> Seq<(Seq<bool>, CellView)> {
    v.map_values(|e: (Vec<bool>, Slice)| (e.0@, e.1@))
}

/// The entries of the trie node `c` for keys of `n` bits, in key order;
/// `Error::Format` where `trie_map` finds the node malformed.
fn parse_trie(c: &Cell, n: usize) -> (r: Result<Vec<(Vec<bool>, Slice)>, Error>)
    requires
        n <= 0x1000_0000,
    ensures
        match trie_map(c@, n as nat) {
            None => r == Err::<Vec<(Vec<bool>, Slice)>, Error>(Error::Format),
            Some(mp) => r is Ok && entries_map(entries_view(r.unwrap()@)) == mp && entries_wf(
                entries_view(r.unwrap()@),
                n as nat,
            ),
        },
    decreases c@,
{
    c.limits();
    let bits = c.bits();
    let (lab, used) = match read_label(&bits, n) {
        Some(x) => x,
        None => {
            return Err(Error::Format);
        },
    };
    proof {
        lemma_parse_label_used(bits@, n as nat);
    }
    if lab.len() == n {
        let mut s = Slice::new(c.share());
        let _ = s.skip(used);
        let mut out: Vec<(Vec<bool>, Slice)> = Vec::new();
        out.push((lab, s));
        proof {
            let ev = entries_view(out@);
            assert(ev =~= seq![(lab@, s@)]);
            assert(ev.drop_last() =~= Seq::<(Seq<bool>, CellView)>::empty());
            reveal_with_fuel(entries_map, 2);
            assert(entries_map(ev) =~= map![lab@ => s@]);
        }
        return Ok(out);
    }
    if c.references_count() != 2 || used != bits.len() {
        return Err(Error::Format);
    }
    let m = n - lab.len() - 1;
    let left_cell = c.reference(0)?;
    let right_cell = c.reference(1)?;
    assert(decreases_to!(c@ => c@.refs[0]));
    assert(decreases_to!(c@ => c@.refs[1]));
    let left = parse_trie(&left_cell, m)?;
    let right = parse_trie(&right_cell, m)?;
    let mut zero_prefix: Vec<bool> = lab.clone();
    zero_prefix.push(false);
    let mut one_prefix: Vec<bool> = lab.clone();
    one_prefix.push(true);
    let ghost g0 = zero_prefix@;
    let ghost g1 = one_prefix@;
    assert(g0 =~= lab@.push(false));
    assert(g1 =~= lab@.push(true));
    let mut out: Vec<(Vec<bool>, Slice)> = Vec::new();
    append_prefixed(&mut out, &zero_prefix, left);
    let ghost mid = entries_view(out@);
    append_prefixed(&mut out, &one_prefix, right);
    proof {
        let a = entries_view(left@);
        let b = entries_view(right@);
        assert(mid == prefix_entries(g0, a));
        assert(entries_view(out@) == prefix_entries(g0, a) + prefix_entries(g1, b));
        lemma_entries_concat(prefix_entries(g0, a), prefix_entries(g1, b));
        lemma_prefix_entries(g0, a);
        lemma_prefix_entries(g1, b);
        lemma_join_wf(g0, g1, a, b, m as nat);
    }
    Ok(out)
}

proof fn lemma_parse_label_used(b: Seq<bool>, m: nat)
    ensures
        parse_label(b, m) is Some ==> parse_label(b, m).unwrap().1 <= b.len() && parse_label(b, m).unwrap().0.len()
            <= m,
{
    let k = len_bits(m) as int;
    if b.len() >= 3 + k {
        lemma_bits_value_bounds(b.subrange(3, 3 + k));
    }
    if b.len() >= 2 + k {
        lemma_bits_value_bounds(b.subrange(2, 2 + k));
    }
}

/// Entries under two prefixes that differ in their last bit, each without
/// repeated keys of `m` bits, together have no repeated keys.
proof fn lemma_join_wf(
    g0: Seq<bool>,
    g1: Seq<bool>,
    a: Seq<(Seq<bool>, CellView)>,
    b: Seq<(Seq<bool>, CellView)>,
    m: nat,
)
    requires
        g0.len() == g1.len(),
        g0.len() > 0,
        g0.last() != g1.last(),
        entries_wf(a, m),
        entries_wf(b, m),
    ensures
        entries_wf(prefix_entries(g0, a) + prefix_entries(g1, b), g0.len() + m),
{
    let pa = prefix_entries(g0, a);
    let pb = prefix_entries(g1, b);
    let all = pa + pb;
    let q = g0.len() - 1;
    assert forall|i: int, j: int| 0 <= i < j < all.len() implies (#[trigger] all[i]).0 != (#[trigger] all[j]).0 by {
        if j < pa.len() {
            assert(a[i].0 != a[j].0);
            if all[i].0 == all[j].0 {
                assert(all[i].0.skip(g0.len() as int) =~= a[i].0);
                assert(all[j].0.skip(g0.len() as int) =~= a[j].0);
            }
        } else if i >= pa.len() {
            let i2 = i - pa.len();
            let j2 = j - pa.len();
            assert(b[i2].0 != b[j2].0);
            if all[i].0 == all[j].0 {
                assert(all[i].0.skip(g1.len() as int) =~= b[i2].0);
                assert(all[j].0.skip(g1.len() as int) =~= b[j2].0);
            }
        } else {
            assert(all[i].0[q] == g0[q]);
            assert(all[j].0[q] == g1[q]);
        }
    }
}

/// Appends the entries with `p` put in front of every key.
fn append_prefixed(out: &mut Vec<(Vec<bool>, Slice)>, p: &Vec<bool>, entries: Vec<(Vec<bool>, Slice)>)
    ensures
        entries_view(final(out)@) == entries_view(old(out)@) + prefix_entries(p@, entries_view(entries@)),
{
    let ghost start = entries_view(out@);
    let ghost src = entries_view(entries@);
    let mut entries = entries;
    let mut rev: Vec<(Vec<bool>, Slice)> = Vec::new();
    while entries.len() > 0
        invariant
            entries_view(entries@) + entries_view(rev@).reverse() == src,
        decreases entries@.len(),
    {
        let e = entries.pop().unwrap();
        let ghost before = entries_view(rev@);
        rev.push(e);
        assert(entries_view(rev@) =~= before.push((e.0@, e.1@)));
        assert(entries_view(entries@) + entries_view(rev@).reverse() =~= src);
    }
    assert(entries_view(rev@).reverse() =~= src);
    let mut done: usize = 0;
    let total = rev.len();
    while rev.len() > 0
        invariant
            rev@.len() + done == total,
            total == src.len(),
            entries_view(rev@).reverse() == src.skip(done as int),
            entries_view(out@) == start + prefix_entries(p@, src.take(done as int)),
        decreases rev@.len(),
    {
        let ghost before_rev = entries_view(rev@);
        let (k, v) = rev.pop().unwrap();
        assert(before_rev =~= entries_view(rev@).push((k@, v@)));
        assert(src[done as int] == (k@, v@)) by {
            assert(before_rev.reverse()[0] == before_rev[before_rev.len() - 1]);
        }
        let mut key = p.clone();
        let mut t: usize = 0;
        while t < k.len()
            invariant
                t <= k@.len(),
                key@ == p@ + k@.take(t as int),
            decreases k@.len() - t,
        {
            key.push(k[t]);
            t += 1;
            assert(key@ =~= p@ + k@.take(t as int));
        }
        assert(k@.take(t as int) =~= k@);
        let ghost before_out = entries_view(out@);
        out.push((key, v));
        assert(entries_view(out@) =~= before_out.push((key@, v@)));
        done += 1;
        assert(src.take(done as int) =~= src.take(done - 1).push(src[done - 1]));
        assert(prefix_entries(p@, src.take(done as int)) =~= prefix_entries(p@, src.take(done - 1)).push(
            (p@ + k@, v@),
        ));
        assert(entries_view(rev@).reverse() =~= before_rev.reverse().drop_first());
        assert(src.skip(done as int) =~= src.skip(done - 1).drop_first());
    }
    assert(src.take(done as int) =~= src);
}

/// Two sequences of entries without repeated keys that hold the same entries
/// have the same map.
proof fn lemma_same_members(e: Seq<(Seq<bool>, CellView)>, n: nat, f: Seq<(Seq<bool>, CellView)>, m: nat)
    requires
        entries_wf(e, n),
        entries_wf(f, m),
        forall|i: int| 0 <= i < e.len() ==> exists|j: int| 0 <= j < f.len() && #[trigger] f[j] == #[trigger] e[i],
        forall|j: int| 0 <= j < f.len() ==> exists|i: int| 0 <= i < e.len() && #[trigger] e[i] == #[trigger] f[j],
    ensures
        entries_map(e) == entries_map(f),
{
    lemma_entries_map_keys(e);
    lemma_entries_map_keys(f);
    lemma_entries_map_values(e, n);
    lemma_entries_map_values(f, m);
    assert forall|k: Seq<bool>| #[trigger] entries_map(e).contains_key(k) <==> entries_map(f).contains_key(k) by {
        if entries_map(e).contains_key(k) {
            let i = choose|i: int| 0 <= i < e.len() && e[i].0 == k;
            let j = choose|j: int| 0 <= j < f.len() && #[trigger] f[j] == e[i];
            assert(f[j].0 == k);
        }
        if entries_map(f).contains_key(k) {
            let j = choose|j: int| 0 <= j < f.len() && f[j].0 == k;
            let i = choose|i: int| 0 <= i < e.len() && #[trigger] e[i] == f[j];
            assert(e[i].0 == k);
        }
    }
    assert forall|k: Seq<bool>| #[trigger] entries_map(e).contains_key(k) implies entries_map(e)[k] == entries_map(
        f,
    )[k] by {
        let i = choose|i: int| 0 <= i < e.len() && e[i].0 == k;
        let j = choose|j: int| 0 <= j < f.len() && #[trigger] f[j] == e[i];
        assert(entries_map(e)[e[i].0] == e[i].1);
        assert(entries_map(f)[f[j].0] == f[j].1);
    }
    assert(entries_map(e) =~= entries_map(f));
}

fn copy_bits_from(b: &Vec<bool>, from: usize) -> (r: Vec<bool>)
    requires
        from <= b@.len(),
    ensures
        r@ == b@.skip(from as int),
{
    let mut out: Vec<bool> = Vec::new();
    let mut i: usize = from;
    while i < b.len()
        invariant
            from <= i <= b@.len(),
            out@ == b@.subrange(from as int, i as int),
        decreases b@.len() - i,
    {
        out.push(b[i]);
        i += 1;
        assert(out@ =~= b@.subrange(from as int, i as int));
    }
    assert(out@ =~= b@.skip(from as int));
    out
}

/// `l` is a bit position below `n` at which the keys of `ev` do not all agree
/// (entry `d` differs there from the first), and below which they all do.
#[verifier::opaque]
pub open spec fn split_point(ev: Seq<(Seq<bool>, CellView)>, n: nat, l: int, d: int) -> bool {
    &&& 0 <= l < n && 0 <= d < ev.len()
    &&& ev[d].0[l] != ev[0].0[l]
    &&& forall|p: int, i: int| 0 <= p < l && 0 <= i < ev.len() ==> #[trigger] ev[i].0[p] == ev[0].0[p]
}

/// `v0` and `v1` are the entries of `ev` whose key bit `l` is 0 and 1, with the
/// first `l + 1` key bits dropped; `idx0` and `idx1` give their places in `ev`.
#[verifier::opaque]
pub open spec fn split_sides(
    ev: Seq<(Seq<bool>, CellView)>,
    l: int,
    v0: Seq<(Seq<bool>, CellView)>,
    v1: Seq<(Seq<bool>, CellView)>,
    idx0: Seq<int>,
    idx1: Seq<int>,
) -> bool {
    &&& idx0.len() == v0.len()
    &&& idx1.len() == v1.len()
    &&& idx0.len() + idx1.len() == ev.len()
    &&& forall|j: int|
        0 <= j < idx0.len() ==> 0 <= #[trigger] idx0[j] < ev.len() && !ev[idx0[j]].0[l] && v0[j] == (ev[idx0[j]].0.skip(
            l + 1,
        ), ev[idx0[j]].1)
    &&& forall|j: int|
        0 <= j < idx1.len() ==> 0 <= #[trigger] idx1[j] < ev.len() && ev[idx1[j]].0[l] && v1[j] == (ev[idx1[j]].0.skip(
            l + 1,
        ), ev[idx1[j]].1)
    &&& forall|a: int, b: int| 0 <= a < b < idx0.len() ==> #[trigger] idx0[a] < #[trigger] idx0[b]
    &&& forall|a: int, b: int| 0 <= a < b < idx1.len() ==> #[trigger] idx1[a] < #[trigger] idx1[b]
    &&& forall|q: int| 0 <= q < ev.len() ==> (!(#[trigger] ev[q]).0[l] ==> exists|j: int| 0 <= j < idx0.len() && idx0[j] == q)
    &&& forall|q: int| 0 <= q < ev.len() ==> ((#[trigger] ev[q]).0[l] ==> exists|j: int| 0 <= j < idx1.len() && idx1[j] == q)
}

/// The values of the two sides are values of the whole, so they fit for the
/// shorter keys of the sides.
proof fn lemma_values_fit_sides(
    ev: Seq<(Seq<bool>, CellView)>,
    n: nat,
    l: int,
    v0: Seq<(Seq<bool>, CellView)>,
    v1: Seq<(Seq<bool>, CellView)>,
    idx0: Seq<int>,
    idx1: Seq<int>,
)
    requires
        0 <= l < n,
        values_fit(ev, n),
        split_sides(ev, l, v0, v1, idx0, idx1),
        len_bits((n - l - 1) as nat) <= len_bits(n),
    ensures
        values_fit(v0, (n - l - 1) as nat),
        values_fit(v1, (n - l - 1) as nat),
{
    reveal(split_sides);
    assert forall|j: int| 0 <= j < v0.len() implies value_fits(#[trigger] v0[j].1, (n - l - 1) as nat) by {
        assert(value_fits(ev[idx0[j]].1, n));
    }
    assert forall|j: int| 0 <= j < v1.len() implies value_fits(#[trigger] v1[j].1, (n - l - 1) as nat) by {
        assert(value_fits(ev[idx1[j]].1, n));
    }
}

#[verifier::spinoff_prover]
#[verifier::rlimit(60)]
/// Splitting at a split point gives two non-empty sides without repeated keys
/// whose maps, under the label and the split bit, make up the whole map.
proof fn lemma_split_map(
    ev: Seq<(Seq<bool>, CellView)>,
    n: nat,
    l: int,
    d: int,
    lab: Seq<bool>,
    v0: Seq<(Seq<bool>, CellView)>,
    v1: Seq<(Seq<bool>, CellView)>,
    idx0: Seq<int>,
    idx1: Seq<int>,
)
    requires
        entries_wf(ev, n),
        split_point(ev, n, l, d),
        split_sides(ev, l, v0, v1, idx0, idx1),
        ev.len() > 0,
        lab == ev[0].0.take(l),
    ensures
        v0.len() > 0,
        v1.len() > 0,
        v0.len() < ev.len(),
        v1.len() < ev.len(),
        entries_wf(v0, (n - l - 1) as nat),
        entries_wf(v1, (n - l - 1) as nat),
        entries_map(ev) == prefixed(lab.push(false), entries_map(v0)).union_prefer_right(
            prefixed(lab.push(true), entries_map(v1)),
        ),
{
    reveal(split_point);
    reveal(split_sides);
    let k0 = ev[0].0;
    let m = (n - l - 1) as nat;
    let g0 = lab.push(false);
    let g1 = lab.push(true);
    lemma_side_nonempty(ev, idx0, idx1, k0, l, d);
    assert forall|j: int| 0 <= j < idx0.len() implies #[trigger] ev[idx0[j]].0[l] == ev[idx0[0]].0[l] by {}
    assert forall|j: int| 0 <= j < idx1.len() implies #[trigger] ev[idx1[j]].0[l] == ev[idx1[0]].0[l] by {}
    lemma_side_wf(ev, n, idx0, v0, l);
    lemma_side_wf(ev, n, idx1, v1, l);
    let f = prefix_entries(g0, v0) + prefix_entries(g1, v1);
    lemma_entries_concat(prefix_entries(g0, v0), prefix_entries(g1, v1));
    lemma_prefix_entries(g0, v0);
    lemma_prefix_entries(g1, v1);
    lemma_join_wf(g0, g1, v0, v1, m);
    assert(g0.len() + m == n);
    lemma_sides_cover(ev, n, idx0, idx1, v0, v1, lab, k0, l);
    lemma_same_members(ev, n, f, n);
}

/// The entry with value `v` if its key is `k`, else the entry unchanged.
pub open spec fn replace_entry(e: (Seq<bool>, CellView), k: Seq<bool>, v: CellView) -> (Seq<bool>, CellView) {
    if e.0 == k {
        (k, v)
    } else {
        e
    }
}

fn bits_equal(a: &Vec<bool>, b: &Vec<bool>) -> (r: bool)
    ensures
        r == (a@ == b@),
{
    if a.len() != b.len() {
        return false;
    }
    let mut i: usize = 0;
    while i < a.len()
        invariant
            i <= a@.len(),
            a@.len() == b@.len(),
            a@.take(i as int) == b@.take(i as int),
        decreases a@.len() - i,
    {
        if a[i] != b[i] {
            assert(a@[i as int] != b@[i as int]);
            return false;
        }
        i += 1;
        assert(a@.take(i as int) =~= b@.take(i as int));
    }
    assert(a@ =~= a@.take(i as int));
    assert(b@ =~= b@.take(i as int));
    true
}

/// Replacing the entry for `k`, or adding one at the end where there is none,
/// sets `k` to `v` in the map and keeps the keys unrepeated.
proof fn lemma_set_entries(
    ev: Seq<(Seq<bool>, CellView)>,
    n: nat,
    k: Seq<bool>,
    v: CellView,
    replaced: bool,
    next: Seq<(Seq<bool>, CellView)>,
)
    requires
        entries_wf(ev, n),
        k.len() == n,
        replaced <==> exists|j: int| 0 <= j < ev.len() && ev[j].0 == k,
        replaced ==> next.len() == ev.len() && forall|j: int| 0 <= j < ev.len() ==> #[trigger] next[j] == (if ev[j].0 == k {
            (k, v)
        } else {
            ev[j]
        }),
        !replaced ==> next == ev.push((k, v)),
    ensures
        entries_wf(next, n),
        entries_map(next) == entries_map(ev).insert(k, v),
        next.len() > 0,
{
    if replaced {
        let j0 = choose|j: int| 0 <= j < ev.len() && ev[j].0 == k;
        assert forall|i: int| 0 <= i < ev.len() implies #[trigger] next[i] == (if i == j0 {
            (k, v)
        } else {
            ev[i]
        }) by {
            if i != j0 && ev[i].0 == k {
                assert(ev[i].0 == ev[j0].0);
            }
        }
        assert(entries_wf(next, n)) by {
            assert forall|i: int, j: int| 0 <= i < j < next.len() implies (#[trigger] next[i]).0 != (#[trigger] next[j]).0 by {
                assert(next[i].0 == ev[i].0);
                assert(next[j].0 == ev[j].0);
            }
            assert forall|i: int| 0 <= i < next.len() implies (#[trigger] next[i]).0.len() == n by {
                assert(next[i].0 == ev[i].0);
            }
        }
        lemma_entries_map_keys(ev);
        lemma_entries_map_keys(next);
        lemma_entries_map_values(ev, n);
        lemma_entries_map_values(next, n);
        let a = entries_map(next);
        let b = entries_map(ev).insert(k, v);
        assert forall|x: Seq<bool>| #[trigger] a.contains_key(x) <==> b.contains_key(x) by {
            if a.contains_key(x) {
                let i = choose|i: int| 0 <= i < next.len() && next[i].0 == x;
                assert(ev[i].0 == next[i].0);
            }
            if b.contains_key(x) && x != k {
                let i = choose|i: int| 0 <= i < ev.len() && ev[i].0 == x;
                assert(next[i].0 == x);
            }
            if x == k {
                assert(next[j0].0 == k);
            }
        }
        assert forall|x: Seq<bool>| #[trigger] a.contains_key(x) implies a[x] == b[x] by {
            let i = choose|i: int| 0 <= i < next.len() && next[i].0 == x;
            assert(a[next[i].0] == next[i].1);
            if i != j0 {
                assert(entries_map(ev)[ev[i].0] == ev[i].1);
            }
        }
        assert(a =~= b);
    } else {
        assert(next.drop_last() =~= ev);
        assert(entries_wf(next, n)) by {
            assert forall|i: int, j: int| 0 <= i < j < next.len() implies (#[trigger] next[i]).0 != (#[trigger] next[j]).0 by {
                if j == ev.len() {
                    assert(next[i] == ev[i]);
                } else {
                    assert(next[i] == ev[i] && next[j] == ev[j]);
                }
            }
            assert forall|i: int| 0 <= i < next.len() implies (#[trigger] next[i]).0.len() == n by {
                if i < ev.len() {
                    assert(next[i] == ev[i]);
                }
            }
        }
    }
}

/// A leaf for the last `n` bits `key` of a key and the value `value`.
fn make_leaf(key: &Vec<bool>, value: &Slice, n: usize) -> (r: Result<Cell, Error>)
    requires
        key@.len() == n,
        n <= MAX_DATA_BITS,
    ensures
        r is Ok ==> trie_map(r.unwrap()@, n as nat) == Some(map![key@ => value@]),
        r is Err ==> r == Err::<Cell, Error>(Error::Bounds),
        value_fits(value@, n as nat) ==> r is Ok,
{
    let lab = write_label(key, n);
    let mut b = Builder::new();
    b.append_bits(&lab)?;
    b.append_slice(value)?;
    let c = b.finalize();
    proof {
        assert(c@.bits =~= lab@ + value@.bits);
        assert(c@.bits.skip(lab@.len() as int) =~= value@.bits);
        assert(CellView { bits: c@.bits.skip(lab@.len() as int), refs: c@.refs } == value@);
    }
    Ok(c)
}

/// A fork with label `lab` over the tries `left` and `right` of the keys that
/// continue with 0 and with 1.
fn make_fork(lab: &Vec<bool>, left: Cell, right: Cell, n: usize) -> (r: Result<Cell, Error>)
    requires
        lab@.len() < n,
        n <= MAX_DATA_BITS,
        trie_map(left@, (n - lab@.len() - 1) as nat) is Some,
        trie_map(right@, (n - lab@.len() - 1) as nat) is Some,
    ensures
        r is Ok ==> trie_map(r.unwrap()@, n as nat) == Some(
            prefixed(lab@.push(false), trie_map(left@, (n - lab@.len() - 1) as nat).unwrap()).union_prefer_right(
                prefixed(lab@.push(true), trie_map(right@, (n - lab@.len() - 1) as nat).unwrap()),
            ),
        ),
        r is Err ==> r == Err::<Cell, Error>(Error::Bounds),
        n + 2 + len_bits(n as nat) <= MAX_DATA_BITS ==> r is Ok,
{
    let lab_bits = write_label(lab, n);
    let mut b = Builder::new();
    b.append_bits(&lab_bits)?;
    b.append_reference(left)?;
    b.append_reference(right)?;
    let c = b.finalize();
    proof {
        assert(c@.bits =~= lab_bits@ + Seq::<bool>::empty());
        assert(c@.refs =~= seq![left@, right@]);
    }
    Ok(c)
}

/// The first bit position below `n` at which the keys do not all agree, and
/// an entry whose key differs there from the first one.
fn first_split(entries: &Vec<(Vec<bool>, Slice)>, n: usize) -> (r: (usize, usize))
    requires
        entries@.len() >= 2,
        entries_wf(entries_view(entries@), n as nat),
    ensures
        split_point(entries_view(entries@), n as nat, r.0 as int, r.1 as int),
{
    let ghost ev = entries_view(entries@);
    let len = entries.len();
    let k0 = &entries[0].0;
    assert(ev[0] == (entries@[0].0@, entries@[0].1@));
    let mut l: usize = 0;
    let mut d: usize = 0;
    let mut found = false;
    while l < n && !found
        invariant
            l <= n,
            len == entries@.len(),
            len >= 2,
            ev == entries_view(entries@),
            entries_wf(ev, n as nat),
            k0@ == ev[0].0,
            found ==> l < n && d < len && ev[d as int].0[l as int] != k0@[l as int],
            forall|p: int, i: int| 0 <= p < l && 0 <= i < len ==> #[trigger] ev[i].0[p] == k0@[p],
        decreases n - l + (if found { 0int } else { 1int }),
    {
        let mut i: usize = 0;
        while i < len && !found
            invariant
                i <= len,
                l < n,
                len == entries@.len(),
                ev == entries_view(entries@),
                entries_wf(ev, n as nat),
                k0@ == ev[0].0,
                found ==> d < len && ev[d as int].0[l as int] != k0@[l as int],
                !found ==> forall|j: int| 0 <= j < i ==> #[trigger] ev[j].0[l as int] == k0@[l as int],
            decreases len - i + (if found { 0int } else { 1int }),
        {
            assert(ev[i as int] == (entries@[i as int].0@, entries@[i as int].1@));
            if entries[i].0[l] != k0[l] {
                found = true;
                d = i;
            }
            i += 1;
        }
        if !found {
            l += 1;
        }
    }
    if !found {
        proof {
            assert forall|p: int| 0 <= p < n implies ev[1].0[p] == ev[0].0[p] by {
                assert(ev[1].0[p] == k0@[p]);
            }
            assert(ev[1].0 =~= ev[0].0);
        }
    }
    proof {
        reveal(split_point);
    }
    (l, d)
}

/// Splits the entries by their key bit `l`, dropping the first `l + 1` key
/// bits; the ghost sequences give, for each entry of a side, its place in `entries`.
fn split_entries(entries: &Vec<(Vec<bool>, Slice)>, n: usize, l: usize) -> (r: (
    Vec<(Vec<bool>, Slice)>,
    Vec<(Vec<bool>, Slice)>,
    Ghost<Seq<int>>,
    Ghost<Seq<int>>,
))
    requires
        l < n,
        entries_wf(entries_view(entries@), n as nat),
    ensures
        split_sides(entries_view(entries@), l as int, entries_view(r.0@), entries_view(r.1@), r.2@, r.3@),
{
    let ghost ev = entries_view(entries@);
    let len = entries.len();
    let mut e0: Vec<(Vec<bool>, Slice)> = Vec::new();
    let mut e1: Vec<(Vec<bool>, Slice)> = Vec::new();
    let ghost mut idx0: Seq<int> = Seq::empty();
    let ghost mut idx1: Seq<int> = Seq::empty();
    let mut i: usize = 0;
    while i < len
        invariant
            i <= len,
            l < n,
            len == entries@.len(),
            ev == entries_view(entries@),
            entries_wf(ev, n as nat),
            idx0.len() == e0@.len(),
            idx1.len() == e1@.len(),
            idx0.len() + idx1.len() == i,
            forall|j: int|
                0 <= j < idx0.len() ==> 0 <= #[trigger] idx0[j] < i && !ev[idx0[j]].0[l as int] && entries_view(e0@)[j]
                    == (ev[idx0[j]].0.skip(l + 1), ev[idx0[j]].1),
            forall|j: int|
                0 <= j < idx1.len() ==> 0 <= #[trigger] idx1[j] < i && ev[idx1[j]].0[l as int] && entries_view(e1@)[j]
                    == (ev[idx1[j]].0.skip(l + 1), ev[idx1[j]].1),
            forall|a: int, b: int| 0 <= a < b < idx0.len() ==> #[trigger] idx0[a] < #[trigger] idx0[b],
            forall|a: int, b: int| 0 <= a < b < idx1.len() ==> #[trigger] idx1[a] < #[trigger] idx1[b],
            forall|q: int|
                0 <= q < i ==> (!(#[trigger] ev[q]).0[l as int] ==> exists|j: int| 0 <= j < idx0.len() && idx0[j] == q),
            forall|q: int| 0 <= q < i ==> ((#[trigger] ev[q]).0[l as int] ==> exists|j: int| 0 <= j < idx1.len() && idx1[j] == q),
        decreases len - i,
    {
        assert(ev[i as int] == (entries@[i as int].0@, entries@[i as int].1@));
        let key = &entries[i].0;
        let stripped = copy_bits_from(key, l + 1);
        let v = entries[i].1.share();
        let ghost old0 = idx0;
        let ghost old1 = idx1;
        if key[l] {
            let ghost before = entries_view(e1@);
            e1.push((stripped, v));
            proof {
                assert(entries_view(e1@) =~= before.push((stripped@, v@)));
                idx1 = idx1.push(i as int);
                assert(idx1[idx1.len() - 1] == i);
            }
        } else {
            let ghost before = entries_view(e0@);
            e0.push((stripped, v));
            proof {
                assert(entries_view(e0@) =~= before.push((stripped@, v@)));
                idx0 = idx0.push(i as int);
                assert(idx0[idx0.len() - 1] == i);
            }
        }
        proof {
            assert forall|q: int| 0 <= q < i + 1 && !(#[trigger] ev[q]).0[l as int] implies exists|j: int|
                0 <= j < idx0.len() && idx0[j] == q by {
                if q < i {
                    let j = choose|j: int| 0 <= j < old0.len() && old0[j] == q;
                    assert(idx0[j] == q);
                } else {
                    assert(idx0[idx0.len() - 1] == q);
                }
            }
            assert forall|q: int| 0 <= q < i + 1 && (#[trigger] ev[q]).0[l as int] implies exists|j: int|
                0 <= j < idx1.len() && idx1[j] == q by {
                if q < i {
                    let j = choose|j: int| 0 <= j < old1.len() && old1[j] == q;
                    assert(idx1[j] == q);
                } else {
                    assert(idx1[idx1.len() - 1] == q);
                }
            }
        }
        i += 1;
    }
    proof {
        reveal(split_sides);
    }
    (e0, e1, Ghost(idx0), Ghost(idx1))
}

/// The trie node for `entries`, keys of `n` bits; `Error::Bounds` if a node
/// does not fit in a cell.
fn build_trie(entries: &Vec<(Vec<bool>, Slice)>, n: usize) -> (r: Result<Cell, Error>)
    requires
        entries@.len() > 0,
        entries_wf(entries_view(entries@), n as nat),
        n <= MAX_DATA_BITS,
    ensures
        r is Ok ==> trie_map(r.unwrap()@, n as nat) == Some(entries_map(entries_view(entries@))),
        r is Err ==> r == Err::<Cell, Error>(Error::Bounds),
        values_fit(entries_view(entries@), n as nat) ==> r is Ok,
    decreases entries@.len(),
{
    let ghost ev = entries_view(entries@);
    if entries.len() == 1 {
        assert(ev[0] == (entries@[0].0@, entries@[0].1@));
        assert(values_fit(ev, n as nat) ==> value_fits(ev[0].1, n as nat));
        let c = make_leaf(&entries[0].0, &entries[0].1, n)?;
        proof {
            assert(ev.drop_last() =~= Seq::<(Seq<bool>, CellView)>::empty());
            reveal_with_fuel(entries_map, 2);
            assert(entries_map(ev) =~= map![ev[0].0 => ev[0].1]);
        }
        return Ok(c);
    }
    let (l, d) = first_split(entries, n);
    assert(ev[0] == (entries@[0].0@, entries@[0].1@));
    proof {
        reveal(split_point);
        assert(ev[0].0.len() == n);
    }
    let lab = copy_prefix(&entries[0].0, l);
    let (e0, e1, Ghost(idx0), Ghost(idx1)) = split_entries(entries, n, l);
    proof {
        reveal(split_point);
        lemma_split_map(ev, n as nat, l as int, d as int, lab@, entries_view(e0@), entries_view(e1@), idx0, idx1);
    }
    let m = n - l - 1;
    proof {
        if values_fit(ev, n as nat) {
            lemma_len_bits_monotone(m as nat, n as nat);
            lemma_values_fit_sides(ev, n as nat, l as int, entries_view(e0@), entries_view(e1@), idx0, idx1);
            assert(ev[0].1.bits.len() + n + 2 + len_bits(n as nat) <= MAX_DATA_BITS) by {
                assert(value_fits(ev[0].1, n as nat));
            }
        }
    }
    let left = build_trie(&e0, m)?;
    let right = build_trie(&e1, m)?;
    make_fork(&lab, left, right, n)
}

/// Both sides of the split get an entry: the first key's, and the one that
/// differs from it at the split bit.
proof fn lemma_side_nonempty(ev: Seq<(Seq<bool>, CellView)>, idx0: Seq<int>, idx1: Seq<int>, k0: Seq<bool>, l: int, d: int)
    requires
        0 <= d < ev.len(),
        k0 == ev[0].0,
        ev[d].0[l] != k0[l],
        forall|q: int|
            0 <= q < ev.len() ==> (!(#[trigger] ev[q]).0[l] ==> exists|j: int| 0 <= j < idx0.len() && idx0[j] == q),
        forall|q: int| 0 <= q < ev.len() ==> ((#[trigger] ev[q]).0[l] ==> exists|j: int| 0 <= j < idx1.len() && idx1[j] == q),
    ensures
        idx0.len() > 0,
        idx1.len() > 0,
{
    assert(ev[0].0[l] == k0[l]);
    assert(ev[d].0[l] != k0[l]);
}

/// The entries of one side have keys of the remaining width, none repeated.
proof fn lemma_side_wf(ev: Seq<(Seq<bool>, CellView)>, n: nat, idx: Seq<int>, side: Seq<(Seq<bool>, CellView)>, l: int)
    requires
        0 <= l < n,
        entries_wf(ev, n),
        idx.len() == side.len(),
        forall|j: int| 0 <= j < idx.len() ==> 0 <= #[trigger] idx[j] < ev.len() && side[j] == (ev[idx[j]].0.skip(l + 1), ev[idx[j]].1),
        forall|a: int, b: int| 0 <= a < b < idx.len() ==> #[trigger] idx[a] < #[trigger] idx[b],
        forall|p: int, j: int| 0 <= p < l && 0 <= j < ev.len() ==> #[trigger] ev[j].0[p] == ev[0].0[p],
        forall|j: int| 0 <= j < idx.len() ==> #[trigger] ev[idx[j]].0[l] == ev[idx[0]].0[l],
    ensures
        entries_wf(side, (n - l - 1) as nat),
{
    assert forall|j: int| 0 <= j < side.len() implies (#[trigger] side[j]).0.len() == n - l - 1 by {
        assert(ev[idx[j]].0.len() == n);
    }
    assert forall|a: int, b: int| 0 <= a < b < side.len() implies (#[trigger] side[a]).0 != (#[trigger] side[b]).0 by {
        let ka = ev[idx[a]].0;
        let kb = ev[idx[b]].0;
        assert(idx[a] < idx[b]);
        assert(ka != kb);
        if side[a].0 == side[b].0 {
            assert forall|p: int| 0 <= p < n implies ka[p] == kb[p] by {
                if p < l {
                    assert(ka[p] == ev[0].0[p]);
                    assert(kb[p] == ev[0].0[p]);
                } else if p == l {
                    assert(ka[l] == ev[idx[0]].0[l]);
                    assert(kb[l] == ev[idx[0]].0[l]);
                } else {
                    assert(ka[p] == side[a].0[p - l - 1]);
                    assert(kb[p] == side[b].0[p - l - 1]);
                }
            }
            assert(ka =~= kb);
        }
    }
}

/// Every entry appears, under its side's prefix, in the joined sides, and the
/// joined sides hold nothing else.
proof fn lemma_sides_cover(
    ev: Seq<(Seq<bool>, CellView)>,
    n: nat,
    idx0: Seq<int>,
    idx1: Seq<int>,
    v0: Seq<(Seq<bool>, CellView)>,
    v1: Seq<(Seq<bool>, CellView)>,
    lab: Seq<bool>,
    k0: Seq<bool>,
    l: int,
)
    requires
        0 <= l < n,
        ev.len() > 0,
        entries_wf(ev, n),
        lab == k0.take(l),
        k0 == ev[0].0,
        forall|p: int, j: int| 0 <= p < l && 0 <= j < ev.len() ==> #[trigger] ev[j].0[p] == k0[p],
        idx0.len() == v0.len(),
        idx1.len() == v1.len(),
        forall|j: int|
            0 <= j < idx0.len() ==> 0 <= #[trigger] idx0[j] < ev.len() && !ev[idx0[j]].0[l] && v0[j] == (ev[idx0[j]].0.skip(
                l + 1,
            ), ev[idx0[j]].1),
        forall|j: int|
            0 <= j < idx1.len() ==> 0 <= #[trigger] idx1[j] < ev.len() && ev[idx1[j]].0[l] && v1[j] == (ev[idx1[j]].0.skip(
                l + 1,
            ), ev[idx1[j]].1),
        forall|q: int|
            0 <= q < ev.len() ==> (!(#[trigger] ev[q]).0[l] ==> exists|j: int| 0 <= j < idx0.len() && idx0[j] == q),
        forall|q: int| 0 <= q < ev.len() ==> ((#[trigger] ev[q]).0[l] ==> exists|j: int| 0 <= j < idx1.len() && idx1[j] == q),
    ensures
        ({
            let f = prefix_entries(lab.push(false), v0) + prefix_entries(lab.push(true), v1);
            &&& forall|i: int| 0 <= i < ev.len() ==> exists|j: int| 0 <= j < f.len() && #[trigger] f[j] == #[trigger] ev[i]
            &&& forall|j: int| 0 <= j < f.len() ==> exists|i: int| 0 <= i < ev.len() && #[trigger] ev[i] == #[trigger] f[j]
        }),
{
    let g0 = lab.push(false);
    let g1 = lab.push(true);
    let side0 = prefix_entries(g0, v0);
    let side1 = prefix_entries(g1, v1);
    let f = side0 + side1;
    assert forall|q: int| 0 <= q < ev.len() implies (if ev[q].0[l] {
        g1
    } else {
        g0
    }) + ev[q].0.skip(l + 1) == #[trigger] ev[q].0 by {
        let k = ev[q].0;
        let g = if k[l] {
            g1
        } else {
            g0
        };
        assert forall|p: int| 0 <= p < n implies (g + k.skip(l + 1))[p] == k[p] by {
            if p < l {
                assert(k[p] == k0[p]);
            }
        }
        assert(g + k.skip(l + 1) =~= k);
    }
    assert forall|i: int| 0 <= i < ev.len() implies exists|j: int| 0 <= j < f.len() && #[trigger] f[j] == #[trigger] ev[i] by {
        if ev[i].0[l] {
            let j = choose|j: int| 0 <= j < idx1.len() && idx1[j] == i;
            assert(f[side0.len() + j] == side1[j]);
            assert(f[side0.len() + j] == ev[i]);
        } else {
            let j = choose|j: int| 0 <= j < idx0.len() && idx0[j] == i;
            assert(f[j] == side0[j]);
            assert(f[j] == ev[i]);
        }
    }
    assert forall|j: int| 0 <= j < f.len() implies exists|i: int| 0 <= i < ev.len() && #[trigger] ev[i] == #[trigger] f[j] by {
        if j < side0.len() {
            let q = idx0[j];
            assert(ev[q].0[l] == false);
            assert(f[j] == ev[q]);
        } else {
            let q = idx1[j - side0.len()];
            assert(ev[q].0[l] == true);
            assert(f[j] == ev[q]);
        }
    }
}

fn copy_prefix(b: &Vec<bool>, l: usize) -> (r: Vec<bool>)
    requires
        l <= b@.len(),
    ensures
        r@ == b@.take(l as int),
{
    let mut out: Vec<bool> = Vec::new();
    let mut i: usize = 0;
    while i < l
        invariant
            i <= l,
            l <= b@.len(),
            out@ == b@.take(i as int),
        decreases l - i,
    {
        out.push(b[i]);
        i += 1;
        assert(out@ =~= b@.take(i as int));
    }
    out
}

/// The map that the serialized form `s` of a dictionary with keys of `n` bits
/// stands for: a presence bit, then, if it is set, a reference to the root of
/// the trie. None if the form is malformed.
pub open spec fn decoded_map(s: CellView, n: nat) -> Option<Map<Seq<bool>, CellView>> {
    if s.bits.len() == 0 {
        None
    } else if !s.bits[0] {
        Some(Map::empty())
    } else if s.refs.len() == 0 {
        None
    } else {
        trie_map(s.refs[0], n)
    }
}

/// A map from keys of a fixed width to values, kept as its entries and as the
/// root of its trie.
pub struct Dictionary {
    width: usize,
    entries: Vec<(Vec<bool>, Slice)>,
    root: Option<Cell>,
}

impl View for Dictionary {
    type V = Map<Seq<bool>, CellView>;

    closed spec fn view(&self) -> Map<Seq<bool>, CellView> {
        entries_map(entries_view(self.entries@))
    }
}

impl Dictionary {
    #[verifier::type_invariant]
    spec fn inv(self) -> bool {
        &&& self.width <= MAX_DATA_BITS
        &&& entries_wf(entries_view(self.entries@), self.width as nat)
        &&& self.root is None <==> self.entries@.len() == 0
        &&& self.root is Some ==> trie_map(self.root.unwrap()@, self.width as nat) == Some(
            entries_map(entries_view(self.entries@)),
        )
    }

    /// Width of the keys in bits.
    pub closed spec fn width(&self) -> nat {
        self.width as nat
    }

    /// The serialized form (see `serialize`).
    pub closed spec fn serialized(&self) -> CellView {
        match self.root {
            Some(c) => CellView { bits: seq![true], refs: seq![c@] },
            None => CellView { bits: seq![false], refs: Seq::empty() },
        }
    }

    /// An empty dictionary for keys of `width` bits; `Error::Bounds` if no key
    /// of that width fits in a cell.
    pub fn new(width: usize) -> (r: Result<Dictionary, Error>)
        ensures
            width <= MAX_DATA_BITS ==> r.is_ok() && r.unwrap()@ == Map::<Seq<bool>, CellView>::empty()
                && r.unwrap().width() == width,
            width > MAX_DATA_BITS ==> r == Err::<Dictionary, Error>(Error::Bounds),
    {
        if width > MAX_DATA_BITS {
            return Err(Error::Bounds);
        }
        let entries: Vec<(Vec<bool>, Slice)> = Vec::new();
        assert(entries_view(entries@) =~= Seq::<(Seq<bool>, CellView)>::empty());
        Ok(Dictionary { width, entries, root: None })
    }

    /// Width of the keys in bits.
    pub fn bit_len(&self) -> (r: usize)
        ensures
            r == self.width(),
    {
        self.width
    }

    fn find(&self, key: &Vec<bool>) -> (r: Option<usize>)
        ensures
            match r {
                Some(i) => i < self.entries@.len() && entries_view(self.entries@)[i as int].0 == key@,
                None => forall|i: int| 0 <= i < self.entries@.len() ==> #[trigger] entries_view(self.entries@)[i].0 != key@,
            },
    {
        let mut i: usize = 0;
        while i < self.entries.len()
            invariant
                i <= self.entries@.len(),
                forall|j: int| 0 <= j < i ==> #[trigger] entries_view(self.entries@)[j].0 != key@,
            decreases self.entries@.len() - i,
        {
            if bits_equal(&self.entries[i].0, key) {
                return Some(i);
            }
            i += 1;
        }
        None
    }

    /// The value at the key that `key` holds (its bits left to read);
    /// `Error::Bounds` if that is not `width` bits long.
    pub fn get(&self, key: &Slice) -> (r: Result<Option<Slice>, Error>)
        ensures
            key@.bits.len() != self.width() ==> r == Err::<Option<Slice>, Error>(Error::Bounds),
            key@.bits.len() == self.width() ==> r.is_ok() && match r.unwrap() {
                Some(v) => self@.contains_key(key@.bits) && v@ == self@[key@.bits],
                None => !self@.contains_key(key@.bits),
            },
    {
        proof {
            use_type_invariant(self);
        }
        let k = key.bits_left();
        if k.len() != self.width {
            return Err(Error::Bounds);
        }
        proof {
            lemma_entries_map_keys(entries_view(self.entries@));
            lemma_entries_map_values(entries_view(self.entries@), self.width as nat);
        }
        match self.find(&k) {
            Some(i) => {
                assert(entries_view(self.entries@)[i as int] == (self.entries@[i as int].0@, self.entries@[i as int].1@));
                Ok(Some(self.entries[i].1.share()))
            },
            None => Ok(None),
        }
    }

    /// Sets the value at the key that `key` holds (its bits left to read) to
    /// what is left of `value`, replacing any earlier value. `Error::Bounds` if
    /// the key is not `width` bits long or a trie node would not fit in a cell;
    /// then nothing changes.
    pub fn set(&mut self, key: &Slice, value: &Slice) -> (r: Result<(), Error>)
        ensures
            r.is_ok() ==> final(self)@ == old(self)@.insert(key@.bits, value@) && key@.bits.len() == old(self).width(),
            r.is_err() ==> r.unwrap_err() == Error::Bounds && final(self)@ == old(self)@,
            key@.bits.len() != old(self).width() ==> r.is_err(),
            key@.bits.len() == old(self).width() && all_values_fit(old(self)@.insert(key@.bits, value@), old(self).width())
                ==> r.is_ok(),
            final(self).width() == old(self).width(),
    {
        proof {
            use_type_invariant(&*self);
        }
        let k = key.bits_left();
        if k.len() != self.width {
            return Err(Error::Bounds);
        }
        let ghost ev = entries_view(self.entries@);
        let mut next: Vec<(Vec<bool>, Slice)> = Vec::new();
        let mut i: usize = 0;
        let mut replaced = false;
        while i < self.entries.len()
            invariant
                i <= self.entries@.len(),
                ev == entries_view(self.entries@),
                entries_wf(ev, self.width as nat),
                k@.len() == self.width,
                next@.len() == i,
                forall|j: int| 0 <= j < i ==> #[trigger] entries_view(next@)[j] == replace_entry(ev[j], k@, value@),
                replaced <==> exists|j: int| 0 <= j < i && ev[j].0 == k@,
            decreases self.entries@.len() - i,
        {
            assert(ev[i as int] == (self.entries@[i as int].0@, self.entries@[i as int].1@));
            let ghost before = entries_view(next@);
            if bits_equal(&self.entries[i].0, &k) {
                let kc = copy_prefix(&k, k.len());
                assert(kc@ =~= k@);
                let vc = value.share();
                next.push((kc, vc));
                assert(replace_entry(ev[i as int], k@, value@) == (k@, value@));
                assert(entries_view(next@) =~= before.push((kc@, vc@)));
                replaced = true;
            } else {
                let kc = copy_prefix(&self.entries[i].0, self.entries[i].0.len());
                assert(kc@ =~= self.entries@[i as int].0@);
                let vc = self.entries[i].1.share();
                next.push((kc, vc));
                assert(replace_entry(ev[i as int], k@, value@) == ev[i as int]);
                assert(entries_view(next@) =~= before.push((kc@, vc@)));
            }
            i += 1;
        }
        if !replaced {
            let ghost before = entries_view(next@);
            let kc = copy_prefix(&k, k.len());
            assert(kc@ =~= k@);
            next.push((kc, value.share()));
            assert(entries_view(next@) =~= before.push((k@, value@)));
            assert(before =~= ev) by {
                assert forall|j: int| 0 <= j < ev.len() implies before[j] == ev[j] by {
                    assert(ev[j].0 != k@);
                }
            }
        }
        proof {
            lemma_set_entries(ev, self.width as nat, k@, value@, replaced, entries_view(next@));
            let nv = entries_view(next@);
            if all_values_fit(entries_map(nv), self.width as nat) {
                lemma_entries_map_values(nv, self.width as nat);
                lemma_entries_map_keys(nv);
                assert forall|j: int| 0 <= j < nv.len() implies value_fits(#[trigger] nv[j].1, self.width as nat) by {
                    assert(entries_map(nv).contains_key(nv[j].0));
                    assert(entries_map(nv)[nv[j].0] == nv[j].1);
                }
            }
        }
        let root = build_trie(&next, self.width)?;
        *self = Dictionary { width: self.width, entries: next, root: Some(root) };
        Ok(())
    }

    /// Sets the value at the key that `key` holds to a value of no bits and the
    /// one reference `cell` (see `set`).
    pub fn set_ref(&mut self, key: &Slice, cell: Cell) -> (r: Result<(), Error>)
        ensures
            r.is_ok() ==> final(self)@ == old(self)@.insert(
                key@.bits,
                CellView { bits: Seq::empty(), refs: seq![cell@] },
            ) && key@.bits.len() == old(self).width(),
            r.is_err() ==> r.unwrap_err() == Error::Bounds && final(self)@ == old(self)@,
            key@.bits.len() != old(self).width() ==> r.is_err(),
            key@.bits.len() == old(self).width() && all_values_fit(
                old(self)@.insert(key@.bits, CellView { bits: Seq::empty(), refs: seq![cell@] }),
                old(self).width(),
            ) ==> r.is_ok(),
            final(self).width() == old(self).width(),
    {
        let mut b = Builder::new();
        let _ = b.append_reference(cell);
        let value = b.to_slice();
        assert(value@.refs =~= seq![cell@]);
        assert(value@ == CellView { bits: Seq::<bool>::empty(), refs: seq![cell@] });
        self.set(key, &value)
    }

    /// Takes the first `key_bits` bits of what is left of `slice` as the key and
    /// the rest as the value (see `set`); `Error::Bounds` if the slice has fewer
    /// bits.
    pub fn set_from_slice(&mut self, key_bits: usize, slice: &Slice) -> (r: Result<(), Error>)
        ensures
            r.is_ok() ==> key_bits <= slice@.bits.len() && final(self)@ == old(self)@.insert(
                slice@.bits.take(key_bits as int),
                CellView { bits: slice@.bits.skip(key_bits as int), refs: slice@.refs },
            ),
            r.is_err() ==> r.unwrap_err() == Error::Bounds && final(self)@ == old(self)@,
            key_bits > slice@.bits.len() || key_bits != old(self).width() ==> r.is_err(),
            key_bits <= slice@.bits.len() && key_bits == old(self).width() && all_values_fit(
                old(self)@.insert(
                    slice@.bits.take(key_bits as int),
                    CellView { bits: slice@.bits.skip(key_bits as int), refs: slice@.refs },
                ),
                old(self).width(),
            ) ==> r.is_ok(),
            final(self).width() == old(self).width(),
    {
        slice.limits();
        let mut rest = slice.share();
        let key_bits_read = match rest.read_bits(key_bits) {
            Ok(k) => k,
            Err(e) => {
                return Err(e);
            },
        };
        let mut kb = Builder::new();
        let _ = kb.append_bits(&key_bits_read);
        let key = kb.to_slice();
        assert(key@.bits =~= slice@.bits.take(key_bits as int));
        self.set(&key, &rest)
    }

    /// The root of the trie; none for an empty dictionary.
    pub fn cell(&self) -> (r: Option<Cell>)
        ensures
            self@.len() == 0 <==> r is None,
            r is Some ==> trie_map(r.unwrap()@, self.width()) == Some(self@),
    {
        proof {
            use_type_invariant(self);
            lemma_entries_map_values(entries_view(self.entries@), self.width as nat);
        }
        match &self.root {
            Some(c) => Some(c.share()),
            None => None,
        }
    }

    /// Number of keys; `Error::ResourceLimit` if there are more than `limit`.
    pub fn count(&self, limit: usize) -> (r: Result<usize, Error>)
        ensures
            self@.len() <= limit ==> r == Ok::<usize, Error>(self@.len() as usize),
            self@.len() > limit ==> r == Err::<usize, Error>(Error::ResourceLimit),
    {
        proof {
            use_type_invariant(self);
            lemma_entries_map_values(entries_view(self.entries@), self.width as nat);
        }
        if self.entries.len() > limit {
            return Err(Error::ResourceLimit);
        }
        Ok(self.entries.len())
    }

    /// Number of keys.
    pub fn len(&self) -> (r: usize)
        ensures
            r == self@.len(),
    {
        proof {
            use_type_invariant(self);
            lemma_entries_map_values(entries_view(self.entries@), self.width as nat);
        }
        self.entries.len()
    }

    /// The serialized form: a set presence bit and a reference to the root of
    /// the trie, or a single clear bit for an empty dictionary. Read back with
    /// keys of the same width, it stands for the same map.
    pub fn serialize(&self) -> (r: Builder)
        ensures
            r@ == self.serialized(),
            decoded_map(r@, self.width()) == Some(self@),
    {
        proof {
            use_type_invariant(self);
            lemma_entries_map_values(entries_view(self.entries@), self.width as nat);
        }
        let mut b = Builder::new();
        let mut bit: Vec<bool> = Vec::new();
        match &self.root {
            Some(c) => {
                bit.push(true);
                let _ = b.append_bits(&bit);
                let _ = b.append_reference(c.share());
                assert(b@.bits =~= seq![true]);
                assert(b@.refs =~= seq![c@]);
            },
            None => {
                bit.push(false);
                let _ = b.append_bits(&bit);
                assert(b@.bits =~= seq![false]);
                assert(entries_view(self.entries@) =~= Seq::<(Seq<bool>, CellView)>::empty());
                assert(self@ =~= Map::<Seq<bool>, CellView>::empty());
            },
        }
        b
    }

    /// Reads a dictionary for keys of `width` bits from `slice`: a presence
    /// bit, then, if it is set, a reference to the root of the trie, which is
    /// read in full. `Error::Bounds` if the slice runs short or the width is
    /// too large, `Error::Format` if the trie is malformed.
    pub fn deserialize(width: usize, slice: &mut Slice) -> (r: Result<Dictionary, Error>)
        ensures
            r.is_ok() ==> width <= MAX_DATA_BITS && decoded_map(old(slice)@, width as nat) == Some(r.unwrap()@)
                && r.unwrap().width() == width && final(slice)@ == (if old(slice)@.bits[0] {
                CellView { bits: old(slice)@.bits.drop_first(), refs: old(slice)@.refs.drop_first() }
            } else {
                CellView { bits: old(slice)@.bits.drop_first(), refs: old(slice)@.refs }
            }),
            width <= MAX_DATA_BITS && decoded_map(old(slice)@, width as nat) is Some ==> r.is_ok(),
            width > MAX_DATA_BITS ==> r == Err::<Dictionary, Error>(Error::Bounds),
            width <= MAX_DATA_BITS && (old(slice)@.bits.len() == 0 || (old(slice)@.bits[0]
                && old(slice)@.refs.len() == 0)) ==> r == Err::<Dictionary, Error>(Error::Bounds),
            width <= MAX_DATA_BITS && old(slice)@.bits.len() > 0 && old(slice)@.bits[0] && old(slice)@.refs.len() > 0
                && trie_map(old(slice)@.refs[0], width as nat) is None ==> r == Err::<Dictionary, Error>(Error::Format),
    {
        if width > MAX_DATA_BITS {
            return Err(Error::Bounds);
        }
        let ghost s0 = slice@;
        if slice.remaining_bits() == 0 {
            return Err(Error::Bounds);
        }
        if slice.remaining_references() == 0 {
            let peek = slice.share();
            let mut p = peek;
            let b = p.read_bits(1);
            if let Ok(bv) = b {
                if bv[0] {
                    assert(bv@[0] == s0.bits[0]);
                    return Err(Error::Bounds);
                }
            }
        }
        let present = match slice.read_bits(1) {
            Ok(b) => b[0],
            Err(e) => {
                return Err(e);
            },
        };
        assert(s0.bits.skip(1) =~= s0.bits.drop_first());
        if !present {
            let entries: Vec<(Vec<bool>, Slice)> = Vec::new();
            assert(entries_view(entries@) =~= Seq::<(Seq<bool>, CellView)>::empty());
            return Ok(Dictionary { width, entries, root: None });
        }
        let root = match slice.drain_reference() {
            Ok(c) => c,
            Err(e) => {
                return Err(e);
            },
        };
        let entries = parse_trie(&root, width)?;
        if entries.len() == 0 {
            proof {
                assert(entries_view(entries@) =~= Seq::<(Seq<bool>, CellView)>::empty());
                lemma_trie_map_nonempty(root@, width as nat);
            }
            return Err(Error::Format);
        }
        Ok(Dictionary { width, entries, root: Some(root) })
    }

    /// The dump of the trie's root (see `dump_cell`), or `empty dictionary`.
    pub fn dump(&self) -> (r: String)
        ensures
            self@.len() == 0 ==> r@ == seq!['e', 'm', 'p', 't', 'y', ' ', 'd', 'i', 'c', 't', 'i', 'o', 'n', 'a', 'r', 'y'],
            self@.len() > 0 ==> exists|c: CellView|
                trie_map(c, self.width()) == Some(self@) && r@ == dump_text(c, seq!['C'], seq![' ', ' ']),
    {
        proof {
            use_type_invariant(self);
            lemma_entries_map_values(entries_view(self.entries@), self.width as nat);
            reveal_strlit("empty dictionary");
        }
        match &self.root {
            Some(c) => {
                let r = dump_cell(c);
                assert(trie_map(c@, self.width()) == Some(self@) && r@ == dump_text(c@, seq!['C'], seq![' ', ' ']));
                r
            },
            None => {
                let r = String::from_str("empty dictionary");
                assert(r@ =~= seq!['e', 'm', 'p', 't', 'y', ' ', 'd', 'i', 'c', 't', 'i', 'o', 'n', 'a', 'r', 'y']);
                r
            },
        }
    }
}

/// The map after setting, in order, each key of `ops` to its value, starting from `m`.
pub open spec fn after_sets(m: Map<Seq<bool>, CellView>, ops: Seq<(Seq<bool>, CellView)>) -> Map<Seq<bool>, CellView>
    decreases ops.len(),
{
    if ops.len() == 0 {
        m
    } else {
        after_sets(m, ops.drop_last()).insert(ops.last().0, ops.last().1)
    }
}

/// After a sequence of `set` calls, a key holds the value of the last call
/// with that key; a key that no call names keeps what it held before.
pub proof fn lemma_last_set_wins(m: Map<Seq<bool>, CellView>, ops: Seq<(Seq<bool>, CellView)>, k: Seq<bool>)
    ensures
        forall|i: int|
            0 <= i < ops.len() && ops[i].0 == k && (forall|j: int| i < j < ops.len() ==> ops[j].0 != k) ==> after_sets(
                m,
                ops,
            ).contains_key(k) && #[trigger] after_sets(m, ops)[k] == ops[i].1,
        (forall|j: int| 0 <= j < ops.len() ==> ops[j].0 != k) ==> (after_sets(m, ops).contains_key(k) == m.contains_key(
            k,
        ) && after_sets(m, ops)[k] == m[k]),
    decreases ops.len(),
{
    if ops.len() > 0 {
        let d = ops.drop_last();
        lemma_last_set_wins(m, d, k);
        assert forall|i: int|
            0 <= i < ops.len() && ops[i].0 == k && (forall|j: int| i < j < ops.len() ==> ops[j].0 != k) implies after_sets(
                m,
                ops,
            ).contains_key(k) && #[trigger] after_sets(m, ops)[k] == ops[i].1 by {
            if i < ops.len() - 1 {
                assert(ops[ops.len() - 1].0 != k);
                assert(d[i] == ops[i]);
                assert forall|j: int| i < j < d.len() implies d[j].0 != k by {
                    assert(d[j] == ops[j]);
                }
            }
        }
        if forall|j: int| 0 <= j < ops.len() ==> ops[j].0 != k {
            assert forall|j: int| 0 <= j < d.len() implies d[j].0 != k by {
                assert(d[j] == ops[j]);
            }
            assert(ops[ops.len() - 1].0 != k);
        }
    }
}

/// Reading back the serialized form of a dictionary (`serialize`, then
/// `deserialize` with the same width) gives the same map.
pub proof fn lemma_dictionary_round_trip(
    form: CellView,
    width: nat,
    written: Map<Seq<bool>, CellView>,
    read: Map<Seq<bool>, CellView>,
)
    requires
        decoded_map(form, width) == Some(written),
        decoded_map(form, width) == Some(read),
    ensures
        read == written,
{
}

/// A well-formed trie node stands for at least one key.
proof fn lemma_trie_map_nonempty(c: CellView, n: nat)
    requires
        trie_map(c, n) is Some,
    ensures
        exists|k: Seq<bool>| trie_map(c, n).unwrap().contains_key(k),
    decreases c,
{
    let (lab, used) = parse_label(c.bits, n).unwrap();
    if lab.len() == n {
        assert(trie_map(c, n).unwrap().contains_key(lab));
    } else {
        let m = (n - lab.len() - 1) as nat;
        lemma_trie_map_nonempty(c.refs[0], m);
        let a = trie_map(c.refs[0], m).unwrap();
        if exists|k: Seq<bool>| a.contains_key(k) {
            let k = choose|k: Seq<bool>| a.contains_key(k);
            let key = lab.push(false) + k;
            assert(key.take(lab.len() + 1int) =~= lab.push(false));
            assert(key.skip(lab.len() + 1int) =~= k);
            assert(trie_map(c, n).unwrap().contains_key(key));
        }
    }
}

} // verus!
