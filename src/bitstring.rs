//! The hexadecimal text form of a bit string: one digit per four bits, and,
//! when the length is not a multiple of four, a completion mark: a one bit and
//! zero bits pad the last digit, and `_` follows.

use crate::bits::{bits_value, int_bits, lemma_value_of_int_bits, repeat_bit};
use crate::codec::push_int_bits;
use crate::error::Error;
use vstd::arithmetic::power2::*;
use vstd::prelude::*;
use vstd::string::*;

verus! {

pub open spec fn hex_digits() -> Seq<char> {
    seq!['0', '1', '2', '3', '4', '5', '6', '7', '8', '9', 'a', 'b', 'c', 'd', 'e', 'f']
}

/// Value of a hexadecimal digit of either case, or -1 for any other character.
pub open spec fn hex_value(c: char) -> int {
    if c == '0' {
        0
    } else if c == '1' {
        1
    } else if c == '2' {
        2
    } else if c == '3' {
        3
    } else if c == '4' {
        4
    } else if c == '5' {
        5
    } else if c == '6' {
        6
    } else if c == '7' {
        7
    } else if c == '8' {
        8
    } else if c == '9' {
        9
    } else if c == 'a' || c == 'A' {
        10
    } else if c == 'b' || c == 'B' {
        11
    } else if c == 'c' || c == 'C' {
        12
    } else if c == 'd' || c == 'D' {
        13
    } else if c == 'e' || c == 'E' {
        14
    } else if c == 'f' || c == 'F' {
        15
    } else {
        -1
    }
}

/// One digit for each whole group of four bits.
pub open spec fn nibbles_text(p: Seq<bool>) -> Seq<char>
    decreases p.len(),
{
    if p.len() < 4 {
        Seq::empty()
    } else {
        nibbles_text(p.take(p.len() - 4)).push(
            hex_digits()[bits_value(p.skip(p.len() - 4))],
        )
    }
}

/// The bits padded to whole digits: unchanged when the length is a multiple of
/// four, else followed by a one bit and as many zero bits as the digit needs.
pub open spec fn completed(b: Seq<bool>) -> Seq<bool> {
    if b.len() % 4 == 0 {
        b
    } else {
        b.push(true) + repeat_bit(false, (3 - b.len() % 4) as nat)
    }
}

/// The text form of a bit string.
pub open spec fn hex_text(b: Seq<bool>) -> Seq<char> {
    if b.len() % 4 == 0 {
        nibbles_text(b)
    } else {
        nibbles_text(completed(b)).push('_')
    }
}

/// The bits of a string of hexadecimal digits, or none if another character occurs.
pub open spec fn hex_bits(t: Seq<char>) -> Option<Seq<bool>>
    decreases t.len(),
{
    if t.len() == 0 {
        Some(Seq::empty())
    } else {
        match hex_bits(t.drop_last()) {
            Some(b) => if hex_value(t.last()) >= 0 {
                Some(b + int_bits(hex_value(t.last()), 4))
            } else {
                None
            },
            None => None,
        }
    }
}

/// Drops the trailing zero bits and the one bit before them; none if there is no one bit.
pub open spec fn strip_completion(b: Seq<bool>) -> Option<Seq<bool>>
    decreases b.len(),
{
    if b.len() == 0 {
        None
    } else if b.last() {
        Some(b.drop_last())
    } else {
        strip_completion(b.drop_last())
    }
}

/// The bits that a text form stands for, or none if it is malformed.
pub open spec fn parse_text(t: Seq<char>) -> Option<Seq<bool>> {
    if t.len() > 0 && t.last() == '_' {
        match hex_bits(t.drop_last()) {
            Some(raw) => strip_completion(raw),
            None => None,
        }
    } else {
        hex_bits(t)
    }
}

pub(crate) fn hex_digit_str(d: u8) -> (r: &'static str)
    requires
        d < 16,
    ensures
        r@ == seq![hex_digits()[d as int]],
{
    proof {
        reveal_strlit("0");
        reveal_strlit("1");
        reveal_strlit("2");
        reveal_strlit("3");
        reveal_strlit("4");
        reveal_strlit("5");
        reveal_strlit("6");
        reveal_strlit("7");
        reveal_strlit("8");
        reveal_strlit("9");
        reveal_strlit("a");
        reveal_strlit("b");
        reveal_strlit("c");
        reveal_strlit("d");
        reveal_strlit("e");
        reveal_strlit("f");
    }
    let r = match d {
        0 => "0",
        1 => "1",
        2 => "2",
        3 => "3",
        4 => "4",
        5 => "5",
        6 => "6",
        7 => "7",
        8 => "8",
        9 => "9",
        10 => "a",
        11 => "b",
        12 => "c",
        13 => "d",
        14 => "e",
        _ => "f",
    };
    assert(r@ =~= seq![hex_digits()[d as int]]);
    r
}

fn hex_digit_value(c: char) -> (r: i8)
    ensures
        r as int == hex_value(c),
{
    match c {
        '0' => 0,
        '1' => 1,
        '2' => 2,
        '3' => 3,
        '4' => 4,
        '5' => 5,
        '6' => 6,
        '7' => 7,
        '8' => 8,
        '9' => 9,
        'a' | 'A' => 10,
        'b' | 'B' => 11,
        'c' | 'C' => 12,
        'd' | 'D' => 13,
        'e' | 'E' => 14,
        'f' | 'F' => 15,
        _ => -1,
    }
}

/// The text form of `bits`.
pub fn to_hex_string(bits: &Vec<bool>) -> (r: String)
    requires
        bits@.len() <= 0x1000_0000,
    ensures
        r@ == hex_text(bits@),
{
    let mut p: Vec<bool> = Vec::new();
    let mut i: usize = 0;
    while i < bits.len()
        invariant
            i <= bits@.len(),
            p@ == bits@.take(i as int),
        decreases bits@.len() - i,
    {
        p.push(bits[i]);
        i += 1;
        assert(p@ =~= bits@.take(i as int));
    }
    assert(p@ =~= bits@);
    let tail = bits.len() % 4;
    if tail != 0 {
        p.push(true);
        let mut k: usize = tail + 1;
        while k < 4
            invariant
                tail + 1 <= k <= 4,
                tail == bits@.len() % 4,
                p@ == bits@.push(true) + repeat_bit(false, (k - tail - 1) as nat),
            decreases 4 - k,
        {
            p.push(false);
            k += 1;
            assert(p@ =~= bits@.push(true) + repeat_bit(false, (k - tail - 1) as nat));
        }
    }
    assert(p@ == completed(bits@));
    let mut s = String::new();
    let mut j: usize = 0;
    while j + 4 <= p.len()
        invariant
            j <= p@.len(),
            j % 4 == 0,
            p@.len() % 4 == 0,
            p@.len() <= 0x1000_0004,
            s@ == nibbles_text(p@.take(j as int)),
        decreases p@.len() - j,
    {
        let d: u8 = 8 * (p[j] as u8) + 4 * (p[j + 1] as u8) + 2 * (p[j + 2] as u8) + (p[j + 3] as u8);
        proof {
            let q = p@.take(j + 4);
            assert(q.take(q.len() - 4) =~= p@.take(j as int));
            let n = q.skip(q.len() - 4);
            reveal_with_fuel(bits_value, 5);
            assert(n.drop_last().drop_last().drop_last().drop_last() =~= Seq::<bool>::empty());
            assert(bits_value(n) == d);
        }
        s.append(hex_digit_str(d));
        j += 4;
    }
    assert(p@.take(j as int) =~= p@);
    if tail != 0 {
        proof {
            reveal_strlit("_");
        }
        s.append("_");
    }
    s
}

/// The bits that the text form `text` stands for; `Error::Format` where
/// `parse_text` finds it malformed.
pub fn parse_bitstring(text: &str) -> (r: Result<Vec<bool>, Error>)
    requires
        text@.len() <= usize::MAX / 8,
    ensures
        match parse_text(text@) {
            Some(b) => r.is_ok() && r.unwrap()@ == b,
            None => r == Err::<Vec<bool>, Error>(Error::Format),
        },
{
    let n = text.unicode_len();
    let underscore = n > 0 && text.get_char(n - 1) == '_';
    let end: usize = if underscore {
        n - 1
    } else {
        n
    };
    let ghost t = if underscore {
        text@.drop_last()
    } else {
        text@
    };
    assert(t =~= text@.take(end as int));
    let mut out: Vec<bool> = Vec::new();
    let mut i: usize = 0;
    while i < end
        invariant
            i <= end,
            end <= n,
            n == text@.len(),
            n <= usize::MAX / 8,
            underscore == (n > 0 && text@[n - 1] == '_'),
            t == (if underscore {
                text@.drop_last()
            } else {
                text@
            }),
            t == text@.take(end as int),
            hex_bits(t.take(i as int)) == Some(out@),
            out@.len() == 4 * i,
        decreases end - i,
    {
        let d = hex_digit_value(text.get_char(i));
        proof {
            assert(t.take(i + 1).drop_last() =~= t.take(i as int));
            assert(t.take(i + 1).last() == text@[i as int]);
        }
        if d < 0 {
            proof {
                assert(hex_bits(t.take(i + 1)) is None);
                lemma_no_hex_bits(t, (i + 1) as nat);
                assert(hex_bits(t) is None);
                if underscore {
                    assert(text@.last() == '_');
                    assert(text@.drop_last() == t);
                }
                assert(parse_text(text@) is None);
            }
            return Err(Error::Format);
        }
        push_int_bits(&mut out, d as u8, 4);
        proof {
            lemma_value_of_int_bits(d as int, 4);
        }
        i += 1;
    }
    assert(t.take(end as int) =~= t);
    if !underscore {
        return Ok(out);
    }
    let ghost raw = out@;
    while out.len() > 0 && !out[out.len() - 1]
        invariant
            strip_completion(raw) == strip_completion(out@),
        decreases out@.len(),
    {
        out.pop();
    }
    if out.len() == 0 {
        return Err(Error::Format);
    }
    out.pop();
    Ok(out)
}

/// A malformed prefix makes the whole string malformed.
proof fn lemma_no_hex_bits(t: Seq<char>, k: nat)
    requires
        k <= t.len(),
        hex_bits(t.take(k as int)) is None,
    ensures
        hex_bits(t) is None,
    decreases t.len() - k,
{
    if k < t.len() {
        assert(t.take(k + 1int).drop_last() =~= t.take(k as int));
        lemma_no_hex_bits(t, k + 1);
    } else {
        assert(t.take(k as int) =~= t);
    }
}

} // verus!
