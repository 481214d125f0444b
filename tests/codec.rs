use ever_playground::builder::Builder;
use ever_playground::codec::{bits_to_bytes, excess_bits, extend_buffer_be, get_fill, fits_signed_bytes};
use ever_playground::error::Error;
use ever_playground::slice::Slice;
use num_bigint::BigInt;

fn bytes_of(v: &BigInt) -> Vec<u8> {
    v.to_signed_bytes_be()
}

fn round_trip_signed(width: usize, v: &BigInt) -> BigInt {
    let mut b = Builder::new();
    b.append_int(width, bytes_of(v)).unwrap();
    let mut s = Slice::new(b.finalize());
    let out = s.read_int(width).unwrap();
    assert_eq!(s.remaining_bits(), 0);
    BigInt::from_signed_bytes_be(&out)
}

fn round_trip_unsigned(width: usize, v: &BigInt) -> BigInt {
    let mut b = Builder::new();
    b.append_int(width, bytes_of(v)).unwrap();
    let mut s = Slice::new(b.finalize());
    let out = s.read_uint(width).unwrap();
    BigInt::from_bytes_be(num_bigint::Sign::Plus, &out)
}

#[test]
fn signed_round_trip_over_widths() {
    for w in 1..=256usize {
        let half: BigInt = BigInt::from(1) << (w - 1);
        let candidates = vec![
            BigInt::from(0),
            -half.clone(),
            half.clone() - 1,
            if w > 1 { BigInt::from(-1) } else { BigInt::from(0) },
            if w > 2 { BigInt::from(1) } else { BigInt::from(0) },
            if w > 8 { BigInt::from(-200) } else { BigInt::from(0) },
        ];
        for v in candidates {
            assert_eq!(round_trip_signed(w, &v), v, "width {}", w);
        }
    }
}

#[test]
fn unsigned_round_trip_over_widths() {
    for w in 1..=256usize {
        let top: BigInt = (BigInt::from(1) << w) - 1;
        for v in vec![BigInt::from(0), top.clone(), top >> 1] {
            assert_eq!(round_trip_unsigned(w, &v), v, "width {}", w);
        }
    }
}

#[test]
fn int_field_bits_are_exact() {
    let mut b = Builder::new();
    b.append_int(4, vec![0xFF]).unwrap(); // -1 in four bits
    b.append_int(12, vec![0x0A, 0xBC]).unwrap();
    let mut s = Slice::new(b.finalize());
    assert_eq!(s.read_bits(16).unwrap(), vec![
        true, true, true, true, true, false, true, false, true, false, true, true, true, true, false, false
    ]);
}

#[test]
fn out_of_range_value_keeps_low_bits() {
    let mut b = Builder::new();
    b.append_int(8, vec![0x01, 0x23]).unwrap();
    let mut s = Slice::new(b.finalize());
    assert_eq!(s.read_uint(8).unwrap(), vec![0x23]);
}

#[test]
fn zero_width_is_rejected() {
    let mut b = Builder::new();
    assert_eq!(b.append_int(0, vec![1]), Err(Error::ZeroWidth));
    assert_eq!(b.to_slice().remaining_bits(), 0);
}

#[test]
fn overflowing_int_is_rejected_without_change() {
    let mut b = Builder::new();
    b.append_int(1000, vec![1]).unwrap();
    assert_eq!(b.append_int(24, vec![1]), Err(Error::Bounds));
    assert_eq!(b.to_slice().remaining_bits(), 1000);
    b.append_int(23, vec![1]).unwrap();
    assert_eq!(b.to_slice().remaining_bits(), 1023);
}

#[test]
fn helpers_on_sizes() {
    assert_eq!(excess_bits(0), 0);
    assert_eq!(excess_bits(13), 5);
    assert_eq!(bits_to_bytes(0), 0);
    assert_eq!(bits_to_bytes(1), 1);
    assert_eq!(bits_to_bytes(8), 1);
    assert_eq!(bits_to_bytes(9), 2);
    assert_eq!(get_fill(true), 0xFF);
    assert_eq!(get_fill(false), 0);
    assert_eq!(extend_buffer_be(vec![0x80], 20, true), vec![0xFF, 0xFF, 0x80]);
    assert_eq!(extend_buffer_be(vec![0x01], 17, false), vec![0, 0, 0x01]);
    assert_eq!(extend_buffer_be(vec![1, 2, 3, 4], 8, false), vec![1, 2, 3, 4]);
}

#[test]
fn fits_in_width() {
    assert!(fits_signed_bytes(&vec![0x7F], 8));
    assert!(!fits_signed_bytes(&vec![0x00, 0x80], 8));
    assert!(fits_signed_bytes(&vec![0xFF, 0x80], 8));
    assert!(!fits_signed_bytes(&vec![0xFF, 0x7F], 8));
    assert!(fits_signed_bytes(&vec![], 1));
    assert!(!fits_signed_bytes(&vec![0x01], 1));
}
