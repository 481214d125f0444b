use ever_playground::builder::Builder;
use ever_playground::cell::Cell;
use ever_playground::dict::Dictionary;
use ever_playground::error::Error;
use ever_playground::slice::Slice;

fn key(width: usize, v: u64) -> Slice {
    let mut b = Builder::new();
    b.append_int(width, v.to_be_bytes().to_vec()).unwrap();
    b.to_slice()
}

fn value(text: &str) -> Slice {
    let mut b = Builder::new();
    b.append_bitstring(text).unwrap();
    b.to_slice()
}

#[test]
fn last_set_wins() {
    let mut d = Dictionary::new(8).unwrap();
    d.set(&key(8, 1), &value("aa")).unwrap();
    d.set(&key(8, 2), &value("bb")).unwrap();
    d.set(&key(8, 1), &value("cc")).unwrap();
    d.set(&key(8, 200), &value("dd")).unwrap();
    d.set(&key(8, 2), &value("ee")).unwrap();
    assert_eq!(d.len(), 3);
    assert!(d.get(&key(8, 1)).unwrap().unwrap().equals(&value("cc")));
    assert!(d.get(&key(8, 2)).unwrap().unwrap().equals(&value("ee")));
    assert!(d.get(&key(8, 200)).unwrap().unwrap().equals(&value("dd")));
    assert!(d.get(&key(8, 3)).unwrap().is_none());
}

#[test]
fn serialize_then_deserialize_gives_same_map() {
    let mut d = Dictionary::new(16).unwrap();
    for (k, v) in [(5u64, "01"), (0x8000, "02"), (0x8001, "03"), (0xFFFF, "04"), (7, "05")] {
        d.set(&key(16, k), &value(v)).unwrap();
    }
    let mut s = d.serialize().to_slice();
    let e = Dictionary::deserialize(16, &mut s).unwrap();
    assert!(s.is_empty());
    assert_eq!(e.len(), 5);
    for (k, v) in [(5u64, "01"), (0x8000, "02"), (0x8001, "03"), (0xFFFF, "04"), (7, "05")] {
        assert!(e.get(&key(16, k)).unwrap().unwrap().equals(&value(v)));
    }
    assert!(e.cell().unwrap().equals(&d.cell().unwrap()));
}

#[test]
fn empty_dictionary_serializes_to_one_zero_bit() {
    let d = Dictionary::new(32).unwrap();
    let mut s = d.serialize().to_slice();
    assert_eq!(s.remaining_bits(), 1);
    assert_eq!(s.remaining_references(), 0);
    assert_eq!(s.read_bits(1).unwrap(), vec![false]);
    let mut s2 = d.serialize().to_slice();
    let e = Dictionary::deserialize(32, &mut s2).unwrap();
    assert_eq!(e.len(), 0);
    assert!(e.cell().is_none());
    assert_eq!(e.dump(), "empty dictionary");
}

#[test]
fn wrong_key_width_is_rejected() {
    let mut d = Dictionary::new(8).unwrap();
    assert_eq!(d.set(&key(9, 1), &value("aa")), Err(Error::Bounds));
    assert!(matches!(d.get(&key(7, 1)), Err(Error::Bounds)));
    assert_eq!(d.len(), 0);
    assert!(matches!(Dictionary::new(2000), Err(Error::Bounds)));
}

#[test]
fn count_respects_the_cap() {
    let mut d = Dictionary::new(4).unwrap();
    for k in 0..10u64 {
        d.set(&key(4, k), &value("1")).unwrap();
    }
    assert_eq!(d.count(usize::MAX), Ok(10));
    assert_eq!(d.count(10), Ok(10));
    assert_eq!(d.count(9), Err(Error::ResourceLimit));
}

#[test]
fn malformed_trie_is_rejected() {
    let bad = Cell::create("", vec![]).unwrap();
    let mut b = Builder::new();
    b.append_bits(&vec![true]).unwrap();
    b.append_reference(bad).unwrap();
    let mut s = b.to_slice();
    assert!(matches!(Dictionary::deserialize(8, &mut s), Err(Error::Format)));
    let mut short = Builder::new().to_slice();
    assert!(matches!(Dictionary::deserialize(8, &mut short), Err(Error::Bounds)));
}

#[test]
fn references_and_split_slices_as_values() {
    let mut d = Dictionary::new(8).unwrap();
    d.set_ref(&key(8, 3), Cell::create("ff", vec![]).unwrap()).unwrap();
    let got = d.get(&key(8, 3)).unwrap().unwrap();
    assert_eq!(got.remaining_bits(), 0);
    assert!(got.peek_reference(0).unwrap().equals(&Cell::create("ff", vec![]).unwrap()));
    let mut b = Builder::new();
    b.append_bitstring("07").unwrap();
    b.append_bitstring("abc").unwrap();
    d.set_from_slice(8, &b.to_slice()).unwrap();
    assert!(d.get(&key(8, 7)).unwrap().unwrap().equals(&value("abc")));
    assert_eq!(d.set_from_slice(40, &b.to_slice()), Err(Error::Bounds));
}

#[test]
fn single_entry_trie_dump() {
    let mut d = Dictionary::new(4).unwrap();
    d.set(&key(4, 5), &value("f")).unwrap();
    // label in the long form, the shortest here: 10, the length 4 in three
    // bits (100), the key 0101; then the value bits 1111
    assert_eq!(d.dump(), "C(\"a2fc_\")");
}
