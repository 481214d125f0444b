use ever_playground::bitstring::{parse_bitstring, to_hex_string};
use ever_playground::builder::Builder;
use ever_playground::cell::{dump_cell_generic, Cell};
use ever_playground::error::Error;
use ever_playground::slice::Slice;

fn c(data: &str, refs: Vec<Cell>) -> Cell {
    Cell::create(data, refs).unwrap()
}

#[test]
fn hex_text_of_short_bits() {
    assert_eq!(to_hex_string(&vec![true]), "c_");
    assert_eq!(to_hex_string(&vec![]), "");
    assert_eq!(to_hex_string(&vec![true, false, true, true]), "b");
    assert_eq!(to_hex_string(&vec![true, false, true]), "b_");
    assert_eq!(to_hex_string(&vec![false, false, false, false, false]), "04_");
}

#[test]
fn hex_text_parses_back() {
    assert_eq!(parse_bitstring("c_").unwrap(), vec![true]);
    assert_eq!(parse_bitstring("b_").unwrap(), vec![true, false, true]);
    assert_eq!(parse_bitstring("A").unwrap(), vec![true, false, true, false]);
    assert_eq!(parse_bitstring("").unwrap(), Vec::<bool>::new());
    for bits in [vec![true], vec![false; 7], vec![true, false, false, true, true, false]] {
        assert_eq!(parse_bitstring(&to_hex_string(&bits)).unwrap(), bits);
    }
}

#[test]
fn malformed_bitstrings_fail() {
    assert_eq!(parse_bitstring("xyz"), Err(Error::Format));
    assert_eq!(parse_bitstring("0_"), Err(Error::Format));
    assert_eq!(parse_bitstring("_"), Err(Error::Format));
    assert_eq!(parse_bitstring("1_2"), Err(Error::Format));
    assert!(Cell::create("zz", vec![]).is_err());
}

#[test]
fn cell_limits() {
    let refs = vec![Cell::empty(), Cell::empty(), Cell::empty(), Cell::empty(), Cell::empty()];
    assert!(matches!(Cell::create("", refs), Err(Error::Bounds)));
    let long = "f".repeat(256);
    assert!(matches!(Cell::create(&long, vec![]), Err(Error::Bounds)));
    let mut b = Builder::new();
    for _ in 0..4 {
        b.append_reference(Cell::empty()).unwrap();
    }
    assert_eq!(b.append_reference(Cell::empty()), Err(Error::Bounds));
    assert_eq!(b.append_bits(&vec![true; 1024]), Err(Error::Bounds));
    b.append_bits(&vec![true; 1023]).unwrap();
    assert_eq!(b.append_bits(&vec![true]), Err(Error::Bounds));
    assert_eq!(b.finalize().references_count(), 4);
}

#[test]
fn diamond_is_counted_once() {
    let shared = c("ab", vec![c("1", vec![])]);
    let left = c("2", vec![shared.share()]);
    let right = c("3", vec![shared.share()]);
    let root = c("4", vec![left, right]);
    assert_eq!(root.cells_count(usize::MAX), Ok(7));
    assert_eq!(root.unique_cells_count(), 5);
    assert_eq!(root.cells_count(6), Err(Error::ResourceLimit));
    assert_eq!(root.cells_count(7), Ok(7));
}

#[test]
fn equal_subtrees_count_once() {
    let root = c("", vec![c("1", vec![]), c("1", vec![]), c("2", vec![])]);
    assert_eq!(root.cells_count(usize::MAX), Ok(4));
    assert_eq!(root.unique_cells_count(), 3);
    assert_eq!(Cell::empty().unique_cells_count(), 1);
}

#[test]
fn cell_equality_and_references() {
    let a = c("12", vec![c("3", vec![])]);
    let b = c("12", vec![c("3", vec![])]);
    let d = c("12", vec![c("4", vec![])]);
    assert!(a.equals(&b));
    assert!(!a.equals(&d));
    assert!(a.reference(0).unwrap().equals(&c("3", vec![])));
    assert!(matches!(a.reference(1), Err(Error::Bounds)));
    assert_eq!(a.bits(), vec![false, false, false, true, false, false, true, false]);
}

#[test]
fn dump_with_other_names() {
    let t = c("1", vec![c("2", vec![])]);
    assert_eq!(dump_cell_generic(&t, "Cell", "    "), "Cell(\"1\",\n    Cell(\"2\"))");
}

#[test]
fn slice_reads_and_underflow() {
    let cell = c("a5", vec![c("1", vec![]), c("2", vec![])]);
    let mut s = Slice::new(cell);
    assert_eq!(s.read_bits(4).unwrap(), vec![true, false, true, false]);
    assert_eq!(s.read_bits(5), Err(Error::Bounds));
    assert_eq!(s.remaining_bits(), 4);
    assert!(s.peek_reference(1).unwrap().equals(&c("2", vec![])));
    assert!(s.drain_reference().unwrap().equals(&c("1", vec![])));
    assert_eq!(s.remaining_references(), 1);
    assert!(matches!(s.peek_reference(1), Err(Error::Bounds)));
    s.skip(4).unwrap();
    assert!(!s.is_empty());
    s.drain_reference().unwrap();
    assert!(s.is_empty());
    assert!(matches!(s.drain_reference(), Err(Error::Bounds)));
    assert_eq!(s.skip(1), Err(Error::Bounds));
    assert_eq!(s.read_int(1), Err(Error::Bounds));
}

#[test]
fn builder_appends() {
    let mut b = Builder::new();
    b.append_binary("101").unwrap();
    assert_eq!(b.append_binary("12"), Err(Error::Format));
    b.append_bitstring("c_").unwrap();
    b.append_bytes(&vec![0x0F]).unwrap();
    let mut other = Builder::new();
    other.append_bits(&vec![false]).unwrap();
    other.append_reference(Cell::empty()).unwrap();
    b.append_builder(&other).unwrap();
    let mut s = b.to_slice();
    assert_eq!(s.read_bits(13).unwrap(), vec![
        true, false, true, true, false, false, false, false, true, true, true, true, false
    ]);
    assert_eq!(s.remaining_references(), 1);
    let mut b2 = Builder::new();
    b2.append_slice(&b.to_slice()).unwrap();
    assert!(b2.equals(&b));
    assert!(b.fits(&b.to_slice(), 0, 2));
    assert!(!b.fits(&b.to_slice(), 0, 3));
    assert_eq!(b.dump(), "C(\"b0f4_\",\n  C(\"\"))");
}
