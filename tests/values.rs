use ever_playground::builder::Builder;
use ever_playground::cell::Cell;
use ever_playground::error::Error;
use ever_playground::slice::Slice;
use ever_playground::stack::{item_equals, Continuation, ContinuationType, Integer, SaveList, StackItem};

fn code(text: &str) -> Slice {
    Slice::new(Cell::create(text, vec![]).unwrap())
}

fn cont(typ: ContinuationType, text: &str, stack: Vec<StackItem>, nargs: isize) -> Continuation {
    Continuation::new(typ, code(text), stack, SaveList::new(), nargs)
}

fn num(v: i64) -> StackItem {
    StackItem::Integer(Integer::from_bytes(v.to_be_bytes().to_vec()))
}

#[test]
fn continuations_with_same_parts_are_equal() {
    let a = cont(ContinuationType::PushInt(3), "ab", vec![num(1), StackItem::Null], 2);
    let b = cont(ContinuationType::PushInt(3), "ab", vec![num(1), StackItem::Null], 2);
    assert!(a.equals(&b));
}

#[test]
fn changing_one_part_breaks_equality() {
    let base = cont(ContinuationType::Quit(0), "ab", vec![num(1)], 2);
    assert!(!base.equals(&cont(ContinuationType::Quit(1), "ab", vec![num(1)], 2)));
    assert!(!base.equals(&cont(ContinuationType::Ordinary, "ab", vec![num(1)], 2)));
    assert!(!base.equals(&cont(ContinuationType::Quit(0), "ac", vec![num(1)], 2)));
    assert!(!base.equals(&cont(ContinuationType::Quit(0), "ab", vec![num(2)], 2)));
    assert!(!base.equals(&cont(ContinuationType::Quit(0), "ab", vec![], 2)));
    assert!(!base.equals(&cont(ContinuationType::Quit(0), "ab", vec![num(1)], 3)));
    let mut regs = SaveList::new();
    regs.put(4, StackItem::Cell(Cell::empty())).unwrap();
    let other = Continuation::new(ContinuationType::Quit(0), code("ab"), vec![num(1)], regs, 2);
    assert!(!base.equals(&other));
}

#[test]
fn ordinary_frame_defaults() {
    let c = Continuation::ordinary();
    assert_eq!(c.typ.variant(), 3);
    assert_eq!(c.nargs, -1);
    assert_eq!(c.savelist.describe(), "empty");
    assert!(c.equals(&Continuation::ordinary()));
}

#[test]
fn variant_parameters() {
    let r = ContinuationType::RepeatLoopBody(code("12"), 5);
    assert_eq!(r.variant(), 6);
    assert_eq!(r.name(), "Repeat");
    let (body, n) = r.params_repeat().unwrap();
    assert!(body.equals(&code("12")));
    assert_eq!(n, 5);
    assert!(matches!(r.params_again(), Err(Error::Type)));
    assert_eq!(r.params_quit(), Err(Error::Type));
    assert_eq!(ContinuationType::PushInt(-7).params_pushint(), Ok(-7));
    assert_eq!(ContinuationType::Quit(9).params_quit(), Ok(9));
    assert_eq!(ContinuationType::CatchRevert(2).params_catchrevert(), Ok(2));
    assert_eq!(ContinuationType::ExcQuit.variant(), 9);
    assert_eq!(ContinuationType::ExcQuit.name(), "ExcQuit");
    let w = ContinuationType::WhileLoopCondition(code("1"), code("2"));
    let (b, c) = w.params_while().unwrap();
    assert!(b.equals(&code("1")) && c.equals(&code("2")));
    assert!(ContinuationType::UntilLoopCondition(code("3")).params_until().unwrap().equals(&code("3")));
    assert!(ContinuationType::AgainLoopBody(code("4")).params_again().unwrap().equals(&code("4")));
    assert!(w.equals(&w.duplicate()));
    assert!(!w.equals(&ContinuationType::TryCatch));
}

#[test]
fn savelist_put_get() {
    let mut s = SaveList::new();
    assert_eq!(s.len(), 16);
    assert!(s.get(3).is_none());
    assert!(s.put(3, StackItem::Null).unwrap().is_none());
    assert!(matches!(s.get(3), Some(StackItem::Null)));
    let prev = s.put(3, num(5)).unwrap().unwrap();
    assert!(matches!(prev, StackItem::Null));
    assert!(item_equals(s.get(3).unwrap(), &num(5)));
    assert!(matches!(s.put(16, StackItem::Null), Err(Error::Bounds)));
    s.put(0, StackItem::Null).unwrap();
    s.put(12, StackItem::Null).unwrap();
    assert_eq!(s.describe(), "c0 c3 c12");
    let mut t = SaveList::new();
    assert!(!s.equals(&t));
    t.put(0, StackItem::Null).unwrap();
    t.put(3, num(5)).unwrap();
    t.put(12, StackItem::Null).unwrap();
    assert!(s.equals(&t));
}

#[test]
fn integers_and_nan() {
    let big = {
        let mut v = vec![0x01];
        v.extend(vec![0u8; 32]);
        v
    };
    let top = Integer::from_bytes(big);
    assert!(top.is_nan());
    let mut ok = vec![0x00, 0xFF];
    ok.extend(vec![0xFFu8; 31]);
    let max = Integer::from_bytes(ok.clone());
    assert!(!max.is_nan());
    let back = max.to_bytes().unwrap();
    assert_eq!(num_bigint::BigInt::from_signed_bytes_be(&back), num_bigint::BigInt::from_signed_bytes_be(&ok));
    assert!(Integer::nan().equals(&Integer::nan()));
    assert!(Integer::from_bytes(vec![0xFF]).equals(&Integer::from_bytes(vec![0xFF, 0xFF])));
    assert!(!Integer::from_bytes(vec![0x01]).equals(&Integer::nan()));
    assert!(Integer::nan().to_bytes().is_none());
}

#[test]
fn tuples_compare_by_elements() {
    let a = StackItem::Tuple(vec![num(1), StackItem::Tuple(vec![StackItem::Null])]);
    let b = StackItem::Tuple(vec![num(1), StackItem::Tuple(vec![StackItem::Null])]);
    let c = StackItem::Tuple(vec![num(1), StackItem::Tuple(vec![])]);
    assert!(item_equals(&a, &b));
    assert!(!item_equals(&a, &c));
    let mut bl = Builder::new();
    bl.append_bits(&vec![true]).unwrap();
    let x = StackItem::Builder(bl);
    assert!(!item_equals(&x, &StackItem::Null));
}
