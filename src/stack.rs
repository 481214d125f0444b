//! The values of the virtual machine: integers of 257 bits that may be NaN,
//! cells, slices, builders, continuations and tuples; the register file of
//! saved values; and continuations, the reified frames of control flow.

use crate::bits::{
    bits_value, fits_signed, lemma_int_bits_of_value, lemma_signed_round_trip, lemma_value_of_int_bits, signed_be,
    signed_value,
};
use crate::bitstring::{hex_digit_str, hex_digits};
use crate::builder::Builder;
use crate::cell::{Cell, CellView};
use crate::codec::{fits_signed_bytes, signed_int_deserialize, signed_int_serialize};
use crate::error::Error;
use crate::slice::Slice;
use vstd::arithmetic::power2::*;
use vstd::prelude::*;
use vstd::string::*;

verus! {

/// Width in bits of the machine's integers.
pub const INT_BITS: usize = 257;

/// Number of registers of a save list.
pub const SAVE_SLOTS: usize = 16;

/// An integer of the machine: a value of 257 bits of two's complement, or NaN.
pub struct Integer {
    bits: Option<Vec<bool>>,
}

impl View for Integer {
    /// The value, or none for NaN.
    type V = Option<int>;

    closed spec fn view(&self) -> Option<int> {
        match self.bits {
            Some(b) => Some(signed_value(b@)),
            None => None,
        }
    }
}

/// Two strings of one length with one two's-complement value are the same string.
proof fn lemma_signed_value_injective(a: Seq<bool>, b: Seq<bool>)
    requires
        a.len() == b.len(),
        a.len() > 0,
        signed_value(a) == signed_value(b),
    ensures
        a == b,
{
    let n = a.len();
    let ca: int = if a[0] { -1 } else { 0 };
    let cb: int = if b[0] { -1 } else { 0 };
    lemma_int_bits_of_value(a, ca);
    lemma_int_bits_of_value(b, cb);
    let p = pow2(n) as int;
    if a[0] {
        assert(ca == -1);
        assert(ca * p == -p) by (nonlinear_arith)
            requires
                ca == -1,
        ;
    }
    if b[0] {
        assert(cb * p == -p) by (nonlinear_arith)
            requires
                cb == -1,
        ;
    }
    assert(bits_value(a) + ca * pow2(n) == signed_value(a));
    assert(bits_value(b) + cb * pow2(n) == signed_value(b));
}

impl Integer {
    #[verifier::type_invariant]
    spec fn inv(self) -> bool {
        self.bits is Some ==> self.bits.unwrap()@.len() == INT_BITS
    }

    /// The integer of the value that `value` holds (big-endian two's
    /// complement); NaN where the value does not fit in 257 bits.
    pub fn from_bytes(value: Vec<u8>) -> (r: Integer)
        requires
            value@.len() <= 0x1000_0000,
        ensures
            fits_signed(signed_be(value@), INT_BITS as nat) ==> r@ == Some(signed_be(value@)),
            !fits_signed(signed_be(value@), INT_BITS as nat) ==> r@ is None,
    {
        if fits_signed_bytes(&value, INT_BITS) {
            let ghost v = signed_be(value@);
            let b = signed_int_serialize(value, INT_BITS);
            proof {
                lemma_signed_round_trip(v, INT_BITS as nat);
                lemma_value_of_int_bits(v, INT_BITS as nat);
            }
            Integer { bits: Some(b) }
        } else {
            Integer { bits: None }
        }
    }

    /// NaN.
    pub fn nan() -> (r: Integer)
        ensures
            r@ is None,
    {
        Integer { bits: None }
    }

    /// Whether the integer is NaN.
    pub fn is_nan(&self) -> (r: bool)
        ensures
            r == self@ is None,
    {
        self.bits.is_none()
    }

    /// The value as big-endian two's-complement bytes; none for NaN.
    pub fn to_bytes(&self) -> (r: Option<Vec<u8>>)
        ensures
            self@ is None ==> r is None,
            self@ is Some ==> r is Some && signed_be(r.unwrap()@) == self@.unwrap(),
    {
        proof {
            use_type_invariant(self);
        }
        match &self.bits {
            Some(b) => Some(signed_int_deserialize(b)),
            None => None,
        }
    }

    /// Whether the two integers are equal, NaN being equal to NaN.
    pub fn equals(&self, other: &Integer) -> (r: bool)
        ensures
            r == (self@ == other@),
    {
        proof {
            use_type_invariant(self);
            use_type_invariant(other);
        }
        match (&self.bits, &other.bits) {
            (Some(a), Some(b)) => {
                let mut i: usize = 0;
                while i < INT_BITS
                    invariant
                        a@.len() == INT_BITS,
                        b@.len() == INT_BITS,
                        self@ == Some(signed_value(a@)),
                        other@ == Some(signed_value(b@)),
                        i <= INT_BITS,
                        a@.take(i as int) == b@.take(i as int),
                    decreases INT_BITS - i,
                {
                    if a[i] != b[i] {
                        proof {
                            if signed_value(a@) == signed_value(b@) {
                                lemma_signed_value_injective(a@, b@);
                            }
                        }
                        return false;
                    }
                    i += 1;
                    assert(a@.take(i as int) =~= b@.take(i as int));
                }
                assert(a@ =~= a@.take(i as int));
                assert(b@ =~= b@.take(i as int));
                true
            },
            (None, None) => true,
            _ => false,
        }
    }
}

/// The variant of a continuation and its parameters, slices given by what is
/// left to read of them.
pub enum ContTypeView {
    Again(CellView),
    TryCatch,
    CatchRevert(u32),
    Ordinary,
    PushInt(i32),
    Quit(i32),
    Repeat(CellView, isize),
    Until(CellView),
    While(CellView, CellView),
    ExcQuit,
}

/// A continuation: variant, code left to run, stack, saved registers and argument count.
pub struct ContView {
    pub typ: ContTypeView,
    pub code: CellView,
    pub stack: Seq<ItemView>,
    pub savelist: Seq<Option<ItemView>>,
    pub nargs: isize,
}

/// A value of the machine; a slice is given by what is left to read of it and a
/// builder by the cell it would finalize into.
pub enum ItemView {
    Null,
    Int(Option<int>),
    Cell(CellView),
    Slice(CellView),
    Builder(CellView),
    Cont(ContView),
    Tuple(Seq<ItemView>),
}

/// The variant of a continuation, with the parameters of that variant.
pub enum ContinuationType {
    /// Body of an endless loop.
    AgainLoopBody(Slice),
    /// Marker of a try block.
    TryCatch,
    /// Marker of a try block that reverts the data on a catch.
    CatchRevert(u32),
    /// An ordinary call frame.
    Ordinary,
    /// Pushes an integer when entered.
    PushInt(i32),
    /// Quits the program with an exit code.
    Quit(i32),
    /// Body of a loop repeated a number of times, with its counter.
    RepeatLoopBody(Slice, isize),
    /// Body of a loop repeated until a condition holds.
    UntilLoopCondition(Slice),
    /// Condition and body of a loop repeated while the condition holds.
    WhileLoopCondition(Slice, Slice),
    /// Quits the program on an exception.
    ExcQuit,
}

impl View for ContinuationType {
    type V = ContTypeView;

    open spec fn view(&self) -> ContTypeView {
        match self {
            ContinuationType::AgainLoopBody(b) => ContTypeView::Again(b@),
            ContinuationType::TryCatch => ContTypeView::TryCatch,
            ContinuationType::CatchRevert(d) => ContTypeView::CatchRevert(*d),
            ContinuationType::Ordinary => ContTypeView::Ordinary,
            ContinuationType::PushInt(v) => ContTypeView::PushInt(*v),
            ContinuationType::Quit(c) => ContTypeView::Quit(*c),
            ContinuationType::RepeatLoopBody(b, n) => ContTypeView::Repeat(b@, *n),
            ContinuationType::UntilLoopCondition(b) => ContTypeView::Until(b@),
            ContinuationType::WhileLoopCondition(b, c) => ContTypeView::While(b@, c@),
            ContinuationType::ExcQuit => ContTypeView::ExcQuit,
        }
    }
}

/// The number of each variant, in declaration order.
pub open spec fn variant_number(t: ContTypeView) -> u8 {
    match t {
        ContTypeView::Again(_) => 0,
        ContTypeView::TryCatch => 1,
        ContTypeView::CatchRevert(_) => 2,
        ContTypeView::Ordinary => 3,
        ContTypeView::PushInt(_) => 4,
        ContTypeView::Quit(_) => 5,
        ContTypeView::Repeat(_, _) => 6,
        ContTypeView::Until(_) => 7,
        ContTypeView::While(_, _) => 8,
        ContTypeView::ExcQuit => 9,
    }
}

/// The name of each variant.
pub open spec fn variant_name(t: ContTypeView) -> Seq<char> {
    match t {
        ContTypeView::Again(_) => seq!['A', 'g', 'a', 'i', 'n'],
        ContTypeView::TryCatch => seq!['T', 'r', 'y', 'C', 'a', 't', 'c', 'h'],
        ContTypeView::CatchRevert(_) => seq!['C', 'a', 't', 'c', 'h', 'R', 'e', 'v', 'e', 'r', 't'],
        ContTypeView::Ordinary => seq!['O', 'r', 'd', 'i', 'n', 'a', 'r', 'y'],
        ContTypeView::PushInt(_) => seq!['P', 'u', 's', 'h', 'I', 'n', 't'],
        ContTypeView::Quit(_) => seq!['Q', 'u', 'i', 't'],
        ContTypeView::Repeat(_, _) => seq!['R', 'e', 'p', 'e', 'a', 't'],
        ContTypeView::Until(_) => seq!['U', 'n', 't', 'i', 'l'],
        ContTypeView::While(_, _) => seq!['W', 'h', 'i', 'l', 'e'],
        ContTypeView::ExcQuit => seq!['E', 'x', 'c', 'Q', 'u', 'i', 't'],
    }
}

impl ContinuationType {
    /// The number of the variant (`variant_number`).
    pub fn variant(&self) -> (r: u8)
        ensures
            r == variant_number(self@),
    {
        match self {
            ContinuationType::AgainLoopBody(_) => 0,
            ContinuationType::TryCatch => 1,
            ContinuationType::CatchRevert(_) => 2,
            ContinuationType::Ordinary => 3,
            ContinuationType::PushInt(_) => 4,
            ContinuationType::Quit(_) => 5,
            ContinuationType::RepeatLoopBody(_, _) => 6,
            ContinuationType::UntilLoopCondition(_) => 7,
            ContinuationType::WhileLoopCondition(_, _) => 8,
            ContinuationType::ExcQuit => 9,
        }
    }

    /// The name of the variant (`variant_name`).
    pub fn name(&self) -> (r: &'static str)
        ensures
            r@ == variant_name(self@),
    {
        proof {
            reveal_strlit("Again");
            reveal_strlit("TryCatch");
            reveal_strlit("CatchRevert");
            reveal_strlit("Ordinary");
            reveal_strlit("PushInt");
            reveal_strlit("Quit");
            reveal_strlit("Repeat");
            reveal_strlit("Until");
            reveal_strlit("While");
            reveal_strlit("ExcQuit");
        }
        let r = match self {
            ContinuationType::AgainLoopBody(_) => "Again",
            ContinuationType::TryCatch => "TryCatch",
            ContinuationType::CatchRevert(_) => "CatchRevert",
            ContinuationType::Ordinary => "Ordinary",
            ContinuationType::PushInt(_) => "PushInt",
            ContinuationType::Quit(_) => "Quit",
            ContinuationType::RepeatLoopBody(_, _) => "Repeat",
            ContinuationType::UntilLoopCondition(_) => "Until",
            ContinuationType::WhileLoopCondition(_, _) => "While",
            ContinuationType::ExcQuit => "ExcQuit",
        };
        assert(r@ =~= variant_name(self@));
        r
    }

    /// The body of an `AgainLoopBody`; `Error::Type` for any other variant.
    pub fn params_again(&self) -> (r: Result<Slice, Error>)
        ensures
            match self@ {
                ContTypeView::Again(b) => r.is_ok() && r.unwrap()@ == b,
                _ => r == Err::<Slice, Error>(Error::Type),
            },
    {
        match self {
            ContinuationType::AgainLoopBody(b) => Ok(b.share()),
            _ => Err(Error::Type),
        }
    }

    /// The data depth of a `CatchRevert`; `Error::Type` for any other variant.
    pub fn params_catchrevert(&self) -> (r: Result<u32, Error>)
        ensures
            match self@ {
                ContTypeView::CatchRevert(d) => r == Ok::<u32, Error>(d),
                _ => r == Err::<u32, Error>(Error::Type),
            },
    {
        match self {
            ContinuationType::CatchRevert(d) => Ok(*d),
            _ => Err(Error::Type),
        }
    }

    /// The value of a `PushInt`; `Error::Type` for any other variant.
    pub fn params_pushint(&self) -> (r: Result<i32, Error>)
        ensures
            match self@ {
                ContTypeView::PushInt(v) => r == Ok::<i32, Error>(v),
                _ => r == Err::<i32, Error>(Error::Type),
            },
    {
        match self {
            ContinuationType::PushInt(v) => Ok(*v),
            _ => Err(Error::Type),
        }
    }

    /// The exit code of a `Quit`; `Error::Type` for any other variant.
    pub fn params_quit(&self) -> (r: Result<i32, Error>)
        ensures
            match self@ {
                ContTypeView::Quit(c) => r == Ok::<i32, Error>(c),
                _ => r == Err::<i32, Error>(Error::Type),
            },
    {
        match self {
            ContinuationType::Quit(c) => Ok(*c),
            _ => Err(Error::Type),
        }
    }

    /// The body and counter of a `RepeatLoopBody`; `Error::Type` for any other variant.
    pub fn params_repeat(&self) -> (r: Result<(Slice, isize), Error>)
        ensures
            match self@ {
                ContTypeView::Repeat(b, n) => r.is_ok() && r.unwrap().0@ == b && r.unwrap().1 == n,
                _ => r == Err::<(Slice, isize), Error>(Error::Type),
            },
    {
        match self {
            ContinuationType::RepeatLoopBody(b, n) => Ok((b.share(), *n)),
            _ => Err(Error::Type),
        }
    }

    /// The body of an `UntilLoopCondition`; `Error::Type` for any other variant.
    pub fn params_until(&self) -> (r: Result<Slice, Error>)
        ensures
            match self@ {
                ContTypeView::Until(b) => r.is_ok() && r.unwrap()@ == b,
                _ => r == Err::<Slice, Error>(Error::Type),
            },
    {
        match self {
            ContinuationType::UntilLoopCondition(b) => Ok(b.share()),
            _ => Err(Error::Type),
        }
    }

    /// The body and condition of a `WhileLoopCondition`; `Error::Type` for any
    /// other variant.
    pub fn params_while(&self) -> (r: Result<(Slice, Slice), Error>)
        ensures
            match self@ {
                ContTypeView::While(b, c) => r.is_ok() && r.unwrap().0@ == b && r.unwrap().1@ == c,
                _ => r == Err::<(Slice, Slice), Error>(Error::Type),
            },
    {
        match self {
            ContinuationType::WhileLoopCondition(b, c) => Ok((b.share(), c.share())),
            _ => Err(Error::Type),
        }
    }

    /// Whether the two are the same variant with equal parameters.
    pub fn equals(&self, other: &ContinuationType) -> (r: bool)
        ensures
            r == (self@ == other@),
    {
        match (self, other) {
            (ContinuationType::AgainLoopBody(a), ContinuationType::AgainLoopBody(b)) => a.equals(b),
            (ContinuationType::TryCatch, ContinuationType::TryCatch) => true,
            (ContinuationType::CatchRevert(a), ContinuationType::CatchRevert(b)) => *a == *b,
            (ContinuationType::Ordinary, ContinuationType::Ordinary) => true,
            (ContinuationType::PushInt(a), ContinuationType::PushInt(b)) => *a == *b,
            (ContinuationType::Quit(a), ContinuationType::Quit(b)) => *a == *b,
            (ContinuationType::RepeatLoopBody(a, n), ContinuationType::RepeatLoopBody(b, m)) => *n == *m && a.equals(b),
            (ContinuationType::UntilLoopCondition(a), ContinuationType::UntilLoopCondition(b)) => a.equals(b),
            (ContinuationType::WhileLoopCondition(a, c), ContinuationType::WhileLoopCondition(b, d)) => a.equals(b)
                && c.equals(d),
            (ContinuationType::ExcQuit, ContinuationType::ExcQuit) => true,
            _ => false,
        }
    }

    /// Another value of the same variant with the same parameters.
    pub fn duplicate(&self) -> (r: ContinuationType)
        ensures
            r@ == self@,
    {
        match self {
            ContinuationType::AgainLoopBody(b) => ContinuationType::AgainLoopBody(b.share()),
            ContinuationType::TryCatch => ContinuationType::TryCatch,
            ContinuationType::CatchRevert(d) => ContinuationType::CatchRevert(*d),
            ContinuationType::Ordinary => ContinuationType::Ordinary,
            ContinuationType::PushInt(v) => ContinuationType::PushInt(*v),
            ContinuationType::Quit(c) => ContinuationType::Quit(*c),
            ContinuationType::RepeatLoopBody(b, n) => ContinuationType::RepeatLoopBody(b.share(), *n),
            ContinuationType::UntilLoopCondition(b) => ContinuationType::UntilLoopCondition(b.share()),
            ContinuationType::WhileLoopCondition(b, c) => ContinuationType::WhileLoopCondition(b.share(), c.share()),
            ContinuationType::ExcQuit => ContinuationType::ExcQuit,
        }
    }
}

/// A value of the machine.
pub enum StackItem {
    /// The absent value.
    Null,
    Integer(Integer),
    Cell(Cell),
    Slice(Slice),
    Builder(Builder),
    Continuation(Box<Continuation>),
    /// An ordered tuple of values.
    Tuple(Vec<StackItem>),
}

/// Registers of saved values; an empty register differs from one that holds
/// the absent value.
pub struct SaveList {
    regs: Vec<Option<StackItem>>,
}

/// A reified frame of control flow.
pub struct Continuation {
    pub typ: ContinuationType,
    pub code: Slice,
    pub stack: Vec<StackItem>,
    pub savelist: SaveList,
    pub nargs: isize,
}

pub open spec fn item_view(i: StackItem) -> ItemView
    decreases i,
{
    match i {
        StackItem::Null => ItemView::Null,
        StackItem::Integer(n) => ItemView::Int(n@),
        StackItem::Cell(c) => ItemView::Cell(c@),
        StackItem::Slice(s) => ItemView::Slice(s@),
        StackItem::Builder(b) => ItemView::Builder(b@),
        StackItem::Continuation(c) => ItemView::Cont(cont_view(*c)),
        StackItem::Tuple(v) => ItemView::Tuple(items_view(v@)),
    }
}

pub open spec fn items_view(s: Seq<StackItem>) -> Seq<ItemView>
    decreases s,
{
    if s.len() == 0 {
        Seq::empty()
    } else {
        items_view(s.drop_last()).push(item_view(s.last()))
    }
}

pub closed spec fn slots_view(s: Seq<Option<StackItem>>) -> Seq<Option<ItemView>>
    decreases s,
{
    if s.len() == 0 {
        Seq::empty()
    } else {
        slots_view(s.drop_last()).push(
            match s.last() {
                Some(x) => Some(item_view(x)),
                None => None,
            },
        )
    }
}

pub closed spec fn cont_view(c: Continuation) -> ContView
    decreases c,
{
    ContView {
        typ: c.typ@,
        code: c.code@,
        stack: items_view(c.stack@),
        savelist: slots_view(c.savelist.regs@),
        nargs: c.nargs,
    }
}

impl View for StackItem {
    type V = ItemView;

    open spec fn view(&self) -> ItemView {
        item_view(*self)
    }
}

impl View for SaveList {
    type V = Seq<Option<ItemView>>;

    closed spec fn view(&self) -> Seq<Option<ItemView>> {
        slots_view(self.regs@)
    }
}

impl View for Continuation {
    type V = ContView;

    open spec fn view(&self) -> ContView {
        cont_view(*self)
    }
}

proof fn lemma_items_view(s: Seq<StackItem>)
    ensures
        items_view(s).len() == s.len(),
        forall|i: int| 0 <= i < s.len() ==> #[trigger] items_view(s)[i] == item_view(s[i]),
    decreases s.len(),
{
    if s.len() > 0 {
        lemma_items_view(s.drop_last());
    }
}

proof fn lemma_slots_view(s: Seq<Option<StackItem>>)
    ensures
        slots_view(s).len() == s.len(),
        forall|i: int|
            0 <= i < s.len() ==> #[trigger] slots_view(s)[i] == match s[i] {
                Some(x) => Some(item_view(x)),
                None => None,
            },
    decreases s.len(),
{
    if s.len() > 0 {
        lemma_slots_view(s.drop_last());
    }
}

/// Whether the two values are equal: integers by value (NaN equal to NaN),
/// slices by what is left to read, builders and cells by their trees, tuples
/// and continuations field by field.
pub fn item_equals(a: &StackItem, b: &StackItem) -> (r: bool)
    ensures
        r == (a@ == b@),
    decreases a@,
{
    match (a, b) {
        (StackItem::Null, StackItem::Null) => true,
        (StackItem::Integer(x), StackItem::Integer(y)) => x.equals(y),
        (StackItem::Cell(x), StackItem::Cell(y)) => x.equals(y),
        (StackItem::Slice(x), StackItem::Slice(y)) => x.equals(y),
        (StackItem::Builder(x), StackItem::Builder(y)) => x.equals(y),
        (StackItem::Continuation(x), StackItem::Continuation(y)) => {
            let ghost cv = cont_view(**x);
            assert(a@ == ItemView::Cont(cv));
            assert(decreases_to!(a@ => a@->Cont_0));
            assert(x@ == cv);
            cont_equals(x, y)
        },
        (StackItem::Tuple(x), StackItem::Tuple(y)) => {
            let ghost tv = items_view(x@);
            assert(a@ == ItemView::Tuple(tv));
            assert(decreases_to!(a@ => a@->Tuple_0));
            items_equal(x, y)
        },
        _ => false,
    }
}

/// Whether the two sequences of values are equal element by element.
pub fn items_equal(a: &Vec<StackItem>, b: &Vec<StackItem>) -> (r: bool)
    ensures
        r == (items_view(a@) == items_view(b@)),
    decreases items_view(a@),
{
    proof {
        lemma_items_view(a@);
        lemma_items_view(b@);
    }
    if a.len() != b.len() {
        return false;
    }
    let mut i: usize = 0;
    while i < a.len()
        invariant
            i <= a@.len(),
            a@.len() == b@.len(),
            items_view(a@).len() == a@.len(),
            items_view(b@).len() == b@.len(),
            forall|k: int| 0 <= k < a@.len() ==> #[trigger] items_view(a@)[k] == item_view(a@[k]),
            forall|k: int| 0 <= k < b@.len() ==> #[trigger] items_view(b@)[k] == item_view(b@[k]),
            items_view(a@).take(i as int) == items_view(b@).take(i as int),
        decreases a@.len() - i,
    {
        assert(items_view(a@)[i as int] == item_view(a@[i as int]));
        if !item_equals(&a[i], &b[i]) {
            assert(items_view(a@)[i as int] != items_view(b@)[i as int]);
            return false;
        }
        i += 1;
        assert(items_view(a@).take(i as int) =~= items_view(b@).take(i as int));
    }
    assert(items_view(a@) =~= items_view(a@).take(i as int));
    assert(items_view(b@) =~= items_view(b@).take(i as int));
    true
}

fn slots_equal(a: &Vec<Option<StackItem>>, b: &Vec<Option<StackItem>>) -> (r: bool)
    ensures
        r == (slots_view(a@) == slots_view(b@)),
    decreases slots_view(a@),
{
    proof {
        lemma_slots_view(a@);
        lemma_slots_view(b@);
    }
    if a.len() != b.len() {
        return false;
    }
    let mut i: usize = 0;
    while i < a.len()
        invariant
            i <= a@.len(),
            a@.len() == b@.len(),
            slots_view(a@).len() == a@.len(),
            slots_view(b@).len() == b@.len(),
            forall|k: int|
                0 <= k < a@.len() ==> #[trigger] slots_view(a@)[k] == match a@[k] {
                    Some(x) => Some(item_view(x)),
                    None => None,
                },
            forall|k: int|
                0 <= k < b@.len() ==> #[trigger] slots_view(b@)[k] == match b@[k] {
                    Some(x) => Some(item_view(x)),
                    None => None,
                },
            slots_view(a@).take(i as int) == slots_view(b@).take(i as int),
        decreases a@.len() - i,
    {
        let same = match (&a[i], &b[i]) {
            (Some(x), Some(y)) => {
                assert(slots_view(a@)[i as int] == Some(item_view(*x)));
                assert(decreases_to!(slots_view(a@) => slots_view(a@)[i as int]));
                let ghost o = slots_view(a@)[i as int];
                assert(decreases_to!(o => o->0));
                item_equals(x, y)
            },
            (None, None) => true,
            _ => false,
        };
        if !same {
            assert(slots_view(a@)[i as int] != slots_view(b@)[i as int]);
            return false;
        }
        i += 1;
        assert(slots_view(a@).take(i as int) =~= slots_view(b@).take(i as int));
    }
    assert(slots_view(a@) =~= slots_view(a@).take(i as int));
    assert(slots_view(b@) =~= slots_view(b@).take(i as int));
    true
}

/// Whether the two continuations are equal field by field.
pub fn cont_equals(a: &Continuation, b: &Continuation) -> (r: bool)
    ensures
        r == (a@ == b@),
    decreases a@,
{
    let t = a.typ.equals(&b.typ);
    let c = a.code.equals(&b.code);
    let n = a.nargs == b.nargs;
    if !(t && c && n) {
        return false;
    }
    assert(decreases_to!(a@ => a@.stack));
    if !items_equal(&a.stack, &b.stack) {
        return false;
    }
    assert(decreases_to!(a@ => a@.savelist));
    slots_equal(&a.savelist.regs, &b.savelist.regs)
}

/// Decimal digits of `n`, most significant first.
pub open spec fn decimal_text(n: nat) -> Seq<char>
    decreases n,
{
    if n < 10 {
        seq![hex_digits()[n as int]]
    } else {
        decimal_text(n / 10).push(hex_digits()[(n % 10) as int])
    }
}

fn decimal(n: usize) -> (r: String)
    ensures
        r@ == decimal_text(n as nat),
    decreases n,
{
    if n < 10 {
        String::from_str(hex_digit_str(n as u8))
    } else {
        let mut s = decimal(n / 10);
        s.append(hex_digit_str((n % 10) as u8));
        s
    }
}

/// The names `c<i>` of the occupied registers among the first `n`, separated by spaces.
pub open spec fn occupied_text(v: Seq<Option<ItemView>>, n: nat) -> Seq<char>
    decreases n,
{
    if n == 0 {
        Seq::empty()
    } else {
        let t = occupied_text(v, (n - 1) as nat);
        if v[n - 1] is Some {
            if t.len() == 0 {
                seq!['c'] + decimal_text((n - 1) as nat)
            } else {
                t + seq![' ', 'c'] + decimal_text((n - 1) as nat)
            }
        } else {
            t
        }
    }
}

/// The names of the occupied registers, or `empty` if there is none.
pub open spec fn savelist_text(v: Seq<Option<ItemView>>) -> Seq<char> {
    let t = occupied_text(v, v.len());
    if t.len() == 0 {
        seq!['e', 'm', 'p', 't', 'y']
    } else {
        t
    }
}

impl SaveList {
    /// Sixteen empty registers.
    pub fn new() -> (r: SaveList)
        ensures
            r@ == Seq::new(SAVE_SLOTS as nat, |i: int| None::<ItemView>),
    {
        let mut regs: Vec<Option<StackItem>> = Vec::new();
        let mut i: usize = 0;
        while i < SAVE_SLOTS
            invariant
                i <= SAVE_SLOTS,
                regs@.len() == i,
                forall|k: int| 0 <= k < i ==> #[trigger] regs@[k] is None,
            decreases SAVE_SLOTS - i,
        {
            regs.push(None);
            i += 1;
        }
        proof {
            lemma_slots_view(regs@);
        }
        let r = SaveList { regs };
        assert(r@ =~= Seq::new(SAVE_SLOTS as nat, |i: int| None::<ItemView>));
        r
    }

    /// Number of registers.
    pub fn len(&self) -> (r: usize)
        ensures
            r == self@.len(),
    {
        proof {
            lemma_slots_view(self.regs@);
        }
        self.regs.len()
    }

    /// The value in register `index`; none if the register is empty or does not exist.
    pub fn get(&self, index: usize) -> (r: Option<&StackItem>)
        ensures
            index < self@.len() && self@[index as int] is Some ==> r is Some && r.unwrap()@ == self@[index as int]->0,
            !(index < self@.len() && self@[index as int] is Some) ==> r is None,
    {
        proof {
            lemma_slots_view(self.regs@);
        }
        if index < self.regs.len() {
            match &self.regs[index] {
                Some(x) => Some(x),
                None => None,
            }
        } else {
            None
        }
    }

    /// Stores `item` in register `index` and returns what it held before;
    /// `Error::Bounds`, storing nothing, if there is no such register.
    pub fn put(&mut self, index: usize, item: StackItem) -> (r: Result<Option<StackItem>, Error>)
        ensures
            index < old(self)@.len() ==> r.is_ok() && final(self)@ == old(self)@.update(index as int, Some(item@)) && (
            match r.unwrap() {
                Some(p) => old(self)@[index as int] == Some(p@),
                None => old(self)@[index as int] is None,
            }),
            index >= old(self)@.len() ==> r.is_err() && final(self)@ == old(self)@,
    {
        proof {
            lemma_slots_view(self.regs@);
        }
        if index >= self.regs.len() {
            return Err(Error::Bounds);
        }
        let ghost before = self.regs@;
        let mut slot = Some(item);
        self.regs.set_and_swap(index, &mut slot);
        proof {
            lemma_slots_view(self.regs@);
            assert(slots_view(self.regs@) =~= slots_view(before).update(index as int, Some(item@)));
        }
        Ok(slot)
    }

    /// Whether the two have the same registers holding equal values.
    pub fn equals(&self, other: &SaveList) -> (r: bool)
        ensures
            r == (self@ == other@),
    {
        slots_equal(&self.regs, &other.regs)
    }

    /// The names of the occupied registers (`savelist_text`).
    pub fn describe(&self) -> (r: String)
        ensures
            r@ == savelist_text(self@),
    {
        proof {
            lemma_slots_view(self.regs@);
            reveal_strlit("c");
            reveal_strlit(" c");
            reveal_strlit("empty");
        }
        let ghost v = self@;
        let mut res = String::new();
        let mut i: usize = 0;
        while i < self.regs.len()
            invariant
                i <= self.regs@.len(),
                v == self@,
                v.len() == self.regs@.len(),
                forall|k: int| 0 <= k < v.len() ==> (#[trigger] v[k] is Some <==> self.regs@[k] is Some),
                res@ == occupied_text(v, i as nat),
            decreases self.regs@.len() - i,
        {
            if self.regs[i].is_some() {
                proof {
                    reveal_strlit("c");
                    reveal_strlit(" c");
                }
                if res.as_str().unicode_len() == 0 {
                    res.append("c");
                } else {
                    res.append(" c");
                }
                let d = decimal(i);
                res.append(d.as_str());
            }
            i += 1;
        }
        if res.as_str().unicode_len() == 0 {
            res.append("empty");
        }
        res
    }
}

impl Continuation {
    /// A continuation of the given parts.
    pub fn new(typ: ContinuationType, code: Slice, stack: Vec<StackItem>, savelist: SaveList, nargs: isize) -> (r:
        Continuation)
        ensures
            r@ == (ContView { typ: typ@, code: code@, stack: items_view(stack@), savelist: savelist@, nargs }),
    {
        Continuation { typ, code, stack, savelist, nargs }
    }

    /// An ordinary frame with no code, an empty stack, sixteen empty registers
    /// and an argument count of -1.
    pub fn ordinary() -> (r: Continuation)
        ensures
            r@ == (ContView {
                typ: ContTypeView::Ordinary,
                code: CellView { bits: Seq::empty(), refs: Seq::empty() },
                stack: Seq::empty(),
                savelist: Seq::new(SAVE_SLOTS as nat, |i: int| None::<ItemView>),
                nargs: -1isize,
            }),
    {
        let stack: Vec<StackItem> = Vec::new();
        let r = Continuation::new(
            ContinuationType::Ordinary,
            Slice::new(Cell::empty()),
            stack,
            SaveList::new(),
            -1,
        );
        assert(items_view(stack@) =~= Seq::<ItemView>::empty());
        r
    }

    /// Whether the two continuations are equal (`cont_equals`).
    pub fn equals(&self, other: &Continuation) -> (r: bool)
        ensures
            r == (self@ == other@),
    {
        cont_equals(self, other)
    }
}

/// Two continuations are equal exactly when their variants with parameters,
/// code, stacks, registers and argument counts are; changing any one of these
/// makes them differ.
pub proof fn lemma_continuation_equality(a: Continuation, b: Continuation)
    ensures
        a@ == b@ <==> (a.typ@ == b.typ@ && a.code@ == b.code@ && items_view(a.stack@) == items_view(b.stack@)
            && a.savelist@ == b.savelist@ && a.nargs == b.nargs),
{
}

} // verus!
