//! Edge weights for spanning trees: a total order, a zero, checked sums, and
//! a decimal rendering, for the primitive integer types.

use crate::bignat::decimal;
use crate::text::{push_num, push_num_wide};
use vstd::prelude::*;

verus! {

/// The decimal numeral of an integer, with a leading `-` when negative.
pub open spec fn int_decimal(v: int) -> Seq<char> {
    if v < 0 {
        seq!['-'] + decimal((-v) as nat)
    } else {
        decimal(v as nat)
    }
}

/// An ordered numeric edge weight.
pub trait MstWeight: Sized + Copy {
    /// The weight as an integer.
    spec fn wv(&self) -> int;

    /// The smallest representable weight.
    spec fn lo() -> int;

    /// The largest representable weight.
    spec fn hi() -> int;

    /// Every weight lies in the representable range.
    proof fn lemma_range(&self)
        ensures
            Self::lo() <= self.wv() <= Self::hi(),
    ;

    /// The zero weight.
    fn zero() -> (r: Self)
        ensures
            r.wv() == 0,
    ;

    /// Strictly lighter than `other`.
    fn lighter(&self, other: &Self) -> (r: bool)
        ensures
            r == (self.wv() < other.wv()),
    ;

    /// Equal weights.
    fn same(&self, other: &Self) -> (r: bool)
        ensures
            r == (self.wv() == other.wv()),
    ;

    /// The sum, or `None` when it leaves the representable range.
    fn checked_plus(&self, other: &Self) -> (r: Option<Self>)
        ensures
            match r {
                Some(s) => s.wv() == self.wv() + other.wv(),
                None => self.wv() + other.wv() < Self::lo() || self.wv() + other.wv() > Self::hi(),
            },
    ;

    /// The decimal numeral.
    fn decimal(&self) -> (r: String)
        ensures
            r@ == int_decimal(self.wv()),
    ;
}

/// The decimal numeral of an unsigned weight.
pub(crate) fn u64_decimal(v: u64) -> (r: String)
    ensures
        r@ == decimal(v as nat),
{
    let mut s = String::new();
    push_num(&mut s, v);
    proof {
        assert(s@ =~= decimal(v as nat));
    }
    s
}

/// The decimal numeral of a signed weight, `-` first when negative.
pub(crate) fn i64_decimal(v: i64) -> (r: String)
    ensures
        r@ == int_decimal(v as int),
{
    if v < 0 {
        let m: u64 = (0i128 - v as i128) as u64;
        let mut s = String::from_str("-");
        proof {
            reveal_strlit("-");
        }
        push_num(&mut s, m);
        proof {
            assert(s@ =~= int_decimal(v as int));
        }
        s
    } else {
        u64_decimal(v as u64)
    }
}

impl MstWeight for u64 {
    open spec fn wv(&self) -> int {
        *self as int
    }

    open spec fn lo() -> int {
        0
    }

    open spec fn hi() -> int {
        u64::MAX as int
    }

    proof fn lemma_range(&self) {
    }

    fn zero() -> (r: Self) {
        0
    }

    fn lighter(&self, other: &Self) -> (r: bool) {
        *self < *other
    }

    fn same(&self, other: &Self) -> (r: bool) {
        *self == *other
    }

    fn checked_plus(&self, other: &Self) -> (r: Option<Self>) {
        self.checked_add(*other)
    }

    fn decimal(&self) -> (r: String) {
        u64_decimal(*self)
    }
}

impl MstWeight for i64 {
    open spec fn wv(&self) -> int {
        *self as int
    }

    open spec fn lo() -> int {
        i64::MIN as int
    }

    open spec fn hi() -> int {
        i64::MAX as int
    }

    proof fn lemma_range(&self) {
    }

    fn zero() -> (r: Self) {
        0
    }

    fn lighter(&self, other: &Self) -> (r: bool) {
        *self < *other
    }

    fn same(&self, other: &Self) -> (r: bool) {
        *self == *other
    }

    fn checked_plus(&self, other: &Self) -> (r: Option<Self>) {
        self.checked_add(*other)
    }

    fn decimal(&self) -> (r: String) {
        i64_decimal(*self)
    }
}

impl MstWeight for u32 {
    open spec fn wv(&self) -> int {
        *self as int
    }

    open spec fn lo() -> int {
        u32::MIN as int
    }

    open spec fn hi() -> int {
        u32::MAX as int
    }

    proof fn lemma_range(&self) {
    }

    fn zero() -> (r: Self) {
        0
    }

    fn lighter(&self, other: &Self) -> (r: bool) {
        *self < *other
    }

    fn same(&self, other: &Self) -> (r: bool) {
        *self == *other
    }

    fn checked_plus(&self, other: &Self) -> (r: Option<Self>) {
        self.checked_add(*other)
    }

    fn decimal(&self) -> (r: String) {
        u64_decimal(*self as u64)
    }
}

impl MstWeight for u16 {
    open spec fn wv(&self) -> int {
        *self as int
    }

    open spec fn lo() -> int {
        u16::MIN as int
    }

    open spec fn hi() -> int {
        u16::MAX as int
    }

    proof fn lemma_range(&self) {
    }

    fn zero() -> (r: Self) {
        0
    }

    fn lighter(&self, other: &Self) -> (r: bool) {
        *self < *other
    }

    fn same(&self, other: &Self) -> (r: bool) {
        *self == *other
    }

    fn checked_plus(&self, other: &Self) -> (r: Option<Self>) {
        self.checked_add(*other)
    }

    fn decimal(&self) -> (r: String) {
        u64_decimal(*self as u64)
    }
}

impl MstWeight for u8 {
    open spec fn wv(&self) -> int {
        *self as int
    }

    open spec fn lo() -> int {
        u8::MIN as int
    }

    open spec fn hi() -> int {
        u8::MAX as int
    }

    proof fn lemma_range(&self) {
    }

    fn zero() -> (r: Self) {
        0
    }

    fn lighter(&self, other: &Self) -> (r: bool) {
        *self < *other
    }

    fn same(&self, other: &Self) -> (r: bool) {
        *self == *other
    }

    fn checked_plus(&self, other: &Self) -> (r: Option<Self>) {
        self.checked_add(*other)
    }

    fn decimal(&self) -> (r: String) {
        u64_decimal(*self as u64)
    }
}

impl MstWeight for usize {
    open spec fn wv(&self) -> int {
        *self as int
    }

    open spec fn lo() -> int {
        usize::MIN as int
    }

    open spec fn hi() -> int {
        usize::MAX as int
    }

    proof fn lemma_range(&self) {
    }

    fn zero() -> (r: Self) {
        0
    }

    fn lighter(&self, other: &Self) -> (r: bool) {
        *self < *other
    }

    fn same(&self, other: &Self) -> (r: bool) {
        *self == *other
    }

    fn checked_plus(&self, other: &Self) -> (r: Option<Self>) {
        self.checked_add(*other)
    }

    fn decimal(&self) -> (r: String) {
        u64_decimal(*self as u64)
    }
}

impl MstWeight for i32 {
    open spec fn wv(&self) -> int {
        *self as int
    }

    open spec fn lo() -> int {
        i32::MIN as int
    }

    open spec fn hi() -> int {
        i32::MAX as int
    }

    proof fn lemma_range(&self) {
    }

    fn zero() -> (r: Self) {
        0
    }

    fn lighter(&self, other: &Self) -> (r: bool) {
        *self < *other
    }

    fn same(&self, other: &Self) -> (r: bool) {
        *self == *other
    }

    fn checked_plus(&self, other: &Self) -> (r: Option<Self>) {
        self.checked_add(*other)
    }

    fn decimal(&self) -> (r: String) {
        i64_decimal(*self as i64)
    }
}

impl MstWeight for i16 {
    open spec fn wv(&self) -> int {
        *self as int
    }

    open spec fn lo() -> int {
        i16::MIN as int
    }

    open spec fn hi() -> int {
        i16::MAX as int
    }

    proof fn lemma_range(&self) {
    }

    fn zero() -> (r: Self) {
        0
    }

    fn lighter(&self, other: &Self) -> (r: bool) {
        *self < *other
    }

    fn same(&self, other: &Self) -> (r: bool) {
        *self == *other
    }

    fn checked_plus(&self, other: &Self) -> (r: Option<Self>) {
        self.checked_add(*other)
    }

    fn decimal(&self) -> (r: String) {
        i64_decimal(*self as i64)
    }
}

impl MstWeight for i8 {
    open spec fn wv(&self) -> int {
        *self as int
    }

    open spec fn lo() -> int {
        i8::MIN as int
    }

    open spec fn hi() -> int {
        i8::MAX as int
    }

    proof fn lemma_range(&self) {
    }

    fn zero() -> (r: Self) {
        0
    }

    fn lighter(&self, other: &Self) -> (r: bool) {
        *self < *other
    }

    fn same(&self, other: &Self) -> (r: bool) {
        *self == *other
    }

    fn checked_plus(&self, other: &Self) -> (r: Option<Self>) {
        self.checked_add(*other)
    }

    fn decimal(&self) -> (r: String) {
        i64_decimal(*self as i64)
    }
}

impl MstWeight for isize {
    open spec fn wv(&self) -> int {
        *self as int
    }

    open spec fn lo() -> int {
        isize::MIN as int
    }

    open spec fn hi() -> int {
        isize::MAX as int
    }

    proof fn lemma_range(&self) {
    }

    fn zero() -> (r: Self) {
        0
    }

    fn lighter(&self, other: &Self) -> (r: bool) {
        *self < *other
    }

    fn same(&self, other: &Self) -> (r: bool) {
        *self == *other
    }

    fn checked_plus(&self, other: &Self) -> (r: Option<Self>) {
        self.checked_add(*other)
    }

    fn decimal(&self) -> (r: String) {
        i64_decimal(*self as i64)
    }
}

impl MstWeight for u128 {
    open spec fn wv(&self) -> int {
        *self as int
    }

    open spec fn lo() -> int {
        u128::MIN as int
    }

    open spec fn hi() -> int {
        u128::MAX as int
    }

    proof fn lemma_range(&self) {
    }

    fn zero() -> (r: Self) {
        0
    }

    fn lighter(&self, other: &Self) -> (r: bool) {
        *self < *other
    }

    fn same(&self, other: &Self) -> (r: bool) {
        *self == *other
    }

    fn checked_plus(&self, other: &Self) -> (r: Option<Self>) {
        self.checked_add(*other)
    }

    fn decimal(&self) -> (r: String) {
        let mut s = String::new();
        push_num_wide(&mut s, *self);
        proof {
            assert(s@ =~= int_decimal(*self as int));
        }
        s
    }
}

impl MstWeight for i128 {
    open spec fn wv(&self) -> int {
        *self as int
    }

    open spec fn lo() -> int {
        i128::MIN as int
    }

    open spec fn hi() -> int {
        i128::MAX as int
    }

    proof fn lemma_range(&self) {
    }

    fn zero() -> (r: Self) {
        0
    }

    fn lighter(&self, other: &Self) -> (r: bool) {
        *self < *other
    }

    fn same(&self, other: &Self) -> (r: bool) {
        *self == *other
    }

    fn checked_plus(&self, other: &Self) -> (r: Option<Self>) {
        self.checked_add(*other)
    }

    fn decimal(&self) -> (r: String) {
        let v = *self;
        let m: u128 = if v < 0 {
            (0 - (v + 1)) as u128 + 1
        } else {
            v as u128
        };
        let mut s = if v < 0 {
            proof {
                reveal_strlit("-");
            }
            String::from_str("-")
        } else {
            String::new()
        };
        let ghost head = s@;
        push_num_wide(&mut s, m);
        proof {
            if v < 0 {
                assert(head == seq!['-']);
            }
            assert(s@ =~= int_decimal(v as int));
        }
        s
    }
}

} // verus!
