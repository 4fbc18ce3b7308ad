//! Vectors of scalars, held as doubles for arithmetic.
use crate::ieee::ZERO_BITS;
use crate::linnum::{
    add_ok, add_view, div_view, mul_ok, mul_view, sub_ok, sub_view, to_rational_view, to_real_view,
    LinNum, NumView,
};
use vstd::prelude::*;

verus! {

/// The smaller of two integers.
pub open spec fn min_int(a: int, b: int) -> int {
    if a <= b {
        a
    } else {
        b
    }
}

/// The sum of the first `k` products of matching entries, accumulated from a
/// real zero.
pub open spec fn dot_seq(a: Seq<LinNum>, b: Seq<LinNum>, k: int) -> NumView
    decreases k,
{
    if k <= 0 {
        NumView::Real(ZERO_BITS)
    } else {
        add_view(dot_seq(a, b, k - 1), mul_view(a[k - 1]@, b[k - 1]@))
    }
}

/// Entry `i * j - k * l` of a cross product, before it is made a double.
pub open spec fn cross_entry(a: Seq<LinNum>, b: Seq<LinNum>, i: int, j: int) -> NumView {
    sub_view(mul_view(a[i]@, b[j]@), mul_view(a[j]@, b[i]@))
}

/// The exact steps of `cross_entry` stay in `i128`.
pub open spec fn cross_entry_ok(a: Seq<LinNum>, b: Seq<LinNum>, i: int, j: int) -> bool {
    &&& mul_ok(a[i]@, b[j]@)
    &&& mul_ok(a[j]@, b[i]@)
    &&& sub_ok(mul_view(a[i]@, b[j]@), mul_view(a[j]@, b[i]@))
}

/// A vector of scalars.
#[derive(PartialEq, Debug)]
pub struct LinVector {
    numbers: Vec<LinNum>,
}

impl View for LinVector {
    type V = Seq<LinNum>;

    closed spec fn view(&self) -> Seq<LinNum> {
        self.numbers@
    }
}

impl LinVector {
    /// The vector of the given scalars, each turned into a double.
    pub fn new(numbers: Vec<LinNum>) -> (r: LinVector)
        ensures
            r@.len() == numbers@.len(),
            forall|i: int| 0 <= i < r@.len() ==> (#[trigger] r@[i])@ == to_real_view(numbers@[i]@),
    {
        let mut out: Vec<LinNum> = Vec::new();
        let mut i: usize = 0;
        while i < numbers.len()
            invariant
                i <= numbers@.len(),
                out@.len() == i,
                forall|k: int| 0 <= k < i ==> (#[trigger] out@[k])@ == to_real_view(numbers@[k]@),
            decreases numbers@.len() - i,
        {
            out.push(numbers[i].to_real());
            i = i + 1;
        }
        LinVector { numbers: out }
    }

    /// The number of entries.
    pub fn dim(&self) -> (r: usize)
        ensures
            r == self@.len(),
    {
        self.numbers.len()
    }

    /// The entry at `index`.
    pub fn get(&self, index: usize) -> (r: LinNum)
        requires
            index < self@.len(),
        ensures
            r == self@[index as int],
    {
        self.numbers[index]
    }

    /// Replaces the entry at `index`.
    pub fn set(&mut self, index: usize, value: LinNum)
        requires
            index < old(self)@.len(),
        ensures
            final(self)@ == old(self)@.update(index as int, value),
    {
        self.numbers.set(index, value);
    }

    /// The entries, in order.
    pub fn into_numbers(self) -> (r: Vec<LinNum>)
        ensures
            r@ == self@,
    {
        self.numbers
    }

    /// The dot product over the entries the two vectors share, summed from a
    /// real zero.
    pub fn dot_product(&self, other: &LinVector) -> (r: LinNum)
        requires
            forall|i: int|
                0 <= i < min_int(self@.len() as int, other@.len() as int) ==> mul_ok(
                    #[trigger] self@[i]@,
                    other@[i]@,
                ),
        ensures
            r@ == dot_seq(self@, other@, min_int(self@.len() as int, other@.len() as int)),
    {
        let n = if self.numbers.len() <= other.numbers.len() {
            self.numbers.len()
        } else {
            other.numbers.len()
        };
        let mut result = LinNum::new_real(ZERO_BITS);
        let mut i: usize = 0;
        while i < n
            invariant
                n == min_int(self@.len() as int, other@.len() as int),
                i <= n,
                forall|k: int| 0 <= k < n ==> mul_ok(#[trigger] self@[k]@, other@[k]@),
                result@ == dot_seq(self@, other@, i as int),
                result@ is Real,
            decreases n - i,
        {
            let p = self.numbers[i].mul(other.numbers[i]);
            result = result.add(p);
            i = i + 1;
        }
        result
    }

    /// The cross product of two vectors of three entries, as doubles; `None`
    /// unless both have three entries.
    pub fn cross_product(&self, other: &LinVector) -> (r: Option<LinVector>)
        requires
            self@.len() == 3 && other@.len() == 3 ==> {
                &&& cross_entry_ok(self@, other@, 1, 2)
                &&& cross_entry_ok(self@, other@, 2, 0)
                &&& cross_entry_ok(self@, other@, 0, 1)
            },
        ensures
            r is None <==> !(self@.len() == 3 && other@.len() == 3),
            r matches Some(v) ==> {
                &&& v@.len() == 3
                &&& v@[0]@ == to_real_view(cross_entry(self@, other@, 1, 2))
                &&& v@[1]@ == to_real_view(cross_entry(self@, other@, 2, 0))
                &&& v@[2]@ == to_real_view(cross_entry(self@, other@, 0, 1))
            },
    {
        if self.dim() != 3 || other.dim() != 3 {
            return None;
        }
        let a = &self.numbers;
        let b = &other.numbers;
        let x = a[1].mul(b[2]).sub(a[2].mul(b[1]));
        let y = a[2].mul(b[0]).sub(a[0].mul(b[2]));
        let z = a[0].mul(b[1]).sub(a[1].mul(b[0]));
        Some(LinVector::new(vec![x, y, z]))
    }

    /// Every entry as a double.
    pub fn real_numbers(self) -> (r: LinVector)
        ensures
            r@.len() == self@.len(),
            forall|i: int| 0 <= i < r@.len() ==> (#[trigger] r@[i])@ == to_real_view(self@[i]@),
    {
        LinVector::new(self.numbers)
    }

    /// Every entry as a fraction.
    pub fn rational_numbers(self) -> (r: LinVector)
        ensures
            r@.len() == self@.len(),
            forall|i: int| 0 <= i < r@.len() ==> (#[trigger] r@[i])@ == to_rational_view(self@[i]@),
    {
        let mut out: Vec<LinNum> = Vec::new();
        let mut i: usize = 0;
        while i < self.numbers.len()
            invariant
                i <= self@.len(),
                out@.len() == i,
                forall|k: int| 0 <= k < i ==> (#[trigger] out@[k])@ == to_rational_view(self@[k]@),
            decreases self@.len() - i,
        {
            out.push(self.numbers[i].to_rational());
            i = i + 1;
        }
        LinVector { numbers: out }
    }

    /// The entrywise sum over the entries the two vectors share.
    pub fn add(self, other: LinVector) -> (r: LinVector)
        requires
            forall|i: int|
                0 <= i < min_int(self@.len() as int, other@.len() as int) ==> add_ok(
                    #[trigger] self@[i]@,
                    other@[i]@,
                ),
        ensures
            r@.len() == min_int(self@.len() as int, other@.len() as int),
            forall|i: int| 0 <= i < r@.len() ==> (#[trigger] r@[i])@ == add_view(self@[i]@, other@[i]@),
    {
        let n = if self.numbers.len() <= other.numbers.len() {
            self.numbers.len()
        } else {
            other.numbers.len()
        };
        let mut out: Vec<LinNum> = Vec::new();
        let mut i: usize = 0;
        while i < n
            invariant
                n == min_int(self@.len() as int, other@.len() as int),
                i <= n,
                forall|k: int| 0 <= k < n ==> add_ok(#[trigger] self@[k]@, other@[k]@),
                out@.len() == i,
                forall|k: int| 0 <= k < i ==> (#[trigger] out@[k])@ == add_view(self@[k]@, other@[k]@),
            decreases n - i,
        {
            out.push(self.numbers[i].add(other.numbers[i]));
            i = i + 1;
        }
        LinVector { numbers: out }
    }

    /// Replaces each entry that has a match in `other` by the sum of the
    /// two as doubles; the rest stay as they are.
    pub fn add_assign(&mut self, other: LinVector)
        ensures
            final(self)@.len() == old(self)@.len(),
            forall|i: int|
                0 <= i < final(self)@.len() ==> (#[trigger] final(self)@[i])@ == (if i < other@.len() {
                    add_view(to_real_view(old(self)@[i]@), to_real_view(other@[i]@))
                } else {
                    old(self)@[i]@
                }),
    {
        let n = if self.numbers.len() <= other.numbers.len() {
            self.numbers.len()
        } else {
            other.numbers.len()
        };
        let ghost start = self@;
        let mut i: usize = 0;
        while i < n
            invariant
                n == min_int(start.len() as int, other@.len() as int),
                i <= n,
                self@.len() == start.len(),
                forall|k: int|
                    0 <= k < self@.len() ==> (#[trigger] self@[k])@ == (if k < i {
                        add_view(to_real_view(start[k]@), to_real_view(other@[k]@))
                    } else {
                        start[k]@
                    }),
            decreases n - i,
        {
            let value = self.numbers[i].to_real().add(other.numbers[i].to_real());
            self.numbers.set(i, value);
            i = i + 1;
        }
    }

    /// The entrywise difference over the entries the two vectors share.
    pub fn sub(self, other: LinVector) -> (r: LinVector)
        requires
            forall|i: int|
                0 <= i < min_int(self@.len() as int, other@.len() as int) ==> sub_ok(
                    #[trigger] self@[i]@,
                    other@[i]@,
                ),
        ensures
            r@.len() == min_int(self@.len() as int, other@.len() as int),
            forall|i: int| 0 <= i < r@.len() ==> (#[trigger] r@[i])@ == sub_view(self@[i]@, other@[i]@),
    {
        let n = if self.numbers.len() <= other.numbers.len() {
            self.numbers.len()
        } else {
            other.numbers.len()
        };
        let mut out: Vec<LinNum> = Vec::new();
        let mut i: usize = 0;
        while i < n
            invariant
                n == min_int(self@.len() as int, other@.len() as int),
                i <= n,
                forall|k: int| 0 <= k < n ==> sub_ok(#[trigger] self@[k]@, other@[k]@),
                out@.len() == i,
                forall|k: int| 0 <= k < i ==> (#[trigger] out@[k])@ == sub_view(self@[k]@, other@[k]@),
            decreases n - i,
        {
            out.push(self.numbers[i].sub(other.numbers[i]));
            i = i + 1;
        }
        LinVector { numbers: out }
    }

    /// Replaces each entry that has a match in `other` by the difference of the
    /// two as doubles; the rest stay as they are.
    pub fn sub_assign(&mut self, other: LinVector)
        ensures
            final(self)@.len() == old(self)@.len(),
            forall|i: int|
                0 <= i < final(self)@.len() ==> (#[trigger] final(self)@[i])@ == (if i < other@.len() {
                    sub_view(to_real_view(old(self)@[i]@), to_real_view(other@[i]@))
                } else {
                    old(self)@[i]@
                }),
    {
        let n = if self.numbers.len() <= other.numbers.len() {
            self.numbers.len()
        } else {
            other.numbers.len()
        };
        let ghost start = self@;
        let mut i: usize = 0;
        while i < n
            invariant
                n == min_int(start.len() as int, other@.len() as int),
                i <= n,
                self@.len() == start.len(),
                forall|k: int|
                    0 <= k < self@.len() ==> (#[trigger] self@[k])@ == (if k < i {
                        sub_view(to_real_view(start[k]@), to_real_view(other@[k]@))
                    } else {
                        start[k]@
                    }),
            decreases n - i,
        {
            let value = self.numbers[i].to_real().sub(other.numbers[i].to_real());
            self.numbers.set(i, value);
            i = i + 1;
        }
    }

    /// Every entry, as a double, multiplied by `other` as a double.
    pub fn mul(self, other: LinNum) -> (r: LinVector)
        ensures
            r@.len() == self@.len(),
            forall|i: int|
                0 <= i < r@.len() ==> (#[trigger] r@[i])@ == mul_view(
                    to_real_view(self@[i]@),
                    to_real_view(other@),
                ),
    {
        let mut out: Vec<LinNum> = Vec::new();
        let mut i: usize = 0;
        while i < self.numbers.len()
            invariant
                i <= self@.len(),
                out@.len() == i,
                forall|k: int|
                    0 <= k < i ==> (#[trigger] out@[k])@ == mul_view(
                        to_real_view(self@[k]@),
                        to_real_view(other@),
                    ),
            decreases self@.len() - i,
        {
            out.push(self.numbers[i].to_real().mul(other.to_real()));
            i = i + 1;
        }
        LinVector { numbers: out }
    }

    /// Replaces every entry by itself as a double multiplied by `other` as a double.
    pub fn mul_assign(&mut self, other: LinNum)
        ensures
            final(self)@.len() == old(self)@.len(),
            forall|i: int|
                0 <= i < final(self)@.len() ==> (#[trigger] final(self)@[i])@ == mul_view(
                    to_real_view(old(self)@[i]@),
                    to_real_view(other@),
                ),
    {
        let ghost start = self@;
        let mut i: usize = 0;
        while i < self.numbers.len()
            invariant
                i <= self@.len(),
                self@.len() == start.len(),
                forall|k: int|
                    0 <= k < self@.len() ==> (#[trigger] self@[k])@ == (if k < i {
                        mul_view(to_real_view(start[k]@), to_real_view(other@))
                    } else {
                        start[k]@
                    }),
            decreases self@.len() - i,
        {
            let value = self.numbers[i].to_real().mul(other.to_real());
            self.numbers.set(i, value);
            i = i + 1;
        }
    }

    /// Every entry, as a double, divided by `other` as a double.
    pub fn div(self, other: LinNum) -> (r: LinVector)
        ensures
            r@.len() == self@.len(),
            forall|i: int|
                0 <= i < r@.len() ==> (#[trigger] r@[i])@ == div_view(
                    to_real_view(self@[i]@),
                    to_real_view(other@),
                ),
    {
        let mut out: Vec<LinNum> = Vec::new();
        let mut i: usize = 0;
        while i < self.numbers.len()
            invariant
                i <= self@.len(),
                out@.len() == i,
                forall|k: int|
                    0 <= k < i ==> (#[trigger] out@[k])@ == div_view(
                        to_real_view(self@[k]@),
                        to_real_view(other@),
                    ),
            decreases self@.len() - i,
        {
            out.push(self.numbers[i].to_real().div(other.to_real()));
            i = i + 1;
        }
        LinVector { numbers: out }
    }

    /// Replaces every entry by itself as a double divided by `other` as a double.
    pub fn div_assign(&mut self, other: LinNum)
        ensures
            final(self)@.len() == old(self)@.len(),
            forall|i: int|
                0 <= i < final(self)@.len() ==> (#[trigger] final(self)@[i])@ == div_view(
                    to_real_view(old(self)@[i]@),
                    to_real_view(other@),
                ),
    {
        let ghost start = self@;
        let mut i: usize = 0;
        while i < self.numbers.len()
            invariant
                i <= self@.len(),
                self@.len() == start.len(),
                forall|k: int|
                    0 <= k < self@.len() ==> (#[trigger] self@[k])@ == (if k < i {
                        div_view(to_real_view(start[k]@), to_real_view(other@))
                    } else {
                        start[k]@
                    }),
            decreases self@.len() - i,
        {
            let value = self.numbers[i].to_real().div(other.to_real());
            self.numbers.set(i, value);
            i = i + 1;
        }
    }
}

} // verus!
