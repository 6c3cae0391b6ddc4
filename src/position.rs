//! Positions tagged with the buffer they belong to, so that a position in
//! one kind of buffer cannot be used in another.
use vstd::prelude::*;
use core::marker::PhantomData;

verus! {

/// A position as a row and a column.
#[derive(Clone, Copy, Debug, Default, PartialEq, Eq, Structural, PartialOrd, Ord, Hash)]
pub struct Point {
    pub row: u32,
    pub column: u32,
}

/// A position as a row and a column counted in UTF-16 code units.
#[derive(Clone, Copy, Debug, Default, PartialEq, Eq, Structural, PartialOrd, Ord, Hash)]
pub struct PointUtf16 {
    pub row: u32,
    pub column: u32,
}

/// A byte offset in a buffer of kind `T`.
pub struct TypedOffset<T> {
    pub offset: usize,
    _marker: PhantomData<T>,
}

/// A point in a buffer of kind `T`.
pub struct TypedPoint<T> {
    pub point: Point,
    _marker: PhantomData<T>,
}

/// A UTF-16 point in a buffer of kind `T`.
pub struct TypedPointUtf16<T> {
    pub point: PointUtf16,
    _marker: PhantomData<T>,
}

/// A row in a buffer of kind `T`.
pub struct TypedRow<T> {
    pub row: u32,
    _marker: PhantomData<T>,
}

impl<T> View for TypedOffset<T> {
    type V = usize;

    closed spec fn view(&self) -> usize {
        self.offset
    }
}

impl<T> View for TypedPoint<T> {
    type V = Point;

    closed spec fn view(&self) -> Point {
        self.point
    }
}

impl<T> View for TypedPointUtf16<T> {
    type V = PointUtf16;

    closed spec fn view(&self) -> PointUtf16 {
        self.point
    }
}

impl<T> View for TypedRow<T> {
    type V = u32;

    closed spec fn view(&self) -> u32 {
        self.row
    }
}

impl<T> TypedOffset<T> {
    pub fn new(offset: usize) -> (r: Self)
        ensures
            r@ == offset,
    {
        TypedOffset { offset, _marker: PhantomData }
    }

    /// The sum of two offsets.
    pub fn add(self, other: Self) -> (r: Self)
        requires
            self@ + other@ <= usize::MAX,
        ensures
            r@ == self@ + other@,
    {
        TypedOffset::new(self.offset + other.offset)
    }

    /// The distance from `other` up to `self`.
    pub fn sub(self, other: Self) -> (r: Self)
        requires
            other@ <= self@,
        ensures
            r@ == self@ - other@,
    {
        TypedOffset::new(self.offset - other.offset)
    }

    pub fn add_assign(&mut self, other: Self)
        requires
            old(self)@ + other@ <= usize::MAX,
        ensures
            final(self)@ == old(self)@ + other@,
    {
        self.offset = self.offset + other.offset;
    }

    pub fn sub_assign(&mut self, other: Self)
        requires
            other@ <= old(self)@,
        ensures
            final(self)@ == old(self)@ - other@,
    {
        self.offset = self.offset - other.offset;
    }
}

impl<T> TypedPoint<T> {
    pub fn new(row: u32, column: u32) -> (r: Self)
        ensures
            r@ == (Point { row, column }),
    {
        TypedPoint { point: Point { row, column }, _marker: PhantomData }
    }

    pub fn with(point: Point) -> (r: Self)
        ensures
            r@ == point,
    {
        TypedPoint { point, _marker: PhantomData }
    }
}

impl<T> TypedPointUtf16<T> {
    pub fn new(row: u32, column: u32) -> (r: Self)
        ensures
            r@ == (PointUtf16 { row, column }),
    {
        TypedPointUtf16 { point: PointUtf16 { row, column }, _marker: PhantomData }
    }

    pub fn with(point: PointUtf16) -> (r: Self)
        ensures
            r@ == point,
    {
        TypedPointUtf16 { point, _marker: PhantomData }
    }
}

impl<T> TypedRow<T> {
    pub fn new(row: u32) -> (r: Self)
        ensures
            r@ == row,
    {
        TypedRow { row, _marker: PhantomData }
    }

    pub fn sub_assign(&mut self, other: Self)
        requires
            other@ <= old(self)@,
        ensures
            final(self)@ == old(self)@ - other@,
    {
        self.row = self.row - other.row;
    }
}

impl<T> Clone for TypedOffset<T> {
    fn clone(&self) -> (r: Self)
        ensures
            r@ == self@,
    {
        TypedOffset::new(self.offset)
    }
}

impl<T> Copy for TypedOffset<T> {}

impl<T> Clone for TypedPoint<T> {
    fn clone(&self) -> (r: Self)
        ensures
            r@ == self@,
    {
        TypedPoint::with(self.point)
    }
}

impl<T> Copy for TypedPoint<T> {}

impl<T> Clone for TypedPointUtf16<T> {
    fn clone(&self) -> (r: Self)
        ensures
            r@ == self@,
    {
        TypedPointUtf16::with(self.point)
    }
}

impl<T> Copy for TypedPointUtf16<T> {}

impl<T> Clone for TypedRow<T> {
    fn clone(&self) -> (r: Self)
        ensures
            r@ == self@,
    {
        TypedRow::new(self.row)
    }
}

impl<T> Copy for TypedRow<T> {}

impl<T> Default for TypedOffset<T> {
    fn default() -> (r: Self)
        ensures
            r@ == 0,
    {
        TypedOffset::new(0)
    }
}

impl<T> Default for TypedPoint<T> {
    fn default() -> (r: Self)
        ensures
            r@ == (Point { row: 0, column: 0 }),
    {
        TypedPoint::new(0, 0)
    }
}

impl<T> Default for TypedRow<T> {
    fn default() -> (r: Self)
        ensures
            r@ == 0,
    {
        TypedRow::new(0)
    }
}

} // verus!
