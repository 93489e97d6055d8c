use vstd::prelude::*;

verus! {

/// A point with two coordinates of one type.
#[derive(Clone, Copy, Debug)]
pub struct Pt<T> {
    x: T,
    y: T,
}

impl<T> Pt<T> {
    pub closed spec fn spec_x(&self) -> T {
        self.x
    }

    pub closed spec fn spec_y(&self) -> T {
        self.y
    }

    pub fn new(x: T, y: T) -> (r: Self)
        ensures
            r.spec_x() == x,
            r.spec_y() == y,
    {
        Pt { x, y }
    }

    pub fn x(&self) -> (r: T)
        where
            T: Copy,
        ensures
            r == self.spec_x(),
    {
        self.x
    }

    pub fn y(&self) -> (r: T)
        where
            T: Copy,
        ensures
            r == self.spec_y(),
    {
        self.y
    }
}

} // verus!
