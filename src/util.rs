use vstd::prelude::*;

verus! {

/// What recording a distance did to a distance map.
#[derive(Debug, Clone, Copy, PartialEq, Eq, Structural)]
pub enum AddUpdate {
    /// A value at least as small was there already; nothing changed.
    Exists,
    /// The cell had no value and now has one.
    Added,
    /// The cell had a larger value, which was replaced.
    Updated,
}

impl AddUpdate {
    pub fn existing(&self) -> (r: bool)
        ensures
            r == (*self == AddUpdate::Exists),
    {
        matches!(self, AddUpdate::Exists)
    }

    pub fn added(&self) -> (r: bool)
        ensures
            r == (*self == AddUpdate::Added),
    {
        matches!(self, AddUpdate::Added)
    }

    pub fn updated(&self) -> (r: bool)
        ensures
            r == (*self == AddUpdate::Updated),
    {
        matches!(self, AddUpdate::Updated)
    }
}

} // verus!
