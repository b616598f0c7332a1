use vstd::prelude::*;

verus! {

/// The maximum access level that is possible through some relationship.
///
/// Totally ordered: `NoAccess < Read < Write` (see [`lvl`]).  The algorithm
/// depends on exactly these three values in this order: `Write` implies
/// `Read` implies existence of an access.
#[derive(Clone, Copy, Debug, PartialEq, Eq, PartialOrd, Ord, Hash, Structural)]
pub enum WildcardAccessLevel {
    NoAccess,
    Read,
    Write,
}

impl Default for WildcardAccessLevel {
    fn default() -> (r: Self)
        ensures
            r == WildcardAccessLevel::NoAccess,
    {
        WildcardAccessLevel::NoAccess
    }
}

/// Rank of an access level in the total order `NoAccess < Read < Write`.
pub open spec fn lvl(l: WildcardAccessLevel) -> int {
    match l {
        WildcardAccessLevel::NoAccess => 0,
        WildcardAccessLevel::Read => 1,
        WildcardAccessLevel::Write => 2,
    }
}

/// The stronger of two access levels.
pub open spec fn level_max(a: WildcardAccessLevel, b: WildcardAccessLevel) -> WildcardAccessLevel {
    if lvl(b) <= lvl(a) {
        a
    } else {
        b
    }
}

impl WildcardAccessLevel {
    /// Executable rank in the total order; agrees with [`lvl`].
    pub fn rank(self) -> (r: u8)
        ensures
            r as int == lvl(self),
    {
        match self {
            WildcardAccessLevel::NoAccess => 0,
            WildcardAccessLevel::Read => 1,
            WildcardAccessLevel::Write => 2,
        }
    }

    /// The stronger of `self` and `other`; agrees with [`level_max`].
    pub fn max_level(self, other: Self) -> (r: Self)
        ensures
            r == level_max(self, other),
    {
        if other.rank() <= self.rank() {
            self
        } else {
            other
        }
    }
}

/// Whether an access is a read or a write.
#[derive(Clone, Copy, Debug, PartialEq, Eq, Structural)]
pub enum AccessKind {
    Read,
    Write,
}

/// Relatedness as consumed by the permission machinery once a wildcard
/// access has been resolved to a definite side.
#[derive(Clone, Copy, Debug, PartialEq, Eq, Structural)]
pub enum AccessRelatedness {
    /// The access came through some pointer inside the node's subtree.
    WildcardChildAccess,
    /// The access came through some pointer outside the node's subtree.
    WildcardForeignAccess,
}

/// Where, relative to a node, an exposed pointer capable of the access lives.
#[derive(Clone, Copy, Debug, PartialEq, Eq, Structural)]
pub enum WildcardAccessRelatedness {
    /// The access definitively happened through a child pointer.
    ChildAccess,
    /// The access definitively happened through a foreign pointer.
    ForeignAccess,
    /// It cannot be distinguished whether the access is foreign or child.
    EitherAccess,
}

impl WildcardAccessRelatedness {
    /// Collapse to the form the permission machinery consumes: a definite
    /// side, or `None` when the origin is genuinely ambiguous.
    pub fn to_relatedness(self) -> (r: Option<AccessRelatedness>)
        ensures
            r == match self {
                WildcardAccessRelatedness::ChildAccess => Some(
                    AccessRelatedness::WildcardChildAccess,
                ),
                WildcardAccessRelatedness::ForeignAccess => Some(
                    AccessRelatedness::WildcardForeignAccess,
                ),
                WildcardAccessRelatedness::EitherAccess => None::<AccessRelatedness>,
            },
    {
        match self {
            Self::ChildAccess => Some(AccessRelatedness::WildcardChildAccess),
            Self::ForeignAccess => Some(AccessRelatedness::WildcardForeignAccess),
            Self::EitherAccess => None,
        }
    }
}

} // verus!
