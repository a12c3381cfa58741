//! Ordered levels used by proofs, and version ranges.
use vstd::prelude::*;

verus! {

/// Trust placed in an identity, ordered `Distrust < NoTrust < Low < Medium < High`.
#[derive(Clone, Copy, Debug, PartialEq, Eq, Structural)]
pub enum TrustLevel {
    Distrust,
    NoTrust,
    Low,
    Medium,
    High,
}

/// Position of a trust level in its order.
pub open spec fn trust_rank(l: TrustLevel) -> nat {
    match l {
        TrustLevel::Distrust => 0,
        TrustLevel::NoTrust => 1,
        TrustLevel::Low => 2,
        TrustLevel::Medium => 3,
        TrustLevel::High => 4,
    }
}

/// The weaker of two trust levels.
pub open spec fn trust_min_spec(a: TrustLevel, b: TrustLevel) -> TrustLevel {
    if trust_rank(a) <= trust_rank(b) { a } else { b }
}

impl TrustLevel {
    /// Position of the level in its order.
    pub fn rank(&self) -> (r: u8)
        ensures
            r as nat == trust_rank(*self),
    {
        match self {
            TrustLevel::Distrust => 0,
            TrustLevel::NoTrust => 1,
            TrustLevel::Low => 2,
            TrustLevel::Medium => 3,
            TrustLevel::High => 4,
        }
    }

    /// True when `self` is at least `other`.
    pub fn at_least(&self, other: &TrustLevel) -> (r: bool)
        ensures
            r == (trust_rank(*self) >= trust_rank(*other)),
    {
        self.rank() >= other.rank()
    }

    /// The weaker of the two levels.
    pub fn min_with(&self, other: &TrustLevel) -> (r: TrustLevel)
        ensures
            r == trust_min_spec(*self, *other),
    {
        if self.rank() <= other.rank() { *self } else { *other }
    }
}

/// Thoroughness, understanding and issue severity: `Zero < Low < Medium < High`.
#[derive(Clone, Copy, Debug, PartialEq, Eq, Structural)]
pub enum Level {
    Zero,
    Low,
    Medium,
    High,
}

/// Numeric weight of a level, used when summing reviews.
pub open spec fn level_value(l: Level) -> nat {
    match l {
        Level::Zero => 0,
        Level::Low => 1,
        Level::Medium => 2,
        Level::High => 3,
    }
}

impl Level {
    /// Numeric weight of the level.
    pub fn value(&self) -> (r: u8)
        ensures
            r as nat == level_value(*self),
    {
        match self {
            Level::Zero => 0,
            Level::Low => 1,
            Level::Medium => 2,
            Level::High => 3,
        }
    }
}

/// Overall rating of a package review.
#[derive(Clone, Copy, Debug, PartialEq, Eq, Structural)]
pub enum Rating {
    Negative,
    Neutral,
    Positive,
    Strong,
}

/// A package version `major.minor.patch`.
#[derive(Clone, Copy, Debug, PartialEq, Eq, Structural)]
pub struct Version {
    pub major: u64,
    pub minor: u64,
    pub patch: u64,
}

/// Lexicographic order on versions.
pub open spec fn version_le(a: Version, b: Version) -> bool {
    a.major < b.major || (a.major == b.major && (a.minor < b.minor || (a.minor == b.minor
        && a.patch <= b.patch)))
}

impl Version {
    pub fn new(major: u64, minor: u64, patch: u64) -> (r: Version)
        ensures
            r.major == major && r.minor == minor && r.patch == patch,
    {
        Version { major, minor, patch }
    }

    /// True when `self` is at most `other` in version order.
    pub fn le(&self, other: &Version) -> (r: bool)
        ensures
            r == version_le(*self, *other),
    {
        self.major < other.major || (self.major == other.major && (self.minor < other.minor || (
        self.minor == other.minor && self.patch <= other.patch)))
    }
}

/// The versions a proof about version `v` speaks for.
#[derive(Clone, Copy, Debug, PartialEq, Eq, Structural)]
pub enum VersionRange {
    /// Every version with the same major number.
    Major,
    /// Every version with the same major and minor numbers.
    Minor,
    /// Every version up to and including the stated one.
    AllLte,
    /// Every version.
    All,
}

/// Whether a proof about version `stated` with range `range` speaks for `v`.
pub open spec fn range_covers(range: VersionRange, stated: Version, v: Version) -> bool {
    match range {
        VersionRange::Major => v.major == stated.major,
        VersionRange::Minor => v.major == stated.major && v.minor == stated.minor,
        VersionRange::AllLte => version_le(v, stated),
        VersionRange::All => true,
    }
}

impl VersionRange {
    /// Whether a proof about version `stated` with this range speaks for `v`.
    pub fn covers(&self, stated: &Version, v: &Version) -> (r: bool)
        ensures
            r == range_covers(*self, *stated, *v),
    {
        match self {
            VersionRange::Major => v.major == stated.major,
            VersionRange::Minor => v.major == stated.major && v.minor == stated.minor,
            VersionRange::AllLte => v.le(stated),
            VersionRange::All => true,
        }
    }
}

} // verus!
