use vstd::prelude::*;

verus! {

/// The Java Edition releases whose wire format the packet codecs tell apart,
/// listed oldest first.
#[allow(non_camel_case_types)]
#[derive(Clone, Copy, Debug, PartialEq, Eq, Structural)]
pub enum JavaMinecraftVersion {
    V_1_14,
    V_1_15,
    V_1_16,
    V_1_17,
    V_1_18,
    V_1_19,
    V_1_19_4,
    V_1_20,
    V_1_21,
    V_26_1,
    V_26_2,
}

impl JavaMinecraftVersion {
    /// Position of the release in chronological order.
    pub open spec fn rank(self) -> nat {
        match self {
            JavaMinecraftVersion::V_1_14 => 0,
            JavaMinecraftVersion::V_1_15 => 1,
            JavaMinecraftVersion::V_1_16 => 2,
            JavaMinecraftVersion::V_1_17 => 3,
            JavaMinecraftVersion::V_1_18 => 4,
            JavaMinecraftVersion::V_1_19 => 5,
            JavaMinecraftVersion::V_1_19_4 => 6,
            JavaMinecraftVersion::V_1_20 => 7,
            JavaMinecraftVersion::V_1_21 => 8,
            JavaMinecraftVersion::V_26_1 => 9,
            JavaMinecraftVersion::V_26_2 => 10,
        }
    }

    /// Position of the release in chronological order.
    pub fn ordinal(&self) -> (r: u8)
        ensures
            r == self.rank(),
    {
        match self {
            JavaMinecraftVersion::V_1_14 => 0,
            JavaMinecraftVersion::V_1_15 => 1,
            JavaMinecraftVersion::V_1_16 => 2,
            JavaMinecraftVersion::V_1_17 => 3,
            JavaMinecraftVersion::V_1_18 => 4,
            JavaMinecraftVersion::V_1_19 => 5,
            JavaMinecraftVersion::V_1_19_4 => 6,
            JavaMinecraftVersion::V_1_20 => 7,
            JavaMinecraftVersion::V_1_21 => 8,
            JavaMinecraftVersion::V_26_1 => 9,
            JavaMinecraftVersion::V_26_2 => 10,
        }
    }

    /// Whether this release is `other` or a later one.
    pub fn is_at_least(&self, other: JavaMinecraftVersion) -> (r: bool)
        ensures
            r == (self.rank() >= other.rank()),
    {
        self.ordinal() >= other.ordinal()
    }

    /// Whether this release is `other` or an earlier one.
    pub fn is_at_most(&self, other: JavaMinecraftVersion) -> (r: bool)
        ensures
            r == (self.rank() <= other.rank()),
    {
        self.ordinal() <= other.ordinal()
    }
}

/// Releases are ranked in the order they came out: each release of the list
/// ranks below the one after it.
pub proof fn lemma_rank_is_chronological()
    ensures
        JavaMinecraftVersion::V_1_14.rank() < JavaMinecraftVersion::V_1_15.rank(),
        JavaMinecraftVersion::V_1_15.rank() < JavaMinecraftVersion::V_1_16.rank(),
        JavaMinecraftVersion::V_1_16.rank() < JavaMinecraftVersion::V_1_17.rank(),
        JavaMinecraftVersion::V_1_17.rank() < JavaMinecraftVersion::V_1_18.rank(),
        JavaMinecraftVersion::V_1_18.rank() < JavaMinecraftVersion::V_1_19.rank(),
        JavaMinecraftVersion::V_1_19.rank() < JavaMinecraftVersion::V_1_19_4.rank(),
        JavaMinecraftVersion::V_1_19_4.rank() < JavaMinecraftVersion::V_1_20.rank(),
        JavaMinecraftVersion::V_1_20.rank() < JavaMinecraftVersion::V_1_21.rank(),
        JavaMinecraftVersion::V_1_21.rank() < JavaMinecraftVersion::V_26_1.rank(),
        JavaMinecraftVersion::V_26_1.rank() < JavaMinecraftVersion::V_26_2.rank(),
{
}

/// A release ranks at or above another exactly when it is the same or a later
/// one in the list.
pub proof fn lemma_rank_order(a: JavaMinecraftVersion, b: JavaMinecraftVersion)
    ensures
        a.rank() == b.rank() <==> a == b,
{
}

} // verus!
