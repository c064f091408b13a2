use vstd::prelude::*;
use std::ops::{BitAnd, BitOr, BitOrAssign};
use vstd::std_specs::ops::{BitAndSpecImpl, BitOrSpecImpl};

verus! {

/// Bit set of the buttons a player holds down during a tick.
#[derive(Debug, Clone, Copy, PartialEq, Eq, Structural, Hash, Default)]
pub struct InputButtons(pub u64);

impl InputButtons {
    pub fn none() -> (r: Self)
        ensures
            r.0 == 0,
    {
        InputButtons(0)
    }
    pub fn in_attack() -> (r: Self)
        ensures
            r.0 == 0x1,
    {
        InputButtons(0x1)
    }
    pub fn in_attack2() -> (r: Self)
        ensures
            r.0 == 0x2,
    {
        InputButtons(0x2)
    }
    pub fn in_use() -> (r: Self)
        ensures
            r.0 == 0x4,
    {
        InputButtons(0x4)
    }
    pub fn in_sprint() -> (r: Self)
        ensures
            r.0 == 0x8,
    {
        InputButtons(0x8)
    }
    pub fn in_walk() -> (r: Self)
        ensures
            r.0 == 0x10,
    {
        InputButtons(0x10)
    }
    pub fn in_duck() -> (r: Self)
        ensures
            r.0 == 0x20,
    {
        InputButtons(0x20)
    }
    pub fn in_jump() -> (r: Self)
        ensures
            r.0 == 0x40,
    {
        InputButtons(0x40)
    }
    pub fn in_reload() -> (r: Self)
        ensures
            r.0 == 0x80,
    {
        InputButtons(0x80)
    }

    /// True when every bit of `other` is set in `self`.
    pub fn contains(self, other: Self) -> (r: bool)
        ensures
            r == (self.0 & other.0 == other.0),
    {
        (self.0 & other.0) == other.0
    }

    /// The same test as `contains`.
    pub fn has_buttons(self, other: Self) -> (r: bool)
        ensures
            r == (self.0 & other.0 == other.0),
    {
        self.contains(other)
    }

    /// True when `self` and `other` share at least one bit.
    pub fn intersects(self, other: Self) -> (r: bool)
        ensures
            r == (self.0 & other.0 != 0),
    {
        (self.0 & other.0) != 0
    }
}

impl BitOr for InputButtons {
    type Output = Self;

    fn bitor(self, rhs: Self) -> (r: Self) {
        InputButtons(self.0 | rhs.0)
    }
}

impl BitOrSpecImpl for InputButtons {
    open spec fn obeys_bitor_spec() -> bool {
        true
    }

    open spec fn bitor_req(self, rhs: Self) -> bool {
        true
    }

    open spec fn bitor_spec(self, rhs: Self) -> Self {
        InputButtons(self.0 | rhs.0)
    }
}

impl BitAnd for InputButtons {
    type Output = Self;

    fn bitand(self, rhs: Self) -> (r: Self) {
        InputButtons(self.0 & rhs.0)
    }
}

impl BitAndSpecImpl for InputButtons {
    open spec fn obeys_bitand_spec() -> bool {
        true
    }

    open spec fn bitand_req(self, rhs: Self) -> bool {
        true
    }

    open spec fn bitand_spec(self, rhs: Self) -> Self {
        InputButtons(self.0 & rhs.0)
    }
}

impl BitOrAssign for InputButtons {
    fn bitor_assign(&mut self, rhs: Self)
        ensures
            final(self).0 == old(self).0 | rhs.0,
    {
        self.0 = self.0 | rhs.0;
    }
}

/// Bit set of state flags an entity carries.
#[derive(Debug, Clone, Copy, PartialEq, Eq, Structural, Hash, Default)]
pub struct EntityFlags(pub u64);

impl EntityFlags {
    pub fn none() -> (r: Self)
        ensures
            r.0 == 0,
    {
        EntityFlags(0)
    }
    pub fn fl_onground() -> (r: Self)
        ensures
            r.0 == 0x1,
    {
        EntityFlags(0x1)
    }
    pub fn fl_onfire() -> (r: Self)
        ensures
            r.0 == 0x2,
    {
        EntityFlags(0x2)
    }

    /// True when every bit of `other` is set in `self`.
    pub fn contains(self, other: Self) -> (r: bool)
        ensures
            r == (self.0 & other.0 == other.0),
    {
        (self.0 & other.0) == other.0
    }

    /// The same test as `contains`.
    pub fn has_buttons(self, other: Self) -> (r: bool)
        ensures
            r == (self.0 & other.0 == other.0),
    {
        self.contains(other)
    }

    /// True when `self` and `other` share at least one bit.
    pub fn intersects(self, other: Self) -> (r: bool)
        ensures
            r == (self.0 & other.0 != 0),
    {
        (self.0 & other.0) != 0
    }
}

impl BitOr for EntityFlags {
    type Output = Self;

    fn bitor(self, rhs: Self) -> (r: Self) {
        EntityFlags(self.0 | rhs.0)
    }
}

impl BitOrSpecImpl for EntityFlags {
    open spec fn obeys_bitor_spec() -> bool {
        true
    }

    open spec fn bitor_req(self, rhs: Self) -> bool {
        true
    }

    open spec fn bitor_spec(self, rhs: Self) -> Self {
        EntityFlags(self.0 | rhs.0)
    }
}

impl BitAnd for EntityFlags {
    type Output = Self;

    fn bitand(self, rhs: Self) -> (r: Self) {
        EntityFlags(self.0 & rhs.0)
    }
}

impl BitAndSpecImpl for EntityFlags {
    open spec fn obeys_bitand_spec() -> bool {
        true
    }

    open spec fn bitand_req(self, rhs: Self) -> bool {
        true
    }

    open spec fn bitand_spec(self, rhs: Self) -> Self {
        EntityFlags(self.0 & rhs.0)
    }
}

impl BitOrAssign for EntityFlags {
    fn bitor_assign(&mut self, rhs: Self)
        ensures
            final(self).0 == old(self).0 | rhs.0,
    {
        self.0 = self.0 | rhs.0;
    }
}

/// A set contains itself and every subset of itself; a union contains both
/// of its sides; and two sets intersect exactly when their common bits are
/// not empty.
pub proof fn lemma_flag_laws(a: u64, b: u64)
    ensures
        a & a == a,
        (a | b) & a == a,
        (a | b) & b == b,
        a & 0 == 0,
        (a & b) == (b & a),
        ((a & b) & b) == (a & b),
{
    assert(a & a == a) by (bit_vector);
    assert((a | b) & a == a) by (bit_vector);
    assert((a | b) & b == b) by (bit_vector);
    assert(a & 0 == 0) by (bit_vector);
    assert((a & b) == (b & a)) by (bit_vector);
    assert(((a & b) & b) == (a & b)) by (bit_vector);
}

} // verus!
