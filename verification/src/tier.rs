//! Route tiers: the four complexity classes a request is sorted into.

use crate::text::same;
use core::cmp::Ordering;
use vstd::prelude::*;
use vstd::std_specs::cmp::{PartialEqSpec, PartialOrdSpec};

verus! {

/// Route classification tier (complexity of the request).
#[derive(Debug, Clone, Copy, Eq, Ord, Hash)]
pub enum RouteClass {
    /// Trivial chat: lightest model.
    R0,
    /// Simple task: single-step operations, simple questions.
    R1,
    /// Complex task: code generation, multi-step reasoning.
    R2,
    /// High-stakes task: debugging, error diagnosis, long context.
    R3,
}

impl RouteClass {
    /// All tiers, lightest first.
    pub const ALL: [RouteClass; 4] = [
        RouteClass::R0,
        RouteClass::R1,
        RouteClass::R2,
        RouteClass::R3,
    ];

    /// Position of the tier in the order from lightest to heaviest.
    pub open spec fn rank(self) -> int {
        match self {
            RouteClass::R0 => 0,
            RouteClass::R1 => 1,
            RouteClass::R2 => 2,
            RouteClass::R3 => 3,
        }
    }

    /// The tier's name.
    pub open spec fn name(self) -> Seq<char> {
        match self {
            RouteClass::R0 => "R0"@,
            RouteClass::R1 => "R1"@,
            RouteClass::R2 => "R2"@,
            RouteClass::R3 => "R3"@,
        }
    }

    /// The tier at a position, if there is one.
    pub open spec fn at_rank(idx: int) -> Option<RouteClass> {
        if idx == 0 {
            Some(RouteClass::R0)
        } else if idx == 1 {
            Some(RouteClass::R1)
        } else if idx == 2 {
            Some(RouteClass::R2)
        } else if idx == 3 {
            Some(RouteClass::R3)
        } else {
            None
        }
    }

    /// The tier with a name, if there is one.
    pub open spec fn named(s: Seq<char>) -> Option<RouteClass> {
        if s == "R0"@ {
            Some(RouteClass::R0)
        } else if s == "R1"@ {
            Some(RouteClass::R1)
        } else if s == "R2"@ {
            Some(RouteClass::R2)
        } else if s == "R3"@ {
            Some(RouteClass::R3)
        } else {
            None
        }
    }

    pub fn as_str(&self) -> (s: &'static str)
        ensures
            s@ == self.name(),
    {
        match self {
            RouteClass::R0 => "R0",
            RouteClass::R1 => "R1",
            RouteClass::R2 => "R2",
            RouteClass::R3 => "R3",
        }
    }

    /// The tier's name as an owned string.
    pub fn to_string(&self) -> (s: String)
        ensures
            s@ == self.name(),
    {
        self.as_str().to_owned()
    }

    pub fn index(&self) -> (idx: usize)
        ensures
            idx == self.rank(),
    {
        match self {
            RouteClass::R0 => 0,
            RouteClass::R1 => 1,
            RouteClass::R2 => 2,
            RouteClass::R3 => 3,
        }
    }

    pub fn from_index(idx: usize) -> (res: Option<Self>)
        ensures
            res == RouteClass::at_rank(idx as int),
    {
        match idx {
            0 => Some(RouteClass::R0),
            1 => Some(RouteClass::R1),
            2 => Some(RouteClass::R2),
            3 => Some(RouteClass::R3),
            _ => None,
        }
    }

    pub fn parse_from_str(s: &str) -> (res: Option<Self>)
        ensures
            res == RouteClass::named(s@),
    {
        if same(s, "R0") {
            Some(RouteClass::R0)
        } else if same(s, "R1") {
            Some(RouteClass::R1)
        } else if same(s, "R2") {
            Some(RouteClass::R2)
        } else if same(s, "R3") {
            Some(RouteClass::R3)
        } else {
            None
        }
    }

    /// The next-higher tier; the highest tier stays where it is.
    pub open spec fn next(self) -> RouteClass {
        match self {
            RouteClass::R0 => RouteClass::R1,
            RouteClass::R1 => RouteClass::R2,
            RouteClass::R2 => RouteClass::R3,
            RouteClass::R3 => RouteClass::R3,
        }
    }

    /// Upgrade to the next-higher tier (more capable model).
    pub fn upgrade(&self) -> (res: RouteClass)
        ensures
            res == self.next(),
    {
        match self {
            RouteClass::R0 => RouteClass::R1,
            RouteClass::R1 => RouteClass::R2,
            RouteClass::R2 => RouteClass::R3,
            RouteClass::R3 => RouteClass::R3,
        }
    }
}

impl PartialEq for RouteClass {
    fn eq(&self, other: &Self) -> (res: bool) {
        self.index() == other.index()
    }
}

impl vstd::std_specs::cmp::PartialEqSpecImpl for RouteClass {
    open spec fn obeys_eq_spec() -> bool {
        true
    }

    open spec fn eq_spec(&self, other: &Self) -> bool {
        *self == *other
    }
}

impl PartialOrd for RouteClass {
    fn partial_cmp(&self, other: &Self) -> (res: Option<Ordering>) {
        let a = self.index();
        let b = other.index();
        if a < b {
            Some(Ordering::Less)
        } else if a == b {
            Some(Ordering::Equal)
        } else {
            Some(Ordering::Greater)
        }
    }
}

impl vstd::std_specs::cmp::PartialOrdSpecImpl for RouteClass {
    open spec fn obeys_partial_cmp_spec() -> bool {
        true
    }

    open spec fn partial_cmp_spec(&self, other: &Self) -> Option<Ordering> {
        if self.rank() < other.rank() {
            Some(Ordering::Less)
        } else if self.rank() == other.rank() {
            Some(Ordering::Equal)
        } else {
            Some(Ordering::Greater)
        }
    }
}

/// Every tier is found again by its position and by its name.
pub proof fn tier_roundtrip(tier: RouteClass)
    ensures
        RouteClass::at_rank(tier.rank()) == Some(tier),
        RouteClass::named(tier.name()) == Some(tier),
{
    reveal_strlit("R0");
    reveal_strlit("R1");
    reveal_strlit("R2");
    reveal_strlit("R3");
    assert("R0"@[1] != "R1"@[1] && "R0"@[1] != "R2"@[1] && "R0"@[1] != "R3"@[1]);
    assert("R1"@[1] != "R2"@[1] && "R1"@[1] != "R3"@[1] && "R2"@[1] != "R3"@[1]);
}

/// An upgrade climbs exactly one tier, except from the highest, and names a
/// tier no lighter than the one it started from.
pub proof fn upgrade_climbs(tier: RouteClass)
    ensures
        tier.next().rank() == if tier.rank() < 3 { tier.rank() + 1 } else { 3 },
{
}

/// Tiers are ordered from the lightest to the heaviest.
pub proof fn heavier_tiers_are_greater(a: RouteClass, b: RouteClass)
    ensures
        a.eq_spec(&b) <==> a.rank() == b.rank(),
        a.partial_cmp_spec(&b) == Some(Ordering::Less) <==> a.rank() < b.rank(),
        a.partial_cmp_spec(&b) == Some(Ordering::Greater) <==> b.rank() < a.rank(),
        a.partial_cmp_spec(&b) == Some(Ordering::Equal) <==> a == b,
        RouteClass::R0.rank() <= a.rank() <= RouteClass::R3.rank(),
{
}

} // verus!
