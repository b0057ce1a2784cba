//! World states: sets of facts, held as bit masks.

use vstd::prelude::*;
use crate::action::Action;
use crate::theory::{reached_by, regress};

verus! {

/// A boolean proposition about the world. The universe of facts is closed:
/// a state speaks of these and of no others.
#[derive(Clone, Copy, Debug, PartialEq, Eq, Hash)]
pub enum Fact {
    /// The agent carries an axe.
    HasAxe,
    /// The agent carries wood.
    HasWood,
    /// An axe lies somewhere within reach.
    AxeAvailable,
}

/// A set of facts in one machine word, one bit per fact.
///
/// Its view is the set of facts whose bit is set. No other bit is ever set
/// in a mask that a program holds, so two such masks with the same view are
/// the same mask.
#[derive(Clone, Copy, Debug, PartialEq, Eq, Hash, Structural)]
pub struct StateFlag {
    bits: u32,
}

/// The bit that stands for a fact.
pub closed spec fn fact_bit(f: Fact) -> u32 {
    match f {
        Fact::HasAxe => 1,
        Fact::HasWood => 2,
        Fact::AxeAvailable => 4,
    }
}

impl View for StateFlag {
    type V = Set<Fact>;

    closed spec fn view(&self) -> Set<Fact> {
        Set::new(|f: Fact| self.bits & fact_bit(f) != 0)
    }
}

proof fn lemma_bits_of_union(a: u32, b: u32, m: u32)
    by (bit_vector)
    ensures
        ((a | b) & m != 0) == (a & m != 0 || b & m != 0),
        a <= 7 && b <= 7 ==> (a | b) <= 7,
{
}

proof fn lemma_bits_of_difference(a: u32, b: u32, m: u32)
    by (bit_vector)
    requires
        m == 1 || m == 2 || m == 4,
    ensures
        ((a & !b) & m != 0) == (a & m != 0 && b & m == 0),
        a <= 7 ==> (a & !b) <= 7,
{
}

proof fn lemma_bits_of_subset(a: u32, b: u32)
    by (bit_vector)
    requires
        a <= 7,
        b <= 7,
    ensures
        (a & b == b) == ((b & 1 != 0 ==> a & 1 != 0) && (b & 2 != 0 ==> a & 2 != 0) && (b & 4 != 0
            ==> a & 4 != 0)),
{
}

proof fn lemma_bits_decide(a: u32, b: u32)
    by (bit_vector)
    requires
        a <= 7,
        b <= 7,
        (a & 1 != 0) == (b & 1 != 0),
        (a & 2 != 0) == (b & 2 != 0),
        (a & 4 != 0) == (b & 4 != 0),
    ensures
        a == b,
{
}

proof fn lemma_bits_of_single(b: u32, m: u32)
    by (bit_vector)
    requires
        b == 0 || b == 1 || b == 2 || b == 4,
        m == 1 || m == 2 || m == 4,
    ensures
        (b & m != 0) == (b == m),
{
}

impl StateFlag {
    /// Only the bits of the three facts are set.
    #[verifier::type_invariant]
    pub closed spec fn well_formed(self) -> bool {
        self.bits <= 7
    }

    /// The mask that holds exactly the facts of `self` and of `other`.
    pub closed spec fn spec_union(self, other: StateFlag) -> StateFlag {
        StateFlag { bits: self.bits | other.bits }
    }

    /// The mask that holds the facts of `self` that `other` does not hold.
    pub closed spec fn spec_difference(self, other: StateFlag) -> StateFlag {
        StateFlag { bits: self.bits & !other.bits }
    }

    /// `spec_union` holds the facts of both, and is well formed where both are.
    pub proof fn lemma_spec_union(self, other: StateFlag)
        ensures
            self.spec_union(other)@ == self@.union(other@),
            self.well_formed() && other.well_formed() ==> self.spec_union(other).well_formed(),
    {
        let r = self.spec_union(other);
        assert forall|f: Fact| r@.contains(f) == self@.union(other@).contains(f) by {
            lemma_bits_of_union(self.bits, other.bits, fact_bit(f));
        }
        lemma_bits_of_union(self.bits, other.bits, 1);
    }

    /// `spec_difference` holds the facts of the one that the other does not
    /// hold, and is well formed where the one is.
    pub proof fn lemma_spec_difference(self, other: StateFlag)
        ensures
            self.spec_difference(other)@ == self@.difference(other@),
            self.well_formed() ==> self.spec_difference(other).well_formed(),
    {
        let r = self.spec_difference(other);
        assert forall|f: Fact| r@.contains(f) == self@.difference(other@).contains(f) by {
            lemma_bits_of_difference(self.bits, other.bits, fact_bit(f));
        }
        lemma_bits_of_difference(self.bits, other.bits, 1);
    }

    /// Two well-formed masks that hold the same facts are one mask.
    pub proof fn lemma_view_decides(self, other: StateFlag)
        requires
            self.well_formed(),
            other.well_formed(),
            self@ == other@,
        ensures
            self == other,
    {
        assert(self@.contains(Fact::HasAxe) == (self.bits & 1 != 0));
        assert(other@.contains(Fact::HasAxe) == (other.bits & 1 != 0));
        assert(self@.contains(Fact::HasWood) == (self.bits & 2 != 0));
        assert(other@.contains(Fact::HasWood) == (other.bits & 2 != 0));
        assert(self@.contains(Fact::AxeAvailable) == (self.bits & 4 != 0));
        assert(other@.contains(Fact::AxeAvailable) == (other.bits & 4 != 0));
        lemma_bits_decide(self.bits, other.bits);
    }

    proof fn lemma_single(self, f: Fact)
        requires
            self.bits == fact_bit(f),
        ensures
            self@ == set![f],
    {
        assert forall|g: Fact| self@.contains(g) == set![f].contains(g) by {
            lemma_bits_of_single(self.bits, fact_bit(g));
        }
    }

    /// The state in which no fact holds.
    pub fn none() -> (r: StateFlag)
        ensures
            r@ == Set::<Fact>::empty(),
    {
        let r = StateFlag { bits: 0 };
        proof {
            assert forall|g: Fact| !r@.contains(g) by {
                lemma_bits_of_single(0, fact_bit(g));
            }
        }
        r
    }

    /// The state in which the agent carries an axe and nothing else holds.
    pub fn has_axe() -> (r: StateFlag)
        ensures
            r@ == set![Fact::HasAxe],
    {
        let r = StateFlag { bits: 1 };
        proof {
            r.lemma_single(Fact::HasAxe);
        }
        r
    }

    /// The state in which the agent carries wood and nothing else holds.
    pub fn has_wood() -> (r: StateFlag)
        ensures
            r@ == set![Fact::HasWood],
    {
        let r = StateFlag { bits: 2 };
        proof {
            r.lemma_single(Fact::HasWood);
        }
        r
    }

    /// The state in which an axe is within reach and nothing else holds.
    pub fn axe_available() -> (r: StateFlag)
        ensures
            r@ == set![Fact::AxeAvailable],
    {
        let r = StateFlag { bits: 4 };
        proof {
            r.lemma_single(Fact::AxeAvailable);
        }
        r
    }

    /// Whether every fact of `other` holds in `self`.
    pub fn contains(&self, other: StateFlag) -> (r: bool)
        ensures
            r == other@.subset_of(self@),
    {
        proof {
            use_type_invariant(self);
            use_type_invariant(&other);
            lemma_bits_of_subset(self.bits, other.bits);
            if other@.subset_of(self@) {
                assert(other@.contains(Fact::HasAxe) ==> self@.contains(Fact::HasAxe));
                assert(other@.contains(Fact::HasWood) ==> self@.contains(Fact::HasWood));
                assert(other@.contains(Fact::AxeAvailable) ==> self@.contains(Fact::AxeAvailable));
            }
        }
        self.bits & other.bits == other.bits
    }

    /// The facts of `self` together with those of `other`.
    pub fn union(self, other: StateFlag) -> (r: StateFlag)
        ensures
            r@ == self@.union(other@),
            r == self.spec_union(other),
    {
        proof {
            use_type_invariant(&self);
            use_type_invariant(&other);
            self.lemma_spec_union(other);
        }
        StateFlag { bits: self.bits | other.bits }
    }

    /// The facts of `self` without those of `other`.
    pub fn difference(self, other: StateFlag) -> (r: StateFlag)
        ensures
            r@ == self@.difference(other@),
            r == self.spec_difference(other),
    {
        proof {
            use_type_invariant(&self);
            self.lemma_spec_difference(other);
        }
        StateFlag { bits: self.bits & !other.bits }
    }
}

impl core::ops::BitOr for StateFlag {
    type Output = StateFlag;

    /// `a | b` holds the facts of `a` together with those of `b`.
    fn bitor(self, rhs: StateFlag) -> (r: StateFlag)
        ensures
            r@ == self@.union(rhs@),
    {
        self.union(rhs)
    }
}

impl vstd::std_specs::ops::BitOrSpecImpl for StateFlag {
    open spec fn obeys_bitor_spec() -> bool {
        true
    }

    open spec fn bitor_req(self, rhs: StateFlag) -> bool {
        true
    }

    open spec fn bitor_spec(self, rhs: StateFlag) -> StateFlag {
        self.spec_union(rhs)
    }
}

impl core::ops::Sub for StateFlag {
    type Output = StateFlag;

    /// `a - b` holds the facts of `a` that `b` does not hold.
    fn sub(self, rhs: StateFlag) -> (r: StateFlag)
        ensures
            r@ == self@.difference(rhs@),
    {
        self.difference(rhs)
    }
}

impl vstd::std_specs::ops::SubSpecImpl for StateFlag {
    open spec fn obeys_sub_spec() -> bool {
        true
    }

    open spec fn sub_req(self, rhs: StateFlag) -> bool {
        true
    }

    open spec fn sub_spec(self, rhs: StateFlag) -> StateFlag {
        self.spec_difference(rhs)
    }
}

/// What an agent knows of the world: the facts that hold.
#[derive(Debug, Clone, Copy, PartialEq, Eq, Hash, Structural)]
pub struct Context {
    pub state: StateFlag,
}

impl View for Context {
    type V = Set<Fact>;

    open spec fn view(&self) -> Set<Fact> {
        self.state@
    }
}

impl Context {
    /// The context in which no fact holds.
    pub fn new() -> (r: Self)
        ensures
            r@ == Set::<Fact>::empty(),
    {
        Self { state: StateFlag::none() }
    }

    /// The context in which exactly the facts of `state` hold.
    pub fn with_state(state: StateFlag) -> (r: Self)
        ensures
            r.state == state,
    {
        Self { state }
    }

    /// Whether running `a` establishes nothing but facts of this context, so
    /// that a search going backward from it may step through `a`.
    pub fn would_be_reached_by<A: Action + ?Sized>(&self, a: &A) -> (r: bool)
        ensures
            r == reached_by(self@, a.rule()),
    {
        self.state.contains(a.effects())
    }

    /// The context required before `a` runs so that this context holds
    /// after it: the facts of this context that `a` does not establish,
    /// and the facts that `a` requires.
    pub fn regress<A: Action + ?Sized>(&self, a: &A) -> (r: Self)
        ensures
            r@ == regress(self@, a.rule()),
    {
        Self { state: (self.state - a.effects()) | a.preconditions() }
    }

    /// Whether the two contexts hold the same facts.
    pub fn same_as(&self, other: &Context) -> (r: bool)
        ensures
            r == (self@ == other@),
    {
        let mine = self.state;
        let theirs = other.state;
        proof {
            use_type_invariant(&mine);
            use_type_invariant(&theirs);
            if mine@ == theirs@ {
                mine.lemma_view_decides(theirs);
            }
        }
        mine == theirs
    }
}

} // verus!
