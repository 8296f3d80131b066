//! What the engine asks of the moves of a domain.
use vstd::prelude::*;

verus! {

/// A move of a searchable domain.
///
/// The cost of an action is fixed and is a whole number of cost units. An
/// action has a text form from which it can be read back.
pub trait Action: Sized {
    /// Whether this value is a move of the domain.
    spec fn wf(&self) -> bool;

    /// What it costs to take this action.
    spec fn cost(&self) -> nat;

    /// The text form of this action.
    spec fn rendering(&self) -> Seq<char>;

    /// The action that a text stands for, if it stands for one.
    spec fn parsed(text: Seq<char>) -> Option<Self>;

    /// Reading the text form of an action gives the action back.
    proof fn lemma_round_trip(action: &Self)
        requires
            action.wf(),
        ensures
            Self::parsed(action.rendering()) == Some(*action),
    ;

    /// Only moves of the domain are read from a text.
    proof fn lemma_parsed_wf(text: Seq<char>)
        ensures
            Self::parsed(text) matches Some(action) ==> action.wf(),
    ;

    /// Whether this value is a move of the domain.
    fn is_valid(&self) -> (valid: bool)
        ensures
            valid == self.wf(),
    ;

    fn get_cost(&self) -> (c: u32)
        requires
            self.wf(),
        ensures
            c == self.cost(),
    ;

    fn to_string(&self) -> (s: String)
        requires
            self.wf(),
        ensures
            s@ == self.rendering(),
    ;

    fn from_str(s: &str) -> (r: Result<Self, ()>)
        ensures
            r.is_ok() == Self::parsed(s@).is_some(),
            r matches Ok(action) ==> Self::parsed(s@) == Some(action),
    ;

    /// A copy that is equal to this value.
    fn duplicate(&self) -> (r: Self)
        ensures
            r == *self,
    ;

    /// Whether two actions are the same move.
    fn equals(&self, other: &Self) -> (b: bool)
        ensures
            b == (*self == *other),
    ;
}

/// The summed cost of the actions of a path.
pub open spec fn total_cost<A: Action>(path: Seq<A>) -> nat
    decreases path.len(),
{
    if path.len() == 0 {
        0
    } else {
        total_cost(path.drop_last()) + path.last().cost()
    }
}

} // verus!
