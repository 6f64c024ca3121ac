use vstd::prelude::*;

verus! {

/// An effect changes the data of the game.  Applying it may yield a further
/// effect that is applied next; the chain of effects is finite.
pub trait Effect<T>: Sized {
    /// An upper bound on the number of effects that still follow this one;
    /// effects that yield further effects give one.
    closed spec fn spec_chain_bound(&self) -> nat {
        0
    }

    /// Applying the effect can turn `before` into `after` and yield `next`;
    /// every implementation says how.
    closed spec fn spec_applies(&self, before: T, after: T, next: Option<Self>) -> bool {
        true
    }

    fn apply(&self, data: &mut T) -> (r: Option<Self>)
        ensures
            r matches Some(next) ==> next.spec_chain_bound() < self.spec_chain_bound(),
            self.spec_applies(*old(data), *final(data), r),
    ;
}

/// An effect that can be undone.
pub trait RevEffect<T>: Effect<T> {
    /// Undoing the effect can turn `before` into `after`; every
    /// implementation says how.
    closed spec fn spec_undoes(&self, before: T, after: T) -> bool {
        true
    }

    fn undo(&self, data: &mut T)
        ensures
            self.spec_undoes(*old(data), *final(data)),
    ;
}

/// Outcome of a decision - either an effect or a follow-up decision.
pub enum Outcome<D, E> {
    Effect(E),
    FollowUp(D),
}

/// A game decision: a player chooses one of its options.  `T` is the game
/// data, `E` the effect type and `C` the context of the decision.
pub trait Decision<T, E, C>: Sized {
    /// The number of options; every implementation gives it.
    closed spec fn spec_option_count(&self) -> nat {
        0
    }

    /// The player who decides; every implementation gives it.
    closed spec fn spec_player(&self) -> nat {
        0
    }

    /// `o` is the outcome of option `index` for the data; every
    /// implementation says which.
    closed spec fn spec_selects(&self, data: T, index: usize, o: Outcome<Self, E>) -> bool {
        true
    }

    fn select_option(&self, data: &T, index: usize) -> (r: Outcome<Self, E>)
        requires
            index < self.spec_option_count(),
        ensures
            self.spec_selects(*data, index, r),
    ;

    fn option_count(&self) -> (r: usize)
        ensures
            r == self.spec_option_count(),
    ;

    fn player(&self) -> (r: usize)
        ensures
            r == self.spec_player(),
    ;

    /// `c` is a context that the decision gives for the data; every
    /// implementation says which contexts it gives.
    closed spec fn spec_context_of(&self, data: &T, c: C) -> bool {
        true
    }

    fn context(&self, data: &T) -> (r: C)
        ensures
            self.spec_context_of(data, r),
    ;
}

/// A context where a specific element is provided for each option of the
/// associated decision.
pub trait IndexableContext {
    type ContextElement;

    fn select(&self, index: usize) -> Self::ContextElement;
}

/// Interface between the data and the game engine.
pub trait GameData: Sized {
    /// Context that is added to each decision.
    type Context;
    /// The effects of the game.
    type EffectType: RevEffect<Self>;
    /// The decisions of the game.
    type DecisionType: Decision<Self, Self::EffectType, Self::Context>;

    /// The decision that the data asks for next, or none when the game is
    /// over; every implementation gives it.
    closed spec fn spec_next_decision(&self) -> Option<Self::DecisionType> {
        None
    }

    fn next_decision(&self) -> (r: Option<Self::DecisionType>)
        ensures
            r == self.spec_next_decision(),
    ;
}

} // verus!
